//! Network totals across all interfaces, the delta against the previous
//! snapshot, and the rate that delta implies. The rate is what gets alerted on;
//! the totals exist to give it context.

use crate::float::double::Double;
use crate::report;
use crate::report::{per_second, NetMetrics};
use vstd::prelude::*;

verus! {

/// Bytes that one interface has received and transmitted.
#[derive(Debug, Clone, Copy, PartialEq, Eq, Structural)]
pub struct Interface {
    pub received: u64,
    pub transmitted: u64,
}

/// Bytes received on all interfaces.
pub open spec fn received(nets: Seq<Interface>) -> nat
    decreases nets.len(),
{
    if nets.len() == 0 {
        0
    } else {
        received(nets.drop_last()) + nets.last().received as nat
    }
}

/// Bytes transmitted on all interfaces.
pub open spec fn transmitted(nets: Seq<Interface>) -> nat
    decreases nets.len(),
{
    if nets.len() == 0 {
        0
    } else {
        transmitted(nets.drop_last()) + nets.last().transmitted as nat
    }
}

/// The totals fit their counters.
pub open spec fn countable(nets: Seq<Interface>) -> bool {
    received(nets) <= u64::MAX && transmitted(nets) <= u64::MAX
}

proof fn lemma_totals_grow(nets: Seq<Interface>, i: int)
    requires
        0 <= i <= nets.len(),
    ensures
        received(nets.take(i)) <= received(nets),
        transmitted(nets.take(i)) <= transmitted(nets),
    decreases nets.len() - i,
{
    if i < nets.len() {
        assert(nets.take(i + 1).drop_last() =~= nets.take(i));
        lemma_totals_grow(nets, i + 1);
    } else {
        assert(nets.take(i) =~= nets);
    }
}

/// Bytes received and transmitted on all interfaces.
pub fn totals(nets: &Vec<Interface>) -> (r: (u64, u64))
    requires
        countable(nets@),
    ensures
        r.0 == received(nets@),
        r.1 == transmitted(nets@),
{
    let mut rx: u64 = 0;
    let mut tx: u64 = 0;
    let mut i: usize = 0;
    assert(nets@.take(0) =~= Seq::<Interface>::empty());
    while i < nets.len()
        invariant
            i <= nets@.len(),
            countable(nets@),
            rx == received(nets@.take(i as int)),
            tx == transmitted(nets@.take(i as int)),
        decreases nets@.len() - i,
    {
        proof {
            assert(nets@.take(i + 1).drop_last() =~= nets@.take(i as int));
            lemma_totals_grow(nets@, i + 1);
        }
        rx = rx + nets[i].received;
        tx = tx + nets[i].transmitted;
        i = i + 1;
    }
    assert(nets@.take(i as int) =~= nets@);
    (rx, tx)
}

/// Whether the totals fit their counters, each of them and both together.
pub fn totals_fit(nets: &Vec<Interface>) -> (r: bool)
    ensures
        r == (received(nets@) + transmitted(nets@) <= u64::MAX),
{
    let mut sum: u64 = 0;
    let mut i: usize = 0;
    assert(nets@.take(0) =~= Seq::<Interface>::empty());
    while i < nets.len()
        invariant
            i <= nets@.len(),
            sum == received(nets@.take(i as int)) + transmitted(nets@.take(i as int)),
        decreases nets@.len() - i,
    {
        proof {
            assert(nets@.take(i + 1).drop_last() =~= nets@.take(i as int));
            lemma_totals_grow(nets@, i + 1);
        }
        sum = match sum.checked_add(nets[i].received) {
            Some(s) => match s.checked_add(nets[i].transmitted) {
                Some(t) => t,
                None => return false,
            },
            None => return false,
        };
        i = i + 1;
    }
    assert(nets@.take(i as int) =~= nets@);
    true
}

/// The rate of a delta: it needs both a previous sample and an interval to
/// divide by.
pub open spec fn rate_since(prev: Option<(u64, u64)>, d: u64, interval: Option<Double>) -> Option<
    Double,
> {
    if prev is Some {
        report::rate(d, interval)
    } else {
        None
    }
}

/// Totals, what they grew by since `prev`, and the rate of that.
pub open spec fn traffic(
    rx: u64,
    tx: u64,
    prev: Option<(u64, u64)>,
    interval: Option<Double>,
) -> NetMetrics {
    let rx_delta = match prev {
        Some(p) => rx.saturating_sub(p.0),
        None => 0,
    };
    let tx_delta = match prev {
        Some(p) => tx.saturating_sub(p.1),
        None => 0,
    };
    NetMetrics {
        rx_total: rx,
        tx_total: tx,
        rx_delta,
        tx_delta,
        rx_per_sec: rate_since(prev, rx_delta, interval),
        tx_per_sec: rate_since(prev, tx_delta, interval),
    }
}

/// What [`collect`] gives.
pub open spec fn traffic_of(
    nets: Seq<Interface>,
    prev: Option<(u64, u64)>,
    interval: Option<Double>,
) -> Option<NetMetrics> {
    if nets.len() == 0 {
        None
    } else {
        Some(traffic(received(nets) as u64, transmitted(nets) as u64, prev, interval))
    }
}

/// `None` only when there is no interface to read at all.
///
/// Zero traffic is a measurement, not a failure: an idle server genuinely
/// transferring nothing must report zero, or "quiet" and "broken" become the
/// same reading.
pub fn collect(
    nets: &Vec<Interface>,
    prev: Option<(u64, u64)>,
    interval_secs: Option<Double>,
) -> (r: Option<NetMetrics>)
    requires
        countable(nets@),
    ensures
        r == traffic_of(nets@, prev, interval_secs),
{
    if nets.len() == 0 {
        return None;
    }
    let (rx, tx) = totals(nets);
    let (rx_delta, tx_delta) = match prev {
        Some((pr, pt)) => (rx.saturating_sub(pr), tx.saturating_sub(pt)),
        None => (0, 0),
    };
    let interval: Option<Double> = match prev {
        Some(_) => interval_secs,
        None => None,
    };
    Some(
        NetMetrics {
            rx_total: rx,
            tx_total: tx,
            rx_delta,
            tx_delta,
            rx_per_sec: per_second(rx_delta, interval),
            tx_per_sec: per_second(tx_delta, interval),
        },
    )
}

/// The first sample has no rate and no delta: there is nothing to compare
/// against yet.
pub proof fn the_first_sample_has_no_rate(nets: Seq<Interface>, interval: Option<Double>)
    ensures
        traffic_of(nets, None, interval) matches Some(n) ==> n.rx_per_sec is None && n.tx_per_sec
            is None && n.rx_delta == 0 && n.tx_delta == 0,
{
}

/// The traffic of a machine: what all interfaces moved together, what that grew
/// by, and that growth spread over the interval, for each direction by itself.
pub proof fn traffic_is_summed_and_spread(
    nets: Seq<Interface>,
    prev: (u64, u64),
    interval: Option<Double>,
    more: Interface,
)
    requires
        countable(nets.push(more)),
    ensures
        traffic_of(Seq::empty(), Some(prev), interval) is None,
        traffic_of(nets.push(more), Some(prev), interval) matches Some(n) && {
            &&& n.rx_total == more.received + match traffic_of(nets, Some(prev), interval) {
                Some(b) => b.rx_total as int,
                None => 0,
            }
            &&& n.tx_total == more.transmitted + match traffic_of(nets, Some(prev), interval) {
                Some(b) => b.tx_total as int,
                None => 0,
            }
            &&& n.rx_delta == if n.rx_total < prev.0 {
                0
            } else {
                n.rx_total - prev.0
            }
            &&& n.tx_delta == if n.tx_total < prev.1 {
                0
            } else {
                n.tx_total - prev.1
            }
            &&& report::spreads(n.rx_per_sec, n.rx_delta, interval)
            &&& report::spreads(n.tx_per_sec, n.tx_delta, interval)
        },
{
    let all = nets.push(more);
    assert(all.drop_last() =~= nets);
    assert(all.last() == more);
    let n = traffic_of(all, Some(prev), interval)->0;
    report::a_rate_spreads_its_count(n.rx_delta, interval);
    report::a_rate_spreads_its_count(n.tx_delta, interval);
    if nets.len() == 0 {
        assert(nets =~= Seq::empty());
    }
}

/// Totals that fell below the previous ones, as after a restart of an
/// interface, are a zero delta, never an underflow.
pub proof fn falling_totals_are_a_zero_delta(
    nets: Seq<Interface>,
    prev: (u64, u64),
    interval: Option<Double>,
)
    requires
        countable(nets),
        received(nets) <= prev.0,
        transmitted(nets) <= prev.1,
    ensures
        traffic_of(nets, Some(prev), interval) matches Some(n) ==> n.rx_delta == 0 && n.tx_delta
            == 0,
{
}

} // verus!
