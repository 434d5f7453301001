//! Rows kept in a vector: found by name, put in order.

use vstd::prelude::*;

verus! {

/// A row that goes by a name.
pub trait Named {
    spec fn title(&self) -> Seq<char>;

    fn is_called(&self, name: &str) -> (r: bool)
        ensures
            r == (self.title() == name@),
    ;
}

/// No name occurs twice.
pub open spec fn distinct<T: Named>(rows: Seq<T>) -> bool {
    forall|i: int, j: int|
        0 <= i < j < rows.len() ==> #[trigger] rows[i].title() != #[trigger] rows[j].title()
}

/// Whether a row goes by this name.
pub open spec fn has_name<T: Named>(rows: Seq<T>, name: Seq<char>) -> bool {
    exists|i: int| 0 <= i < rows.len() && #[trigger] rows[i].title() == name
}

/// Where the row of this name stands.
pub open spec fn index_named<T: Named>(rows: Seq<T>, name: Seq<char>) -> int {
    choose|i: int| 0 <= i < rows.len() && #[trigger] rows[i].title() == name
}

/// Among distinct names, the place of a name is where a row has it.
pub proof fn lemma_index_named<T: Named>(rows: Seq<T>, i: int)
    requires
        distinct(rows),
        0 <= i < rows.len(),
    ensures
        has_name(rows, rows[i].title()),
        index_named(rows, rows[i].title()) == i,
{
    let n = rows[i].title();
    let j = index_named(rows, n);
    assert(rows[j].title() == n);
    if i < j {
        assert(rows[i].title() != rows[j].title());
    }
    if j < i {
        assert(rows[j].title() != rows[i].title());
    }
}

/// Where the row of this name stands, if there is one.
pub fn find_named<T: Named>(rows: &Vec<T>, name: &str) -> (r: Option<usize>)
    requires
        distinct(rows@),
    ensures
        match r {
            Some(i) => i < rows@.len() && rows@[i as int].title() == name@ && has_name(
                rows@,
                name@,
            ) && index_named(rows@, name@) == i,
            None => !has_name(rows@, name@),
        },
{
    let mut i: usize = 0;
    while i < rows.len()
        invariant
            i <= rows@.len(),
            distinct(rows@),
            forall|j: int| 0 <= j < i ==> #[trigger] rows@[j].title() != name@,
        decreases rows@.len() - i,
    {
        if rows[i].is_called(name) {
            proof {
                lemma_index_named(rows@, i as int);
            }
            return Some(i);
        }
        i = i + 1;
    }
    None
}

/// Adding a name that was not there keeps the names distinct.
pub proof fn lemma_push_named<T: Named>(rows: Seq<T>, row: T)
    requires
        distinct(rows),
        !has_name(rows, row.title()),
    ensures
        distinct(rows.push(row)),
{
    let all = rows.push(row);
    assert forall|i: int, j: int| 0 <= i < j < all.len() implies #[trigger] all[i].title()
        != #[trigger] all[j].title() by {
        assert(all[i] == rows[i]);
        if j < rows.len() {
            assert(all[j] == rows[j]);
        }
    }
}

/// Replacing a row by one of the same name keeps the names distinct.
pub proof fn lemma_update_named<T: Named>(rows: Seq<T>, i: int, row: T)
    requires
        distinct(rows),
        0 <= i < rows.len(),
        row.title() == rows[i].title(),
    ensures
        distinct(rows.update(i, row)),
{
    let all = rows.update(i, row);
    assert forall|a: int, b: int| 0 <= a < b < all.len() implies #[trigger] all[a].title()
        != #[trigger] all[b].title() by {
        assert(all[a].title() == rows[a].title());
        assert(all[b].title() == rows[b].title());
    }
}

/// A row that holds a value under its name.
pub trait Row: Named {
    type Value;

    spec fn value(&self) -> Self::Value;
}

/// The values under their names.
pub open spec fn table<T: Row>(rows: Seq<T>) -> Map<Seq<char>, T::Value> {
    Map::new(
        |n: Seq<char>| has_name(rows, n),
        |n: Seq<char>| rows[index_named(rows, n)].value(),
    )
}

/// What a row holds is what stands under its name.
pub proof fn lemma_table_at<T: Row>(rows: Seq<T>, i: int)
    requires
        distinct(rows),
        0 <= i < rows.len(),
    ensures
        table(rows).dom().contains(rows[i].title()),
        table(rows)[rows[i].title()] == rows[i].value(),
{
    lemma_index_named(rows, i);
}

/// Replacing a row by one of the same name replaces the value under that name.
pub proof fn lemma_table_update<T: Row>(rows: Seq<T>, i: int, row: T)
    requires
        distinct(rows),
        0 <= i < rows.len(),
        row.title() == rows[i].title(),
    ensures
        distinct(rows.update(i, row)),
        table(rows.update(i, row)) == table(rows).insert(row.title(), row.value()),
{
    lemma_update_named(rows, i, row);
    let now = rows.update(i, row);
    assert forall|n: Seq<char>| #[trigger] has_name(now, n) == has_name(rows, n) by {
        if has_name(rows, n) {
            let k = index_named(rows, n);
            assert(rows[k].title() == now[k].title());
        }
        if has_name(now, n) {
            let k = index_named(now, n);
            assert(rows[k].title() == now[k].title());
        }
    }
    assert(now[i].title() == row.title());
    assert forall|n: Seq<char>| #[trigger] has_name(now, n) implies now[index_named(now, n)].value()
        == (if n == row.title() {
        row.value()
    } else {
        rows[index_named(rows, n)].value()
    }) by {
        let k = index_named(now, n);
        assert(now[k].title() == n);
        assert(rows[k].title() == n);
        lemma_index_named(rows, k);
    }
    assert(table(now) =~= table(rows).insert(row.title(), row.value()));
}

/// Adding a row with a new name adds the value under that name.
pub proof fn lemma_table_push<T: Row>(rows: Seq<T>, row: T)
    requires
        distinct(rows),
        !has_name(rows, row.title()),
    ensures
        distinct(rows.push(row)),
        table(rows.push(row)) == table(rows).insert(row.title(), row.value()),
{
    lemma_push_named(rows, row);
    let now = rows.push(row);
    assert(now[rows.len() as int].title() == row.title());
    assert forall|n: Seq<char>| #[trigger]
        has_name(now, n) == (has_name(rows, n) || n == row.title()) by {
        if has_name(rows, n) {
            let k = index_named(rows, n);
            assert(now[k].title() == n);
        }
        if has_name(now, n) {
            let k = index_named(now, n);
            if k < rows.len() {
                assert(rows[k].title() == n);
            }
        }
    }
    assert forall|n: Seq<char>| #[trigger] has_name(now, n) implies now[index_named(now, n)].value()
        == (if n == row.title() {
        row.value()
    } else {
        rows[index_named(rows, n)].value()
    }) by {
        let k = index_named(now, n);
        assert(now[k].title() == n);
        if k < rows.len() {
            assert(rows[k].title() == n);
            lemma_index_named(rows, k);
        }
    }
    assert(table(now) =~= table(rows).insert(row.title(), row.value()));
}

/// Rows that some come ahead of others.
pub trait Ranked {
    spec fn ahead(&self, other: &Self) -> bool;

    /// The order is strict.
    proof fn asymmetric(a: &Self, b: &Self)
        ensures
            !(a.ahead(b) && b.ahead(a)),
    ;

    /// Rows of which neither comes ahead of the other share their place.
    proof fn layered(a: &Self, b: &Self, c: &Self)
        requires
            a.ahead(b),
            !c.ahead(b),
        ensures
            a.ahead(c),
    ;

    fn is_ahead(&self, other: &Self) -> (r: bool)
        ensures
            r == self.ahead(other),
    ;
}

/// `p` lists each of `n` places once.
pub open spec fn permutes(p: Seq<usize>, n: nat) -> bool {
    &&& p.len() == n
    &&& forall|i: int| 0 <= i < n ==> #[trigger] p[i] < n
    &&& forall|i: int, j: int| 0 <= i < j < n ==> #[trigger] p[i] != #[trigger] p[j]
}

/// `p` lists the places of the rows in order: no row stands behind one that it
/// is ahead of, and rows that share their place keep the order they came in.
pub open spec fn in_order<T: Ranked>(rows: Seq<T>, p: Seq<usize>) -> bool {
    &&& permutes(p, rows.len())
    &&& forall|i: int, j: int|
        0 <= i < j < p.len() ==> rows[#[trigger] p[i] as int].ahead(&rows[#[trigger] p[j] as int])
            || (!rows[p[j] as int].ahead(&rows[p[i] as int]) && p[i] < p[j])
}

/// The places of the rows in order.
pub fn order<T: Ranked>(rows: &Vec<T>) -> (p: Vec<usize>)
    ensures
        in_order(rows@, p@),
{
    let mut p: Vec<usize> = Vec::new();
    let mut i: usize = 0;
    while i < rows.len()
        invariant
            i <= rows@.len(),
            permutes(p@, i as nat),
            forall|a: int, b: int|
                0 <= a < b < i ==> rows@[#[trigger] p@[a] as int].ahead(
                    &rows@[#[trigger] p@[b] as int],
                ) || (!rows@[p@[b] as int].ahead(&rows@[p@[a] as int]) && p@[a] < p@[b]),
        decreases rows@.len() - i,
    {
        let mut k: usize = 0;
        while k < p.len() && !rows[i].is_ahead(&rows[p[k]])
            invariant
                k <= p@.len(),
                p@.len() == i,
                i < rows@.len(),
                forall|a: int| 0 <= a < i ==> #[trigger] p@[a] < i,
                forall|a: int|
                    0 <= a < k ==> !rows@[i as int].ahead(&rows@[#[trigger] p@[a] as int]),
            decreases p@.len() - k,
        {
            k = k + 1;
        }
        let ghost was = p@;
        p.insert(k, i);
        proof {
            assert(p@ =~= was.insert(k as int, i));
            assert forall|a: int, b: int| 0 <= a < b < i + 1 implies rows@[#[trigger] p@[a] as int].ahead(
                &rows@[#[trigger] p@[b] as int],
            ) || (!rows@[p@[b] as int].ahead(&rows@[p@[a] as int]) && p@[a] < p@[b]) by {
                let x = if a < k {
                    a
                } else {
                    a - 1
                };
                let y = if b < k {
                    b
                } else {
                    b - 1
                };
                if a != k {
                    assert(p@[a] == was[x]);
                }
                if b != k {
                    assert(p@[b] == was[y]);
                }
                if a == k {
                    let first = was[k as int];
                    assert(rows@[i as int].ahead(&rows@[first as int]));
                    if y > k {
                        assert(was[k as int] == first);
                        T::asymmetric(&rows@[first as int], &rows@[was[y] as int]);
                        T::layered(&rows@[i as int], &rows@[first as int], &rows@[was[y] as int]);
                    }
                }
            }
        }
        i = i + 1;
    }
    p
}

/// A list that names each of `n` places once leaves none of them out.
pub proof fn lemma_permutes_all(p: Seq<usize>, n: nat, j: int)
    requires
        permutes(p, n),
        0 <= j < n,
    ensures
        exists|k: int| 0 <= k < p.len() && #[trigger] p[k] == j,
{
    let q = p.map_values(|x: usize| x as int);
    assert(q.no_duplicates()) by {
        assert forall|a: int, b: int| 0 <= a < q.len() && 0 <= b < q.len() && a != b implies q[a]
            != q[b] by {
            if a < b {
                assert(p[a] != p[b]);
            } else {
                assert(p[b] != p[a]);
            }
        }
    }
    q.unique_seq_to_set();
    let all = vstd::set_lib::set_int_range(0, n as int);
    vstd::set_lib::lemma_int_range(0, n as int);
    assert(q.to_set().subset_of(all)) by {
        assert forall|x: int| q.to_set().contains(x) implies all.contains(x) by {
            let k = choose|k: int| 0 <= k < q.len() && q[k] == x;
            assert(p[k] < n);
        }
    }
    vstd::set_lib::lemma_subset_equality(q.to_set(), all);
    assert(q.to_set().contains(j));
    let k = choose|k: int| 0 <= k < q.len() && q[k] == j;
    assert(p[k] == j);
}

/// The sum of numbers.
pub open spec fn total(s: Seq<u64>) -> nat
    decreases s.len(),
{
    if s.len() == 0 {
        0
    } else {
        total(s.drop_last()) + s.last() as nat
    }
}

/// A sum without one of its terms.
pub proof fn lemma_total_remove(s: Seq<u64>, k: int)
    requires
        0 <= k < s.len(),
    ensures
        total(s) == total(s.remove(k)) + s[k],
    decreases s.len(),
{
    if k < s.len() - 1 {
        lemma_total_remove(s.drop_last(), k);
        assert(s.remove(k).drop_last() =~= s.drop_last().remove(k));
        assert(s.remove(k).last() == s.last());
    } else {
        assert(s.remove(k) =~= s.drop_last());
    }
}

/// The order of its terms does not change a sum.
pub proof fn lemma_total_permuted(s: Seq<u64>, p: Seq<usize>, t: Seq<u64>)
    requires
        permutes(p, s.len()),
        t.len() == s.len(),
        forall|i: int| 0 <= i < t.len() ==> #[trigger] t[i] == s[p[i] as int],
    ensures
        total(t) == total(s),
    decreases s.len(),
{
    if s.len() > 0 {
        let n = s.len() - 1;
        lemma_permutes_all(p, s.len(), n as int);
        let k = choose|k: int| 0 <= k < p.len() && #[trigger] p[k] == n;
        let (q, r, u) = (p.remove(k), s.drop_last(), t.remove(k));
        assert forall|i: int| 0 <= i < n implies #[trigger] q[i] < n by {
            let x = if i < k {
                i
            } else {
                i + 1
            };
            assert(q[i] == p[x]);
            if x < k {
                assert(p[x] != p[k]);
            } else {
                assert(p[k] != p[x]);
            }
        }
        assert forall|i: int, j: int| 0 <= i < j < n implies #[trigger] q[i] != #[trigger] q[j] by {
            let x = if i < k {
                i
            } else {
                i + 1
            };
            let y = if j < k {
                j
            } else {
                j + 1
            };
            assert(p[x] != p[y]);
        }
        assert forall|i: int| 0 <= i < u.len() implies #[trigger] u[i] == r[q[i] as int] by {
            let x = if i < k {
                i
            } else {
                i + 1
            };
            assert(u[i] == t[x]);
            assert(q[i] == p[x]);
            assert(q[i] < n);
        }
        lemma_total_permuted(r, q, u);
        lemma_total_remove(t, k);
    }
}

} // verus!
