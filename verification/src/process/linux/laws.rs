//! What is read out of `/proc` is what was written there.

use crate::process::linux;
use crate::text;
use vstd::prelude::*;

verus! {

/// A number in decimal is read back as itself.
pub proof fn a_number_is_read_back(n: nat)
    ensures
        linux::number(text::decimal(n)) == n,
        linux::all_digits(text::decimal(n)),
        text::decimal(n).len() > 0,
        n <= u64::MAX ==> linux::parsed(text::decimal(n)) == Some(n as u64),
        n > u64::MAX ==> linux::parsed(text::decimal(n)) is None,
{
    let d = text::decimal(n);
    text::decimal_reads_back(n);
    lemma_same_worth(d);
    assert(linux::all_digits(d));
    assert(d[0] as int != '+' as int);
    assert(d[0] != '+');
}

proof fn lemma_same_worth(d: Seq<char>)
    ensures
        linux::number(d) == text::worth_of(d),
    decreases d.len(),
{
    if d.len() > 0 {
        lemma_same_worth(d.drop_last());
    }
}

/// The digits that a text starts with are all of them.
proof fn lemma_leading(d: Seq<char>, rest: Seq<char>)
    requires
        linux::all_digits(d),
        rest.len() > 0 ==> !linux::is_digit(rest[0]),
    ensures
        linux::leading_digits(d + rest) == d,
    decreases d.len(),
{
    let s = d + rest;
    if d.len() == 0 {
        assert(s =~= rest);
        assert(linux::leading_digits(s) =~= d);
    } else {
        let t = d.drop_first();
        assert forall|i: int| 0 <= i < t.len() implies linux::is_digit(#[trigger] t[i]) by {
            assert(t[i] == d[i + 1]);
        }
        lemma_leading(t, rest);
        assert(s[0] == d[0]);
        assert(s.drop_first() =~= t + rest);
        assert(seq![s[0]] + t =~= d);
    }
}

/// A size in kB counts 1024 bytes each, however large it is, as long as the
/// counter holds it.
pub proof fn a_size_counts_1024_bytes_each(n: nat, pad: Seq<char>)
    requires
        n <= u64::MAX,
        pad.len() > 0 ==> !linux::is_digit(pad[0]),
    ensures
        linux::status_value(text::decimal(n) + pad + "kB"@) == if n * 1024 <= u64::MAX {
            Some((n * 1024) as u64)
        } else {
            None
        },
{
    let d = text::decimal(n);
    let rest = pad + "kB"@;
    reveal_strlit("kB");
    a_number_is_read_back(n);
    assert(rest.len() > 0 && !linux::is_digit(rest[0])) by {
        if pad.len() > 0 {
            assert(rest[0] == pad[0]);
        } else {
            assert(rest[0] == 'k');
        }
    }
    lemma_leading(d, rest);
    let all = d + pad + "kB"@;
    assert(all =~= d + rest);
    assert("kB"@.is_suffix_of(all)) by {
        assert(all.subrange(all.len() - 2, all.len() as int) =~= "kB"@);
    }
}

/// A plain count is that count.
pub proof fn a_plain_count_is_that_count(n: nat)
    requires
        n <= u64::MAX,
    ensures
        linux::status_value(text::decimal(n)) == Some(n as u64),
{
    let d = text::decimal(n);
    reveal_strlit("kB");
    a_number_is_read_back(n);
    lemma_leading(d, Seq::empty());
    assert(d + Seq::<char>::empty() =~= d);
    assert(!"kB"@.is_suffix_of(d)) by {
        if "kB"@.is_suffix_of(d) {
            let tail = d.subrange(d.len() - 2, d.len() as int);
            assert(tail[1] == d[d.len() - 1]);
            assert(linux::is_digit(d[d.len() - 1]));
            assert("kB"@[1] == 'B');
        }
    }
}

/// Only white space.
pub open spec fn blank(s: Seq<char>) -> bool {
    forall|i: int| 0 <= i < s.len() ==> linux::is_space(#[trigger] s[i])
}

proof fn lemma_front(pad: Seq<char>, body: Seq<char>)
    requires
        blank(pad),
        body.len() > 0,
        !linux::is_space(body[0]),
    ensures
        linux::trimmed_front(pad + body) == body,
    decreases pad.len(),
{
    let s = pad + body;
    if pad.len() == 0 {
        assert(s =~= body);
    } else {
        assert(s[0] == pad[0]);
        let t = pad.drop_first();
        assert forall|i: int| 0 <= i < t.len() implies linux::is_space(#[trigger] t[i]) by {
            assert(t[i] == pad[i + 1]);
        }
        lemma_front(t, body);
        assert(s.drop_first() =~= t + body);
    }
}

proof fn lemma_back(body: Seq<char>, pad: Seq<char>)
    requires
        blank(pad),
        body.len() > 0,
        !linux::is_space(body.last()),
    ensures
        linux::trimmed_back(body + pad) == body,
    decreases pad.len(),
{
    let s = body + pad;
    if pad.len() == 0 {
        assert(s =~= body);
    } else {
        assert(s.last() == pad.last());
        assert(pad[pad.len() - 1] == pad.last());
        let t = pad.drop_last();
        assert forall|i: int| 0 <= i < t.len() implies linux::is_space(#[trigger] t[i]) by {
            assert(t[i] == pad[i]);
        }
        lemma_back(body, t);
        assert(s.drop_last() =~= body + t);
    }
}

/// The value of a `key: value` line is what stands behind the colon, without the
/// white space around it.
pub proof fn a_value_stands_behind_its_key(
    key: Seq<char>,
    pad: Seq<char>,
    body: Seq<char>,
    tail: Seq<char>,
)
    requires
        blank(pad),
        blank(tail),
        body.len() > 0,
        !linux::is_space(body[0]),
        !linux::is_space(body.last()),
        body[0] != ':',
    ensures
        linux::value_text(key.push(':') + pad + body + tail, key) == body,
        linux::about(key.push(':') + pad + body + tail, key),
{
    let line = key.push(':') + pad + body + tail;
    let rest = pad + (body + tail);
    let cut = line.skip(key.len() as int);
    assert(cut =~= seq![':'] + rest);
    assert(cut[0] == ':');
    assert(cut.drop_first() =~= rest);
    assert(rest[0] != ':') by {
        if pad.len() > 0 {
            assert(rest[0] == pad[0]);
            assert(linux::is_space(pad[0]));
        } else {
            assert(rest[0] == body[0]);
        }
    }
    assert(linux::after_colons(rest) == rest);
    assert(linux::after_colons(cut) == rest);
    assert((body + tail)[0] == body[0]);
    lemma_front(pad, body + tail);
    lemma_back(body, tail);
    assert(line.subrange(0, key.len() as int) =~= key);
}

/// The first line about a key decides, wherever it stands.
pub proof fn the_first_line_about_a_key_decides(
    before: Seq<Seq<char>>,
    line: Seq<char>,
    after: Seq<Seq<char>>,
    key: Seq<char>,
)
    requires
        forall|i: int| 0 <= i < before.len() ==> !linux::about(#[trigger] before[i], key),
        linux::about(line, key),
    ensures
        linux::status_in(before.push(line) + after, key) == linux::status_value(
            linux::value_text(line, key),
        ),
        linux::parsed(linux::value_text(line, key)) is Some ==> linux::number_in(
            before.push(line) + after,
            key,
        ) == linux::parsed(linux::value_text(line, key)),
    decreases before.len(),
{
    let all = before.push(line) + after;
    if before.len() == 0 {
        assert(all[0] == line);
    } else {
        let b = before.drop_first();
        assert forall|i: int| 0 <= i < b.len() implies !linux::about(#[trigger] b[i], key) by {
            assert(b[i] == before[i + 1]);
        }
        the_first_line_about_a_key_decides(b, line, after, key);
        assert(all[0] == before[0]);
        assert(all.drop_first() =~= b.push(line) + after);
    }
}

/// A key that no line is about was not measured.
pub proof fn a_key_without_a_line_was_not_measured(lines: Seq<Seq<char>>, key: Seq<char>)
    requires
        forall|i: int| 0 <= i < lines.len() ==> !linux::about(#[trigger] lines[i], key),
    ensures
        linux::status_in(lines, key) is None,
        linux::number_in(lines, key) is None,
    decreases lines.len(),
{
    if lines.len() > 0 {
        let b = lines.drop_first();
        assert forall|i: int| 0 <= i < b.len() implies !linux::about(#[trigger] b[i], key) by {
            assert(b[i] == lines[i + 1]);
        }
        a_key_without_a_line_was_not_measured(b, key);
        assert(!linux::about(lines[0], key));
    }
}

proof fn lemma_some_line(s: Seq<char>)
    ensures
        linux::lines_of(s).len() > 0,
    decreases s.len(),
{
    if s.len() > 0 {
        lemma_some_line(s.drop_last());
    }
}

/// A newline ends a line: the lines of two texts with one between them are the
/// lines of the first and then those of the second.
pub proof fn a_newline_ends_a_line(a: Seq<char>, b: Seq<char>)
    ensures
        linux::lines_of(a.push('\n') + b) == linux::lines_of(a) + linux::lines_of(b),
    decreases b.len(),
{
    let s = a.push('\n') + b;
    let (x, y) = (linux::lines_of(a), linux::lines_of(b));
    if b.len() == 0 {
        assert(s =~= a.push('\n'));
        assert(s.drop_last() =~= a);
        assert(linux::lines_of(s) =~= x + y);
    } else {
        let c = b.drop_last();
        a_newline_ends_a_line(a, c);
        lemma_some_line(c);
        let z = linux::lines_of(c);
        assert(s.drop_last() =~= a.push('\n') + c);
        assert(s.last() == b.last());
        assert((x + z).last() == z.last());
        assert((x + z).drop_last() =~= x + z.drop_last());
        assert(linux::lines_of(s) =~= x + y);
    }
}

/// A text without a newline is one line.
pub proof fn a_text_without_a_newline_is_one_line(s: Seq<char>)
    requires
        !s.contains('\n'),
    ensures
        linux::lines_of(s) == seq![s],
    decreases s.len(),
{
    if s.len() > 0 {
        let t = s.drop_last();
        assert(s[s.len() - 1] == s.last());
        assert(!t.contains('\n')) by {
            if t.contains('\n') {
                let i = choose|i: int| 0 <= i < t.len() && t[i] == '\n';
                assert(s[i] == '\n');
            }
        }
        a_text_without_a_newline_is_one_line(t);
        assert(t.push(s.last()) =~= s);
        assert(linux::lines_of(s) =~= seq![s]);
    } else {
        assert(s =~= Seq::empty());
    }
}

/// No white space at all.
pub open spec fn solid(s: Seq<char>) -> bool {
    forall|i: int| 0 <= i < s.len() ==> !linux::is_space(#[trigger] s[i])
}

/// A word behind a space is one more word.
pub proof fn a_space_parts_words(s: Seq<char>, w: Seq<char>)
    requires
        solid(w),
        w.len() > 0,
    ensures
        linux::words_of(s.push(' ') + w) == linux::words_of(s).push(w),
    decreases w.len(),
{
    let all = s.push(' ') + w;
    let v = w.drop_last();
    assert(all.last() == w.last());
    assert(w[w.len() - 1] == w.last());
    assert(all.drop_last() =~= s.push(' ') + v);
    if v.len() == 0 {
        assert(s.push(' ') + v =~= s.push(' '));
        assert(s.push(' ').drop_last() =~= s);
        assert(linux::is_space(' '));
        assert(linux::words_of(s.push(' ')) == linux::words_of(s));
        assert(all[all.len() - 2] == ' ');
        assert(seq![w.last()] =~= w);
    } else {
        assert forall|i: int| 0 <= i < v.len() implies !linux::is_space(#[trigger] v[i]) by {
            assert(v[i] == w[i]);
        }
        a_space_parts_words(s, v);
        assert(all[all.len() - 2] == v.last());
        assert(v[v.len() - 1] == v.last());
        let r = linux::words_of(s).push(v);
        assert(r.drop_last() =~= linux::words_of(s));
        assert(v.push(w.last()) =~= w);
    }
}

/// The fields of a process start behind the last closing bracket and space,
/// whatever its name holds.
pub proof fn the_fields_start_behind_the_name(name: Seq<char>, rest: Seq<char>)
    requires
        forall|i: int| !linux::closes(rest, i),
    ensures
        linux::stat_fields(name + ") "@ + rest) == Some(linux::words_of(rest)),
{
    reveal_strlit(") ");
    let s = name + ") "@ + rest;
    let k = name.len() as int;
    assert(linux::closes(s, k));
    assert forall|j: int| k < j implies !linux::closes(s, j) by {
        if linux::closes(s, j) {
            if j == k + 1 {
                assert(s[j] == ' ');
            } else {
                assert(s[j] == rest[j - k - 2] && s[j + 1] == rest[j - k - 1]);
                assert(linux::closes(rest, j - k - 2));
            }
        }
    }
    assert(linux::last_close(s, k));
    let i = choose|i: int| linux::last_close(s, i);
    assert(linux::last_close(s, i));
    assert(i == k) by {
        if i < k {
            assert(!linux::closes(s, k));
        }
        if k < i {
            assert(!linux::closes(s, i));
        }
    }
    assert(s.skip(k + 2) =~= rest);
}

/// Two fields add up, times the factor, as long as the counter holds it.
pub proof fn two_fields_add_up(
    stat: String,
    f: Seq<Seq<char>>,
    i: int,
    j: int,
    a: nat,
    b: nat,
    factor: nat,
)
    requires
        linux::stat_fields(stat@) == Some(f),
        0 <= i < f.len(),
        0 <= j < f.len(),
        f[i] == text::decimal(a),
        f[j] == text::decimal(b),
        a <= u64::MAX,
        b <= u64::MAX,
    ensures
        (a + b) * factor <= u64::MAX ==> linux::field_sum(Some(stat), i, j, factor as int) == Some(
            ((a + b) * factor) as u64,
        ),
        (a + b) * factor > u64::MAX ==> linux::field_sum(Some(stat), i, j, factor as int) is None,
{
    a_number_is_read_back(a);
    a_number_is_read_back(b);
}

/// Which fields are which: faults are the minor and the major ones, CPU time is
/// the user and the system time in ticks of ten milliseconds.
pub proof fn the_fields_are_in_their_places(raw: linux::Raw)
    ensures
        linux::faults_of(raw) == linux::field_sum(raw.stat, 7, 9, 1),
        linux::cpu_time_of(raw) == linux::field_sum(raw.stat, 11, 12, 10),
        raw.descriptors matches Some(n) ==> (n <= u32::MAX ==> (linux::handles_of(raw) matches Some(
            h,
        ) && h == n)),
        raw.descriptors is None ==> linux::handles_of(raw) is None,
        linux::status_of(raw.status, "Threads"@) matches Some(v) ==> (v <= u32::MAX ==> (
        linux::threads_of(raw) matches Some(t) && t == v)),
        linux::status_of(raw.status, "Threads"@) is None ==> linux::threads_of(raw) is None,
{
}

/// The memory of a process is its resident set, its peak, and what is left of the
/// resident set without file pages.
pub proof fn the_memory_fields_are_in_their_places(raw: linux::Raw, rss: u64, file: u64, peak: u64)
    requires
        linux::status_of(raw.status, "VmRSS"@) == Some(rss),
        linux::status_of(raw.status, "VmHWM"@) == Some(peak),
        linux::status_of(raw.status, "RssFile"@) == Some(file),
        0 < file <= rss,
    ensures
        linux::memory_of(raw) == (rss, (rss - file) as u64, peak),
{
}

/// The I/O counters are bytes and operations, reading before writing.
pub proof fn the_io_fields_are_in_their_places(s: String, raw: linux::Raw)
    requires
        raw.io == Some(s),
    ensures
        linux::io_of(raw) matches Some((read, written, reads, writes)) ==> {
            let l = linux::lines_of(s@);
            &&& linux::number_in(l, "read_bytes"@) == Some(read)
            &&& linux::number_in(l, "write_bytes"@) == Some(written)
            &&& linux::number_in(l, "syscr"@) == Some(reads)
            &&& linux::number_in(l, "syscw"@) == Some(writes)
        },
        linux::io_of(raw) is None ==> {
            let l = linux::lines_of(s@);
            linux::number_in(l, "read_bytes"@) is None || linux::number_in(l, "write_bytes"@) is None
                || linux::number_in(l, "syscr"@) is None || linux::number_in(l, "syscw"@) is None
        },
{
}

} // verus!
