//! Linux: the native counters out of `/proc`.

pub mod laws;

use crate::text::letters;
use vstd::prelude::*;

verus! {

/// What `/proc` held; `None` where it could not be read.
#[derive(Debug, Clone)]
pub struct Raw {
    /// `/proc/self/status`.
    pub status: Option<String>,
    /// `/proc/self/stat`.
    pub stat: Option<String>,
    /// `/proc/self/io`.
    pub io: Option<String>,
    /// Entries of `/proc/self/fd`.
    pub descriptors: Option<usize>,
}

/// White space, as Unicode has it.
pub open spec fn is_space(c: char) -> bool {
    let v = c as int;
    ||| 0x9 <= v <= 0xd
    ||| v == 0x20
    ||| v == 0x85
    ||| v == 0xa0
    ||| v == 0x1680
    ||| 0x2000 <= v <= 0x200a
    ||| v == 0x2028
    ||| v == 0x2029
    ||| v == 0x202f
    ||| v == 0x205f
    ||| v == 0x3000
}

fn space(c: char) -> (r: bool)
    ensures
        r == is_space(c),
{
    let v: u32 = crate::text::code_point(c);
    (0x9 <= v && v <= 0xd) || v == 0x20 || v == 0x85 || v == 0xa0 || v == 0x1680 || (0x2000 <= v
        && v <= 0x200a) || v == 0x2028 || v == 0x2029 || v == 0x202f || v == 0x205f || v == 0x3000
}

/// The pieces of a text between newlines.
pub open spec fn lines_of(s: Seq<char>) -> Seq<Seq<char>>
    decreases s.len(),
{
    if s.len() == 0 {
        seq![Seq::empty()]
    } else {
        let r = lines_of(s.drop_last());
        if s.last() == '\n' {
            r.push(Seq::empty())
        } else {
            r.drop_last().push(r.last().push(s.last()))
        }
    }
}

/// The words of a text: its longest runs without white space.
pub open spec fn words_of(s: Seq<char>) -> Seq<Seq<char>>
    decreases s.len(),
{
    if s.len() == 0 || is_space(s.last()) {
        if s.len() == 0 {
            Seq::empty()
        } else {
            words_of(s.drop_last())
        }
    } else {
        let r = words_of(s.drop_last());
        if s.len() == 1 || is_space(s[s.len() - 2]) {
            r.push(seq![s.last()])
        } else {
            r.drop_last().push(r.last().push(s.last()))
        }
    }
}

/// A text without the white space in front.
pub open spec fn trimmed_front(s: Seq<char>) -> Seq<char>
    decreases s.len(),
{
    if s.len() > 0 && is_space(s[0]) {
        trimmed_front(s.drop_first())
    } else {
        s
    }
}

/// A text without the white space behind.
pub open spec fn trimmed_back(s: Seq<char>) -> Seq<char>
    decreases s.len(),
{
    if s.len() > 0 && is_space(s.last()) {
        trimmed_back(s.drop_last())
    } else {
        s
    }
}

/// A text without the colons in front.
pub open spec fn after_colons(s: Seq<char>) -> Seq<char>
    decreases s.len(),
{
    if s.len() > 0 && s[0] == ':' {
        after_colons(s.drop_first())
    } else {
        s
    }
}

/// What a `key: value` line says of a key: the rest of it, without colons in
/// front and without white space around.
pub open spec fn value_text(line: Seq<char>, key: Seq<char>) -> Seq<char> {
    trimmed_back(trimmed_front(after_colons(line.skip(key.len() as int))))
}

/// Whether a line is about a key.
pub open spec fn about(line: Seq<char>, key: Seq<char>) -> bool {
    key.is_prefix_of(line)
}

pub open spec fn is_digit(c: char) -> bool {
    0x30 <= c as int <= 0x39
}

/// The digits that a text starts with.
pub open spec fn leading_digits(s: Seq<char>) -> Seq<char>
    decreases s.len(),
{
    if s.len() > 0 && is_digit(s[0]) {
        seq![s[0]] + leading_digits(s.drop_first())
    } else {
        Seq::empty()
    }
}

/// The number that digits stand for.
pub open spec fn number(s: Seq<char>) -> nat
    decreases s.len(),
{
    if s.len() == 0 {
        0
    } else {
        10 * number(s.drop_last()) + (s.last() as int - 0x30) as nat
    }
}

pub open spec fn all_digits(s: Seq<char>) -> bool {
    forall|i: int| 0 <= i < s.len() ==> is_digit(#[trigger] s[i])
}

/// The number that digits stand for, as far as it fits.
pub open spec fn parsed_digits(s: Seq<char>) -> Option<u64> {
    if s.len() > 0 && all_digits(s) && number(s) <= u64::MAX {
        Some(number(s) as u64)
    } else {
        None
    }
}

/// A number written in digits, with or without a plus sign.
pub open spec fn parsed(s: Seq<char>) -> Option<u64> {
    parsed_digits(
        if s.len() > 0 && s[0] == '+' {
            s.drop_first()
        } else {
            s
        },
    )
}

/// The value that a status line gives: a plain count, or a size in kB. One that
/// the counter cannot hold is no measurement.
pub open spec fn status_value(rest: Seq<char>) -> Option<u64> {
    match parsed_digits(leading_digits(rest)) {
        Some(v) => if "kB"@.is_suffix_of(rest) {
            if v * 1024 <= u64::MAX {
                Some((v * 1024) as u64)
            } else {
                None
            }
        } else {
            Some(v)
        },
        None => None,
    }
}

/// What the first of the lines about a key says.
pub open spec fn status_in(lines: Seq<Seq<char>>, key: Seq<char>) -> Option<u64>
    decreases lines.len(),
{
    if lines.len() == 0 {
        None
    } else if about(lines[0], key) {
        status_value(value_text(lines[0], key))
    } else {
        status_in(lines.drop_first(), key)
    }
}

/// A field of `/proc/self/status`.
pub open spec fn status_of(status: Option<String>, key: Seq<char>) -> Option<u64> {
    match status {
        Some(s) => status_in(lines_of(s@), key),
        None => None,
    }
}

/// What the first line says that is about a key and gives a number.
pub open spec fn number_in(lines: Seq<Seq<char>>, key: Seq<char>) -> Option<u64>
    decreases lines.len(),
{
    if lines.len() == 0 {
        None
    } else if about(lines[0], key) && parsed(value_text(lines[0], key)) is Some {
        parsed(value_text(lines[0], key))
    } else {
        number_in(lines.drop_first(), key)
    }
}

/// Where the last `") "` of a text stands.
pub open spec fn last_close(s: Seq<char>, i: int) -> bool {
    &&& closes(s, i)
    &&& forall|j: int| i < j ==> !closes(s, j)
}

pub open spec fn closes(s: Seq<char>, i: int) -> bool {
    0 <= i && i + 1 < s.len() && s[i] == ')' && s[i + 1] == ' '
}

/// The fields of `/proc/self/stat` behind the command name, which may itself
/// contain spaces.
pub open spec fn stat_fields(stat: Seq<char>) -> Option<Seq<Seq<char>>> {
    if exists|i: int| closes(stat, i) {
        Some(words_of(stat.skip((choose|i: int| last_close(stat, i)) + 2)))
    } else {
        None
    }
}

/// A field as a number.
pub open spec fn field_number(fields: Seq<Seq<char>>, i: int) -> Option<u64> {
    if 0 <= i < fields.len() {
        parsed(fields[i])
    } else {
        None
    }
}

/// The sum of two fields, times a factor. One that the counter cannot hold is no
/// measurement.
pub open spec fn field_sum(stat: Option<String>, i: int, j: int, factor: int) -> Option<u64> {
    match stat {
        Some(s) => match stat_fields(s@) {
            Some(f) => match (field_number(f, i), field_number(f, j)) {
                (Some(a), Some(b)) => if (a + b) * factor <= u64::MAX {
                    Some(((a + b) * factor) as u64)
                } else {
                    None
                },
                _ => None,
            },
            None => None,
        },
        None => None,
    }
}

/// A value, zero where it is missing.
pub open spec fn or_zero(v: Option<u64>) -> u64 {
    match v {
        Some(x) => x,
        None => 0,
    }
}

/// `(working set, private bytes, peak working set)`, all zeros where there is no
/// working set to read. A peak that is not there is zero too.
pub open spec fn memory_of(raw: Raw) -> (u64, u64, u64) {
    let rss = or_zero(status_of(raw.status, "VmRSS"@));
    let peak = or_zero(status_of(raw.status, "VmHWM"@));
    let private = match status_of(raw.status, "RssFile"@) {
        Some(file) => rss.saturating_sub(file),
        None => rss,
    };
    if rss == 0 {
        (0, 0, 0)
    } else {
        (rss, private, peak)
    }
}

/// Minor and major page faults: fields 10 and 12 of the line, counted from one.
pub open spec fn faults_of(raw: Raw) -> Option<u64> {
    field_sum(raw.stat, 7, 9, 1)
}

/// User and system time in clock ticks of 10 ms.
pub open spec fn cpu_time_of(raw: Raw) -> Option<u64> {
    field_sum(raw.stat, 11, 12, 10)
}

pub open spec fn handles_of(raw: Raw) -> Option<u32> {
    match raw.descriptors {
        Some(n) => Some(n as u32),
        None => None,
    }
}

pub open spec fn threads_of(raw: Raw) -> Option<u32> {
    match status_of(raw.status, "Threads"@) {
        Some(v) => Some(v as u32),
        None => None,
    }
}

/// Read bytes, written bytes, read and write syscalls; `None` where one of them
/// is not there.
pub open spec fn io_of(raw: Raw) -> Option<(u64, u64, u64, u64)> {
    match raw.io {
        Some(s) => {
            let l = lines_of(s@);
            match (
                number_in(l, "read_bytes"@),
                number_in(l, "write_bytes"@),
                number_in(l, "syscr"@),
                number_in(l, "syscw"@),
            ) {
                (Some(r), Some(w), Some(reads), Some(writes)) => Some((r, w, reads, writes)),
                _ => None,
            }
        },
        None => None,
    }
}

/// The characters of each piece.
pub open spec fn pieces(v: Seq<Vec<char>>) -> Seq<Seq<char>> {
    v.map_values(|x: Vec<char>| x@)
}

fn lines(s: &str) -> (r: Vec<Vec<char>>)
    ensures
        pieces(r@) == lines_of(s@),
{
    let c: Vec<char> = letters(s);
    let mut done: Vec<Vec<char>> = Vec::new();
    let mut cur: Vec<char> = Vec::new();
    let mut i: usize = 0;
    proof {
        assert(c@.take(0) =~= Seq::<char>::empty());
        assert(pieces(done@).push(cur@) =~= lines_of(c@.take(0)));
    }
    while i < c.len()
        invariant
            i <= c@.len(),
            pieces(done@).push(cur@) == lines_of(c@.take(i as int)),
        decreases c@.len() - i,
    {
        let x: char = c[i];
        let ghost all = pieces(done@).push(cur@);
        proof {
            let t = c@.take(i + 1);
            assert(t.drop_last() =~= c@.take(i as int));
            assert(t.last() == x);
            assert(all.drop_last() =~= pieces(done@));
            assert(all.last() == cur@);
        }
        if x == '\n' {
            done.push(cur);
            cur = Vec::new();
            proof {
                assert(pieces(done@) =~= all);
                assert(cur@ =~= Seq::<char>::empty());
            }
        } else {
            cur.push(x);
        }
        i = i + 1;
    }
    proof {
        assert(c@.take(i as int) =~= c@);
        assert(pieces(done@.push(cur)) =~= pieces(done@).push(cur@));
    }
    done.push(cur);
    done
}

fn words(s: &[char]) -> (r: Vec<Vec<char>>)
    ensures
        pieces(r@) == words_of(s@),
{
    let mut done: Vec<Vec<char>> = Vec::new();
    let mut cur: Vec<char> = Vec::new();
    let mut i: usize = 0;
    proof {
        assert(s@.take(0) =~= Seq::<char>::empty());
        assert(pieces(done@) =~= words_of(s@.take(0)));
    }
    while i < s.len()
        invariant
            i <= s@.len(),
            cur@.len() > 0 <==> i > 0 && !is_space(s@[i - 1]),
            words_of(s@.take(i as int)) == if cur@.len() > 0 {
                pieces(done@).push(cur@)
            } else {
                pieces(done@)
            },
        decreases s@.len() - i,
    {
        let x: char = s[i];
        let ghost t = s@.take(i + 1);
        let ghost all = words_of(s@.take(i as int));
        proof {
            assert(t.drop_last() =~= s@.take(i as int));
            assert(t.last() == x);
            if i > 0 {
                assert(t[t.len() - 2] == s@[i - 1]);
            }
            if cur@.len() > 0 {
                assert(all.drop_last() =~= pieces(done@));
                assert(all.last() == cur@);
            }
        }
        if space(x) {
            if cur.len() > 0 {
                done.push(cur);
                cur = Vec::new();
                assert(pieces(done@) =~= all);
            }
        } else {
            let ghost was = cur@;
            cur.push(x);
            proof {
                if was.len() == 0 {
                    assert(cur@ =~= seq![x]);
                }
            }
        }
        i = i + 1;
    }
    assert(s@.take(i as int) =~= s@);
    if cur.len() > 0 {
        assert(pieces(done@.push(cur)) =~= pieces(done@).push(cur@));
        done.push(cur);
    }
    done
}

/// Whether a line is about a key.
fn starts(line: &Vec<char>, key: &Vec<char>) -> (r: bool)
    ensures
        r == about(line@, key@),
{
    if line.len() < key.len() {
        return false;
    }
    let mut i: usize = 0;
    while i < key.len()
        invariant
            i <= key@.len() <= line@.len(),
            forall|j: int| 0 <= j < i ==> line@[j] == key@[j],
        decreases key@.len() - i,
    {
        if line[i] != key[i] {
            assert(line@.subrange(0, key@.len() as int)[i as int] != key@[i as int]);
            return false;
        }
        i = i + 1;
    }
    assert(key@ =~= line@.subrange(0, key@.len() as int));
    true
}

/// What a line says of a key.
fn value(line: &Vec<char>, key: &Vec<char>) -> (r: Vec<char>)
    requires
        about(line@, key@),
    ensures
        r@ == value_text(line@, key@),
{
    let mut from: usize = key.len();
    let ghost whole = after_colons(line@.skip(key@.len() as int));
    while from < line.len() && line[from] == ':'
        invariant
            from <= line@.len(),
            whole == after_colons(line@.skip(from as int)),
        decreases line@.len() - from,
    {
        assert(line@.skip(from as int).drop_first() =~= line@.skip(from + 1));
        from = from + 1;
    }
    assert(whole == line@.skip(from as int));
    let ghost front = trimmed_front(whole);
    while from < line.len() && space(line[from])
        invariant
            from <= line@.len(),
            front == trimmed_front(line@.skip(from as int)),
        decreases line@.len() - from,
    {
        assert(line@.skip(from as int).drop_first() =~= line@.skip(from + 1));
        from = from + 1;
    }
    assert(front == line@.skip(from as int));
    let mut to: usize = line.len();
    assert(line@.skip(from as int) =~= line@.subrange(from as int, to as int));
    while to > from && space(line[to - 1])
        invariant
            from <= to <= line@.len(),
            trimmed_back(front) == trimmed_back(line@.subrange(from as int, to as int)),
        decreases to,
    {
        assert(line@.subrange(from as int, to as int).drop_last() =~= line@.subrange(
            from as int,
            to - 1,
        ));
        to = to - 1;
    }
    let mut r: Vec<char> = Vec::new();
    let mut i: usize = from;
    while i < to
        invariant
            from <= i <= to <= line@.len(),
            r@ == line@.subrange(from as int, i as int),
        decreases to - i,
    {
        r.push(line[i]);
        assert(r@ =~= line@.subrange(from as int, i + 1));
        i = i + 1;
    }
    r
}

/// Fewer digits make no larger a number.
proof fn lemma_number_grows(s: Seq<char>, i: int)
    requires
        0 <= i <= s.len(),
        all_digits(s),
    ensures
        number(s.take(i)) <= number(s),
    decreases s.len() - i,
{
    if i < s.len() {
        assert(s.take(i + 1).drop_last() =~= s.take(i));
        assert(is_digit(s[i]));
        lemma_number_grows(s, i + 1);
    } else {
        assert(s.take(i) =~= s);
    }
}

fn parse_digits(s: &[char]) -> (r: Option<u64>)
    ensures
        r == parsed_digits(s@),
{
    if s.len() == 0 {
        return None;
    }
    let mut v: u64 = 0;
    let mut i: usize = 0;
    assert(s@.take(0) =~= Seq::<char>::empty());
    while i < s.len()
        invariant
            i <= s@.len(),
            v == number(s@.take(i as int)),
            forall|j: int| 0 <= j < i ==> is_digit(#[trigger] s@[j]),
            s@.len() > 0,
        decreases s@.len() - i,
    {
        let c: u32 = crate::text::code_point(s[i]);
        if c < 0x30 || c > 0x39 {
            assert(!is_digit(s@[i as int]));
            return None;
        }
        let d: u64 = (c - 0x30) as u64;
        proof {
            assert(s@.take(i + 1).drop_last() =~= s@.take(i as int));
            assert(number(s@.take(i + 1)) == 10 * v + d);
            if all_digits(s@) {
                lemma_number_grows(s@, i + 1);
            }
        }
        if v > (u64::MAX - d) / 10 {
            assert(10 * v + d > u64::MAX);
            return None;
        }
        v = v * 10 + d;
        i = i + 1;
    }
    assert(s@.take(i as int) =~= s@);
    Some(v)
}

fn parse(s: &Vec<char>) -> (r: Option<u64>)
    ensures
        r == parsed(s@),
{
    if s.len() > 0 && s[0] == '+' {
        let tail: &[char] = vstd::slice::slice_subrange(s.as_slice(), 1, s.len());
        assert(tail@ =~= s@.drop_first());
        parse_digits(tail)
    } else {
        parse_digits(s.as_slice())
    }
}

proof fn lemma_leading_digits(s: Seq<char>, k: int)
    requires
        0 <= k <= s.len(),
        forall|j: int| 0 <= j < k ==> is_digit(#[trigger] s[j]),
        k < s.len() ==> !is_digit(s[k]),
    ensures
        leading_digits(s) == s.take(k),
    decreases k,
{
    if k > 0 {
        let t = s.drop_first();
        assert forall|j: int| 0 <= j < k - 1 implies is_digit(#[trigger] t[j]) by {
            assert(t[j] == s[j + 1]);
        }
        assert(is_digit(s[0]));
        lemma_leading_digits(t, k - 1);
        assert(seq![s[0]] + t.take(k - 1) =~= s.take(k));
    } else {
        assert(s.take(0) =~= Seq::<char>::empty());
    }
}

fn parse_status(rest: &Vec<char>) -> (r: Option<u64>)
    ensures
        r == status_value(rest@),
{
    let mut k: usize = 0;
    let n: usize = rest.len();
    while k < n && 0x30 <= crate::text::code_point(rest[k]) && crate::text::code_point(rest[k])
        <= 0x39
        invariant
            k <= n,
            n == rest@.len(),
            forall|j: int| 0 <= j < k ==> is_digit(#[trigger] rest@[j]),
        decreases n - k,
    {
        k = k + 1;
    }
    proof {
        lemma_leading_digits(rest@, k as int);
        reveal_strlit("kB");
    }
    let head: &[char] = vstd::slice::slice_subrange(rest.as_slice(), 0, k);
    assert(head@ =~= rest@.take(k as int));
    let v: u64 = match parse_digits(head) {
        Some(v) => v,
        None => return None,
    };
    let in_kb: bool = n >= 2 && rest[n - 2] == 'k' && rest[n - 1] == 'B';
    proof {
        if n >= 2 {
            let tail = rest@.subrange(n - 2, n as int);
            assert(tail[0] == rest@[n - 2] && tail[1] == rest@[n - 1]);
            if in_kb {
                assert("kB"@ =~= tail);
            }
        }
    }
    assert(in_kb == "kB"@.is_suffix_of(rest@));
    if in_kb {
        v.checked_mul(1024)
    } else {
        Some(v)
    }
}

/// A field of `/proc/self/status`. Everything read from there is either a plain
/// count or a size in kB.
pub fn status_field(status: &Option<String>, key: &str) -> (r: Option<u64>)
    ensures
        r == status_of(*status, key@),
{
    let s: &String = match status {
        Some(s) => s,
        None => return None,
    };
    let all: Vec<Vec<char>> = lines(s.as_str());
    let k: Vec<char> = letters(key);
    let ghost l = pieces(all@);
    let mut i: usize = 0;
    assert(l.skip(0) =~= l);
    while i < all.len()
        invariant
            i <= all@.len(),
            l == pieces(all@),
            k@ == key@,
            status_of(*status, key@) == status_in(l, key@),
            status_in(l, key@) == status_in(l.skip(i as int), key@),
        decreases all@.len() - i,
    {
        assert(l[i as int] == all@[i as int]@);
        assert(l.skip(i as int)[0] == l[i as int]);
        assert(l.skip(i as int).drop_first() =~= l.skip(i + 1));
        if starts(&all[i], &k) {
            return parse_status(&value(&all[i], &k));
        }
        i = i + 1;
    }
    None
}

/// `(working set, private bytes, peak working set)`, zeros on failure.
///
/// `VmRSS` is the resident set. There is no exact private-bytes counter;
/// `VmRSS - RssFile` (anonymous + shared dirty) is the closest honest analogue,
/// so that is what is reported.
pub fn mem_counters(raw: &Raw) -> (r: (u64, u64, u64))
    ensures
        r == memory_of(*raw),
{
    let rss: u64 = zero_if_none(status_field(&raw.status, "VmRSS"));
    if rss == 0 {
        return (0, 0, 0);
    }
    let peak: u64 = zero_if_none(status_field(&raw.status, "VmHWM"));
    let private: u64 = match status_field(&raw.status, "RssFile") {
        Some(file) => rss.saturating_sub(file),
        None => rss,
    };
    (rss, private, peak)
}

fn zero_if_none(v: Option<u64>) -> (r: u64)
    ensures
        r == or_zero(v),
{
    match v {
        Some(x) => x,
        None => 0,
    }
}

/// The fields behind the command name.
fn fields(stat: &str) -> (r: Option<Vec<Vec<char>>>)
    ensures
        match r {
            Some(f) => stat_fields(stat@) == Some(pieces(f@)),
            None => stat_fields(stat@) is None,
        },
{
    let s: Vec<char> = letters(stat);
    let n: usize = s.len();
    if n < 2 {
        return None;
    }
    let mut i: usize = n - 1;
    while i > 0
        invariant
            i < n,
            n == s@.len(),
            s@ == stat@,
            forall|j: int| i <= j ==> !#[trigger] closes(s@, j),
        decreases i,
    {
        i = i - 1;
        if s[i] == ')' && s[i + 1] == ' ' {
            proof {
                assert(closes(s@, i as int));
                assert(last_close(s@, i as int));
                let k = choose|k: int| last_close(s@, k);
                assert(k == i) by {
                    if k < i {
                        assert(!closes(s@, i as int));
                    }
                    if k > i {
                        assert(!closes(s@, k));
                    }
                }
            }
            let tail: &[char] = vstd::slice::slice_subrange(s.as_slice(), i + 2, n);
            assert(tail@ =~= s@.skip(i + 2));
            return Some(words(tail));
        }
    }
    None
}

fn number_field(f: &Vec<Vec<char>>, i: usize) -> (r: Option<u64>)
    ensures
        r == field_number(pieces(f@), i as int),
{
    if i < f.len() {
        parse(&f[i])
    } else {
        None
    }
}

fn sum_fields(stat: &Option<String>, i: usize, j: usize, factor: u64) -> (r: Option<u64>)
    requires
        factor > 0,
    ensures
        r == field_sum(*stat, i as int, j as int, factor as int),
{
    let s: &String = match stat {
        Some(s) => s,
        None => return None,
    };
    let f: Vec<Vec<char>> = match fields(s.as_str()) {
        Some(f) => f,
        None => return None,
    };
    let (a, b): (u64, u64) = match (number_field(&f, i), number_field(&f, j)) {
        (Some(a), Some(b)) => (a, b),
        _ => return None,
    };
    match a.checked_add(b) {
        Some(t) => t.checked_mul(factor),
        None => {
            assert((a + b) * factor > u64::MAX) by (nonlinear_arith)
                requires
                    a + b > u64::MAX,
                    factor >= 1,
            ;
            None
        },
    }
}

/// Page faults since process start.
pub fn page_faults(raw: &Raw) -> (r: Option<u64>)
    ensures
        r == faults_of(*raw),
{
    sum_fields(&raw.stat, 7, 9, 1)
}

/// File descriptors — the Linux analogue of a Windows handle count.
pub fn handle_count(raw: &Raw) -> (r: Option<u32>)
    ensures
        r == handles_of(*raw),
{
    match raw.descriptors {
        Some(n) => Some(n as u32),
        None => None,
    }
}

fn number_of(all: &Vec<Vec<char>>, key: &str) -> (r: Option<u64>)
    ensures
        r == number_in(pieces(all@), key@),
{
    let k: Vec<char> = letters(key);
    let ghost l = pieces(all@);
    let mut i: usize = 0;
    assert(l.skip(0) =~= l);
    while i < all.len()
        invariant
            i <= all@.len(),
            l == pieces(all@),
            k@ == key@,
            number_in(l, key@) == number_in(l.skip(i as int), key@),
        decreases all@.len() - i,
    {
        assert(l[i as int] == all@[i as int]@);
        assert(l.skip(i as int)[0] == l[i as int]);
        assert(l.skip(i as int).drop_first() =~= l.skip(i + 1));
        if starts(&all[i], &k) {
            if let Some(v) = parse(&value(&all[i], &k)) {
                return Some(v);
            }
        }
        i = i + 1;
    }
    None
}

/// `(read bytes, written bytes, read ops, write ops)` since process start.
/// `syscr`/`syscw` are read/write syscall counts — the closest match to
/// operation counters.
pub fn io_counters(raw: &Raw) -> (r: Option<(u64, u64, u64, u64)>)
    ensures
        r == io_of(*raw),
{
    let s: &String = match &raw.io {
        Some(s) => s,
        None => return None,
    };
    let all: Vec<Vec<char>> = lines(s.as_str());
    match (
        number_of(&all, "read_bytes"),
        number_of(&all, "write_bytes"),
        number_of(&all, "syscr"),
        number_of(&all, "syscw"),
    ) {
        (Some(r), Some(w), Some(reads), Some(writes)) => Some((r, w, reads, writes)),
        _ => None,
    }
}

/// Kernel + user CPU time since process start, in milliseconds. Clock ticks;
/// 100 Hz is the near-universal `USER_HZ`.
pub fn cpu_time_ms(raw: &Raw) -> (r: Option<u64>)
    ensures
        r == cpu_time_of(*raw),
{
    sum_fields(&raw.stat, 11, 12, 10)
}

pub fn thread_count(raw: &Raw) -> (r: Option<u32>)
    ensures
        r == threads_of(*raw),
{
    match status_field(&raw.status, "Threads") {
        Some(v) => Some(v as u32),
        None => None,
    }
}

} // verus!
