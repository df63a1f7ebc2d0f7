use vstd::prelude::*;

verus! {

/// `String::push` appends one character to the end of the string. (It panics when the
/// string would grow beyond `isize::MAX` bytes; this contract leaves that case unsaid, as
/// vstd's contracts of `Vec::push` and `String::append` do.)
pub assume_specification[ String::push ](s: &mut String, ch: char)
    ensures
        final(s)@ == old(s)@.push(ch),
;

// ---------------------------------------------------------------------------
// Characters
// ---------------------------------------------------------------------------

/// Unicode `White_Space`: the characters that `char::is_whitespace` accepts,
/// and so those that `str::trim` and `str::split_whitespace` treat as blank.
pub open spec fn is_space(c: char) -> bool {
    let u = c as u32;
    ||| 0x09 <= u <= 0x0D
    ||| u == 0x20
    ||| u == 0x85
    ||| u == 0xA0
    ||| u == 0x1680
    ||| 0x2000 <= u <= 0x200A
    ||| u == 0x2028
    ||| u == 0x2029
    ||| u == 0x202F
    ||| u == 0x205F
    ||| u == 0x3000
}

/// An ASCII decimal digit.
pub open spec fn is_digit(c: char) -> bool {
    0x30 <= (c as u32) <= 0x39
}

/// The value of an ASCII decimal digit.
pub open spec fn digit_value(c: char) -> nat {
    ((c as u32) - 0x30) as nat
}

/// Whether `c` is blank in the sense of `char::is_whitespace`.
pub fn is_space_char(c: char) -> (r: bool)
    ensures
        r == is_space(c),
{
    let u = c as u32;
    (0x09 <= u && u <= 0x0D) || u == 0x20 || u == 0x85 || u == 0xA0 || u == 0x1680 || (0x2000
        <= u && u <= 0x200A) || u == 0x2028 || u == 0x2029 || u == 0x202F || u == 0x205F || u
        == 0x3000
}

/// The characters of a string slice, one by one.
pub fn char_vec(s: &str) -> (v: Vec<char>)
    ensures
        v@ == s@,
{
    let mut v: Vec<char> = Vec::new();
    for c in it: s.chars()
        invariant
            v@ == it.seq().take(it.index() as int),
    {
        v.push(c);
    }
    v
}

// ---------------------------------------------------------------------------
// Unsigned decimal numbers, as `str::parse::<u8>` and `str::parse::<u32>` read them
// ---------------------------------------------------------------------------

/// Every character of `d` is a decimal digit.
pub open spec fn all_digits(d: Seq<char>) -> bool {
    forall|i: int| 0 <= i < d.len() ==> is_digit(#[trigger] d[i])
}

/// The number that a string of decimal digits denotes.
pub open spec fn digits_value(d: Seq<char>) -> nat
    decreases d.len(),
{
    if d.len() == 0 {
        0
    } else {
        digits_value(d.drop_last()) * 10 + digit_value(d.last())
    }
}

/// The digits that `from_str` of an unsigned type reads: one leading `+` is dropped.
pub open spec fn unsigned_digits(s: Seq<char>) -> Seq<char> {
    if s.len() > 0 && s[0] == '+' {
        s.drop_first()
    } else {
        s
    }
}

/// What `from_str` of an unsigned integer type whose greatest value is `max` gives for `s`:
/// an optional `+`, then at least one decimal digit, and a value that fits.
pub open spec fn parse_unsigned(s: Seq<char>, max: nat) -> Option<nat> {
    let d = unsigned_digits(s);
    if d.len() > 0 && all_digits(d) && digits_value(d) <= max {
        Some(digits_value(d))
    } else {
        None
    }
}

/// A longer run of digits never denotes less than its prefix.
proof fn lemma_digits_value_prefix(d: Seq<char>, k: int)
    requires
        0 <= k <= d.len(),
        all_digits(d),
    ensures
        digits_value(d.take(k)) <= digits_value(d),
    decreases d.len(),
{
    if k < d.len() {
        let e = d.drop_last();
        assert(all_digits(e)) by {
            assert forall|i: int| 0 <= i < e.len() implies is_digit(#[trigger] e[i]) by {
                assert(e[i] == d[i]);
            }
        }
        lemma_digits_value_prefix(e, k);
        assert(e.take(k) =~= d.take(k));
    } else {
        assert(d.take(k) =~= d);
    }
}

/// Reads `s[start..end]` as `from_str` of an unsigned type with greatest value `max` does.
pub fn parse_unsigned_in(s: &Vec<char>, start: usize, end: usize, max: u64) -> (r: Option<u64>)
    requires
        start <= end <= s.len(),
        max <= u32::MAX,
    ensures
        match r {
            Some(v) => parse_unsigned(s@.subrange(start as int, end as int), max as nat) == Some(
                v as nat,
            ),
            None => parse_unsigned(s@.subrange(start as int, end as int), max as nat) is None,
        },
{
    let ghost whole = s@.subrange(start as int, end as int);
    let mut first = start;
    if first < end && s[first] == '+' {
        first = first + 1;
    }
    let ghost d = s@.subrange(first as int, end as int);
    assert(unsigned_digits(whole) =~= d);
    if first == end {
        return None;
    }
    let mut i = first;
    let mut acc: u64 = 0;
    assert(s@.subrange(first as int, i as int) =~= Seq::<char>::empty());
    while i < end
        invariant
            first <= i <= end <= s.len(),
            first < end,
            max <= u32::MAX,
            d == s@.subrange(first as int, end as int),
            unsigned_digits(whole) == d,
            whole == s@.subrange(start as int, end as int),
            all_digits(s@.subrange(first as int, i as int)),
            acc == digits_value(s@.subrange(first as int, i as int)),
            acc <= max,
        decreases end - i,
    {
        let c = s[i];
        let u = c as u32;
        if !(0x30 <= u && u <= 0x39) {
            assert(d[i - first] == c);
            assert(!is_digit(d[i - first]));
            return None;
        }
        let ghost before = s@.subrange(first as int, i as int);
        let ghost after = s@.subrange(first as int, i + 1);
        assert(after.drop_last() =~= before);
        assert(after.last() == c);
        acc = acc * 10 + (u - 0x30) as u64;
        assert(all_digits(after)) by {
            assert forall|j: int| 0 <= j < after.len() implies is_digit(#[trigger] after[j]) by {
                if j < before.len() {
                    assert(after[j] == before[j]);
                }
            }
        }
        if acc > max {
            proof {
                if all_digits(d) {
                    assert(d.take(i + 1 - first) =~= after);
                    lemma_digits_value_prefix(d, i + 1 - first);
                }
            }
            return None;
        }
        i = i + 1;
    }
    assert(s@.subrange(first as int, i as int) =~= d);
    Some(acc)
}


// ---------------------------------------------------------------------------
// Pieces of a character sequence, held as index ranges into it
// ---------------------------------------------------------------------------

/// The ranges `r` pick out the pieces `pieces` of `s`, each within `lo..hi`.
pub open spec fn ranges_denote(
    s: Seq<char>,
    r: Seq<(usize, usize)>,
    pieces: Seq<Seq<char>>,
    lo: int,
    hi: int,
) -> bool {
    &&& r.len() == pieces.len()
    &&& forall|k: int|
        0 <= k < r.len() ==> {
            &&& lo <= (#[trigger] r[k]).0 <= r[k].1 <= hi
            &&& s.subrange(r[k].0 as int, r[k].1 as int) == pieces[k]
        }
}

/// The pieces between occurrences of `sep`, as `str::split` with a character gives them:
/// there is always one piece more than there are separators, empty ones included.
pub open spec fn split_on(s: Seq<char>, sep: char) -> Seq<Seq<char>>
    decreases s.len(),
{
    if s.len() == 0 {
        seq![Seq::empty()]
    } else {
        let r = split_on(s.drop_last(), sep);
        if s.last() == sep {
            r.push(Seq::empty())
        } else {
            r.update(r.len() - 1, r.last().push(s.last()))
        }
    }
}

/// There is at least one piece.
pub proof fn lemma_split_on_nonempty(s: Seq<char>, sep: char)
    ensures
        split_on(s, sep).len() >= 1,
    decreases s.len(),
{
    if s.len() > 0 {
        lemma_split_on_nonempty(s.drop_last(), sep);
    }
}

/// A text without `sep` is a single piece.
pub proof fn lemma_split_on_without_sep(s: Seq<char>, sep: char)
    requires
        !s.contains(sep),
    ensures
        split_on(s, sep) == seq![s],
    decreases s.len(),
{
    if s.len() > 0 {
        let t = s.drop_last();
        assert(!t.contains(sep)) by {
            if t.contains(sep) {
                let i = choose|i: int| 0 <= i < t.len() && t[i] == sep;
                assert(s[i] == sep);
            }
        }
        lemma_split_on_without_sep(t, sep);
        assert(s[s.len() - 1] == s.last());
        assert(t.push(s.last()) =~= s);
        assert(seq![t].update(0, t.push(s.last())) =~= seq![s]);
    } else {
        assert(s =~= Seq::<char>::empty());
    }
}

/// `s[start..end]` split at every `sep`.
pub fn split_ranges(s: &Vec<char>, start: usize, end: usize, sep: char) -> (r: Vec<(usize, usize)>)
    requires
        start <= end <= s.len(),
    ensures
        ranges_denote(
            s@,
            r@,
            split_on(s@.subrange(start as int, end as int), sep),
            start as int,
            end as int,
        ),
{
    let mut out: Vec<(usize, usize)> = Vec::new();
    let mut seg = start;
    let mut i = start;
    assert(s@.subrange(start as int, start as int) =~= Seq::<char>::empty());
    while i < end
        invariant
            start <= seg <= i <= end <= s.len(),
            ranges_denote(
                s@,
                out@,
                split_on(s@.subrange(start as int, i as int), sep).drop_last(),
                start as int,
                i as int,
            ),
            split_on(s@.subrange(start as int, i as int), sep).len() >= 1,
            split_on(s@.subrange(start as int, i as int), sep).last() == s@.subrange(
                seg as int,
                i as int,
            ),
        decreases end - i,
    {
        let ghost sub = s@.subrange(start as int, i + 1);
        let ghost prev = split_on(s@.subrange(start as int, i as int), sep);
        assert(sub.drop_last() =~= s@.subrange(start as int, i as int));
        assert(sub.last() == s@[i as int]);
        let c = s[i];
        if c == sep {
            out.push((seg, i));
            seg = i + 1;
            assert(split_on(sub, sep) == prev.push(Seq::empty()));
            assert(split_on(sub, sep).drop_last() =~= prev);
            assert(prev =~= prev.drop_last().push(prev.last()));
            assert(s@.subrange(seg as int, i + 1) =~= Seq::<char>::empty());
        } else {
            assert(split_on(sub, sep) == prev.update(prev.len() - 1, prev.last().push(c)));
            assert(split_on(sub, sep).drop_last() =~= prev.drop_last());
            assert(s@.subrange(seg as int, i + 1) =~= s@.subrange(seg as int, i as int).push(c));
        }
        i = i + 1;
    }
    out.push((seg, end));
    proof {
        let all = split_on(s@.subrange(start as int, end as int), sep);
        assert(all =~= all.drop_last().push(all.last()));
    }
    out
}

/// Drops one `\r` that ends a line.
pub open spec fn strip_cr(l: Seq<char>) -> Seq<char> {
    if l.len() > 0 && l.last() == '\r' {
        l.drop_last()
    } else {
        l
    }
}

/// The lines of `s` as `str::lines` gives them: split at `\n`, a `\r` before a `\n` dropped,
/// and no empty last line after a final `\n` (nor any line at all in an empty text).
pub open spec fn lines(s: Seq<char>) -> Seq<Seq<char>> {
    let segs = split_on(s, '\n');
    let n = if segs.last().len() == 0 {
        segs.len() - 1
    } else {
        segs.len() as int
    };
    Seq::new(
        n as nat,
        |k: int|
            if k < segs.len() - 1 {
                strip_cr(segs[k])
            } else {
                segs[k]
            },
    )
}

/// A line without a line break, followed by one, is read back as that one line, unless it
/// ends in a carriage return.
pub proof fn lemma_single_line(l: Seq<char>)
    requires
        !l.contains('\n'),
        l.len() == 0 || l.last() != '\r',
    ensures
        lines(l.push('\n')) == seq![l],
{
    let t = l.push('\n');
    lemma_split_on_without_sep(l, '\n');
    assert(t.drop_last() =~= l);
    let segs = split_on(t, '\n');
    assert(segs == seq![l].push(Seq::<char>::empty()));
    assert(strip_cr(l) == l);
    assert(lines(t) =~= seq![l]);
}

/// The lines of `s[start..end]`.
pub fn line_ranges(s: &Vec<char>, start: usize, end: usize) -> (r: Vec<(usize, usize)>)
    requires
        start <= end <= s.len(),
    ensures
        ranges_denote(
            s@,
            r@,
            lines(s@.subrange(start as int, end as int)),
            start as int,
            end as int,
        ),
{
    let ghost text = s@.subrange(start as int, end as int);
    let segs = split_ranges(s, start, end, '\n');
    proof {
        lemma_split_on_nonempty(text, '\n');
    }
    let ghost pieces = split_on(text, '\n');
    let last = segs[segs.len() - 1];
    let n = if last.0 == last.1 {
        segs.len() - 1
    } else {
        segs.len()
    };
    let mut out: Vec<(usize, usize)> = Vec::new();
    let mut k: usize = 0;
    while k < n
        invariant
            n <= segs.len(),
            segs.len() == pieces.len(),
            pieces == split_on(text, '\n'),
            text == s@.subrange(start as int, end as int),
            start <= end <= s.len(),
            ranges_denote(s@, segs@, pieces, start as int, end as int),
            ranges_denote(s@, out@, lines(text).take(k as int), start as int, end as int),
            lines(text).len() == n,
            k <= n,
        decreases n - k,
    {
        let (a, b) = segs[k];
        assert(s@.subrange(a as int, b as int) == pieces[k as int]);
        if k + 1 < segs.len() && a < b && s[b - 1] == '\r' {
            assert(s@.subrange(a as int, b - 1) =~= s@.subrange(a as int, b as int).drop_last());
            out.push((a, b - 1));
        } else {
            out.push((a, b));
        }
        proof {
            let ls = lines(text);
            assert(out@.len() == k + 1);
            assert forall|j: int| 0 <= j < k + 1 implies {
                &&& start <= (#[trigger] out@[j]).0 <= out@[j].1 <= end
                &&& s@.subrange(out@[j].0 as int, out@[j].1 as int) == ls.take(k + 1)[j]
            } by {
                if j < k {
                    assert(ls.take(k as int)[j] == ls.take(k + 1)[j]);
                }
            }
        }
        k = k + 1;
    }
    assert(lines(text).take(n as int) =~= lines(text));
    out
}

/// The blank-separated words of `s`, as `str::split_whitespace` gives them.
pub open spec fn words(s: Seq<char>) -> Seq<Seq<char>>
    decreases s.len(),
{
    if s.len() == 0 {
        seq![]
    } else {
        let r = words(s.drop_last());
        let c = s.last();
        if is_space(c) {
            r
        } else if s.len() >= 2 && !is_space(s[s.len() - 2]) {
            r.update(r.len() - 1, r.last().push(c))
        } else {
            r.push(seq![c])
        }
    }
}

/// The words of `s[start..end]`.
pub fn word_ranges(s: &Vec<char>, start: usize, end: usize) -> (r: Vec<(usize, usize)>)
    requires
        start <= end <= s.len(),
    ensures
        ranges_denote(
            s@,
            r@,
            words(s@.subrange(start as int, end as int)),
            start as int,
            end as int,
        ),
{
    let mut out: Vec<(usize, usize)> = Vec::new();
    let mut i = start;
    assert(s@.subrange(start as int, start as int) =~= Seq::<char>::empty());
    while i < end
        invariant
            start <= i <= end <= s.len(),
            ranges_denote(
                s@,
                out@,
                words(s@.subrange(start as int, i as int)),
                start as int,
                i as int,
            ),
            (start < i && !is_space(s@[i - 1])) ==> (out@.len() > 0 && out@.last().1 == i),
        decreases end - i,
    {
        let ghost sub = s@.subrange(start as int, i + 1);
        let ghost prev = words(s@.subrange(start as int, i as int));
        assert(sub.drop_last() =~= s@.subrange(start as int, i as int));
        assert(sub.last() == s@[i as int]);
        let c = s[i];
        if is_space_char(c) {
            assert(words(sub) == prev);
        } else if i > start && !is_space_char(s[i - 1]) {
            assert(sub[sub.len() - 2] == s@[i - 1]);
            let last = out.len() - 1;
            let (a, b) = out[last];
            assert(s@.subrange(a as int, i + 1) =~= s@.subrange(a as int, b as int).push(c));
            out.set(last, (a, i + 1));
            assert(words(sub) == prev.update(prev.len() - 1, prev.last().push(c)));
        } else {
            out.push((i, i + 1));
            assert(s@.subrange(i as int, i + 1) =~= seq![c]);
            assert(words(sub) == prev.push(seq![c]));
        }
        i = i + 1;
    }
    out
}

// ---------------------------------------------------------------------------
// Trimming and searching
// ---------------------------------------------------------------------------

/// `s` without its leading blanks.
pub open spec fn trim_start(s: Seq<char>) -> Seq<char>
    decreases s.len(),
{
    if s.len() > 0 && is_space(s[0]) {
        trim_start(s.drop_first())
    } else {
        s
    }
}

/// `s` without its trailing blanks.
pub open spec fn trim_end(s: Seq<char>) -> Seq<char>
    decreases s.len(),
{
    if s.len() > 0 && is_space(s.last()) {
        trim_end(s.drop_last())
    } else {
        s
    }
}

/// `s` without leading and trailing blanks, as `str::trim` gives it.
pub open spec fn trim(s: Seq<char>) -> Seq<char> {
    trim_end(trim_start(s))
}

/// A text that begins and ends with a digit is its own trimmed form.
pub proof fn lemma_trim_digits(d: Seq<char>)
    requires
        d.len() > 0,
        all_digits(d),
    ensures
        trim(d) == d,
{
    assert(is_digit(d[0]) && is_digit(d[d.len() - 1]));
    assert(!is_space(d[0]));
    assert(trim_start(d) == d);
    assert(!is_space(d.last()));
}

proof fn lemma_trim_start(s: Seq<char>, start: int, a: int, end: int)
    requires
        0 <= start <= a <= end <= s.len(),
        forall|m: int| start <= m < a ==> is_space(#[trigger] s[m]),
        a == end || !is_space(s[a]),
    ensures
        trim_start(s.subrange(start, end)) == s.subrange(a, end),
    decreases a - start,
{
    if start < a {
        assert(s.subrange(start, end).drop_first() =~= s.subrange(start + 1, end));
        assert(s.subrange(start, end)[0] == s[start]);
        lemma_trim_start(s, start + 1, a, end);
    }
}

proof fn lemma_trim_end(s: Seq<char>, a: int, b: int, end: int)
    requires
        0 <= a <= b <= end <= s.len(),
        forall|m: int| b <= m < end ==> is_space(#[trigger] s[m]),
        b == a || !is_space(s[b - 1]),
    ensures
        trim_end(s.subrange(a, end)) == s.subrange(a, b),
    decreases end - b,
{
    if b < end {
        assert(s.subrange(a, end).drop_last() =~= s.subrange(a, end - 1));
        assert(s.subrange(a, end).last() == s[end - 1]);
        lemma_trim_end(s, a, b, end - 1);
    }
}

/// The range of `s[start..end]` that is left after trimming.
pub fn trim_range(s: &Vec<char>, start: usize, end: usize) -> (r: (usize, usize))
    requires
        start <= end <= s.len(),
    ensures
        start <= r.0 <= r.1 <= end,
        s@.subrange(r.0 as int, r.1 as int) == trim(s@.subrange(start as int, end as int)),
{
    let mut a = start;
    while a < end && is_space_char(s[a])
        invariant
            start <= a <= end <= s.len(),
            forall|m: int| start <= m < a ==> is_space(#[trigger] s@[m]),
        decreases end - a,
    {
        a = a + 1;
    }
    let mut b = end;
    while b > a && is_space_char(s[b - 1])
        invariant
            start <= a <= b <= end <= s.len(),
            forall|m: int| b <= m < end ==> is_space(#[trigger] s@[m]),
        decreases b - a,
    {
        b = b - 1;
    }
    proof {
        lemma_trim_start(s@, start as int, a as int, end as int);
        lemma_trim_end(s@, a as int, b as int, end as int);
    }
    (a, b)
}

/// The first place at or after `i` where the non-empty pattern `p` occurs in `s`.
pub open spec fn find_from(s: Seq<char>, p: Seq<char>, i: int) -> Option<int>
    decreases s.len() - i,
{
    if i < 0 || p.len() == 0 || i + p.len() > s.len() {
        None
    } else if s.subrange(i, i + p.len()) == p {
        Some(i)
    } else {
        find_from(s, p, i + 1)
    }
}

/// The first place where the non-empty pattern `p` occurs in `s`, as `str::find` gives it.
pub open spec fn find(s: Seq<char>, p: Seq<char>) -> Option<int> {
    find_from(s, p, 0)
}

/// When `find_from` finds nothing from `i` on, `p` occurs nowhere at or after `i`.
pub proof fn lemma_find_from_none(s: Seq<char>, p: Seq<char>, i: int, j: int)
    requires
        p.len() > 0,
        0 <= i <= j,
        j + p.len() <= s.len(),
        find_from(s, p, i) is None,
    ensures
        s.subrange(j, j + p.len()) != p,
    decreases j - i,
{
    if i < j {
        lemma_find_from_none(s, p, i + 1, j);
    }
}

/// When `p` occurs nowhere at or after `i`, `find_from` finds nothing.
pub proof fn lemma_find_nowhere(s: Seq<char>, p: Seq<char>, i: int)
    requires
        forall|j: int| i <= j && j + p.len() <= s.len() ==> #[trigger] s.subrange(j, j + p.len()) != p,
    ensures
        find_from(s, p, i) is None,
    decreases s.len() - i,
{
    if !(i < 0 || p.len() == 0 || i + p.len() > s.len()) {
        lemma_find_nowhere(s, p, i + 1);
    }
}

/// `find_from` gives the first occurrence at or after `i`.
pub proof fn lemma_find_from_first(s: Seq<char>, p: Seq<char>, i: int, k: int)
    requires
        p.len() > 0,
        0 <= i <= k,
        k + p.len() <= s.len(),
        s.subrange(k, k + p.len()) == p,
        forall|j: int| i <= j < k ==> #[trigger] s.subrange(j, j + p.len()) != p,
    ensures
        find_from(s, p, i) == Some(k),
    decreases k - i,
{
    if i < k {
        lemma_find_from_first(s, p, i + 1, k);
    }
}

/// Whether `p` occurs in `s` at `i`.
fn occurs_at(s: &Vec<char>, i: usize, p: &Vec<char>) -> (r: bool)
    requires
        i + p.len() <= s.len(),
    ensures
        r == (s@.subrange(i as int, i + p.len()) == p@),
{
    let mut k: usize = 0;
    while k < p.len()
        invariant
            k <= p.len(),
            i + p.len() <= s.len(),
            forall|m: int| 0 <= m < k ==> s@[i + m] == p@[m],
        decreases p.len() - k,
    {
        if s[i + k] != p[k] {
            assert(s@.subrange(i as int, i + p.len())[k as int] != p@[k as int]);
            return false;
        }
        k = k + 1;
    }
    assert(s@.subrange(i as int, i + p.len()) =~= p@);
    true
}

/// Where the non-empty pattern `p` first occurs in `s[start..end]`, counted from `start`.
pub fn find_in(s: &Vec<char>, start: usize, end: usize, p: &Vec<char>) -> (r: Option<usize>)
    requires
        start <= end <= s.len(),
        p.len() > 0,
    ensures
        match r {
            Some(k) => find(s@.subrange(start as int, end as int), p@) == Some(k - start)
                && start <= k && k + p.len() <= end,
            None => find(s@.subrange(start as int, end as int), p@) is None,
        },
{
    let ghost text = s@.subrange(start as int, end as int);
    let mut i = start;
    while p.len() <= end - i
        invariant
            start <= i <= end,
            start <= end <= s.len(),
            p.len() > 0,
            text == s@.subrange(start as int, end as int),
            find(text, p@) == find_from(text, p@, i - start),
        decreases end - i,
    {
        assert(text.subrange(i - start, i - start + p.len()) =~= s@.subrange(
            i as int,
            i + p.len(),
        ));
        if occurs_at(s, i, p) {
            return Some(i);
        }
        i = i + 1;
    }
    None
}

// ---------------------------------------------------------------------------
// Joining and number formatting
// ---------------------------------------------------------------------------

/// The pieces one after the other, with `sep` between each two, as `[String]::join` gives them.
pub open spec fn join(parts: Seq<Seq<char>>, sep: Seq<char>) -> Seq<char>
    decreases parts.len(),
{
    if parts.len() == 0 {
        Seq::empty()
    } else if parts.len() == 1 {
        parts[0]
    } else {
        join(parts.drop_last(), sep) + sep + parts.last()
    }
}

/// Joins the strings with `sep` between each two.
pub fn join_strings(parts: &Vec<String>, sep: &str) -> (r: String)
    ensures
        r@ == join(parts.deep_view(), sep@),
{
    let mut out = String::new();
    let mut k: usize = 0;
    while k < parts.len()
        invariant
            k <= parts.len(),
            out@ == join(parts.deep_view().take(k as int), sep@),
        decreases parts.len() - k,
    {
        let ghost before = parts.deep_view().take(k as int);
        let ghost after = parts.deep_view().take(k + 1);
        assert(after.drop_last() =~= before);
        assert(after.last() == parts[k as int]@);
        if k > 0 {
            out.append(sep);
        } else {
            assert(before =~= Seq::<Seq<char>>::empty());
            assert(out@ =~= Seq::<char>::empty());
        }
        out.append(parts[k].as_str());
        if k == 0 {
            assert(out@ =~= after[0]);
        }
        k = k + 1;
    }
    assert(parts.deep_view().take(parts.len() as int) =~= parts.deep_view());
    out
}

/// The character of a decimal digit.
pub open spec fn digit_char(d: nat) -> char {
    (d + 0x30) as char
}

/// The decimal numeral of `n`, without leading zeros, as `to_string` writes it.
pub open spec fn decimal(n: nat) -> Seq<char>
    decreases n,
{
    if n < 10 {
        seq![digit_char(n)]
    } else {
        decimal(n / 10).push(digit_char(n % 10))
    }
}

/// The character of a hexadecimal digit, upper case.
pub open spec fn hex_char(d: nat) -> char {
    if d < 10 {
        (d + 0x30) as char
    } else {
        (d - 10 + 0x41) as char
    }
}

/// The last `width` hexadecimal digits of `n`, upper case, zeros in front.
pub open spec fn hex_fixed(n: nat, width: nat) -> Seq<char>
    decreases width,
{
    if width == 0 {
        Seq::empty()
    } else {
        hex_fixed(n / 16, (width - 1) as nat).push(hex_char(n % 16))
    }
}

const DIGITS: [char; 16] = ['0', '1', '2', '3', '4', '5', '6', '7', '8', '9', 'A', 'B', 'C', 'D', 'E', 'F'];

/// The character of a hexadecimal digit below 16 (a decimal one below 10).
fn digit_of(d: u64) -> (c: char)
    requires
        d < 16,
    ensures
        c == hex_char(d as nat),
        d < 10 ==> c == digit_char(d as nat),
{
    DIGITS[d as usize]
}

/// Appends the decimal numeral of `n`.
pub fn push_decimal(s: &mut String, n: u64)
    ensures
        final(s)@ == old(s)@ + decimal(n as nat),
    decreases n,
{
    if n >= 10 {
        push_decimal(s, n / 10);
    }
    let c = digit_of(n % 10);
    s.push(c);
}

/// Appends the last `width` hexadecimal digits of `n`, upper case.
pub fn push_hex_fixed(s: &mut String, n: u64, width: u64)
    ensures
        final(s)@ == old(s)@ + hex_fixed(n as nat, width as nat),
    decreases width,
{
    if width > 0 {
        push_hex_fixed(s, n / 16, width - 1);
        let c = digit_of(n % 16);
        s.push(c);
    }
}


/// The decimal numeral of `n` is a non-empty run of digits that denotes `n`.
pub proof fn lemma_decimal_digits(n: nat)
    ensures
        decimal(n).len() > 0,
        all_digits(decimal(n)),
        digits_value(decimal(n)) == n,
    decreases n,
{
    let c = digit_char(n % 10);
    assert(c as u32 == n % 10 + 0x30);
    assert(digit_value(c) == n % 10);
    let d = decimal(n);
    if n < 10 {
        assert(d.drop_last() =~= Seq::<char>::empty());
        assert(d.last() == c);
        assert(digits_value(d.drop_last()) == 0);
        assert(digits_value(d) == digits_value(d.drop_last()) * 10 + digit_value(d.last()));
    } else {
        lemma_decimal_digits(n / 10);
        let e = decimal(n / 10);
        assert(d.drop_last() =~= e);
        assert(d.last() == c);
        assert((n / 10) * 10 + n % 10 == n);
        assert(digits_value(d) == digits_value(d.drop_last()) * 10 + digit_value(d.last()));
        assert forall|i: int| 0 <= i < d.len() implies is_digit(#[trigger] d[i]) by {
            if i < e.len() {
                assert(d[i] == e[i]);
            }
        }
    }
}

/// The decimal numeral of `n` reads back as `n` wherever `n` fits.
pub proof fn lemma_parse_decimal(n: nat, max: nat)
    requires
        n <= max,
    ensures
        parse_unsigned(decimal(n), max) == Some(n),
{
    lemma_decimal_digits(n);
    assert(is_digit(decimal(n)[0]));
}

// ---------------------------------------------------------------------------
// Small string helpers
// ---------------------------------------------------------------------------

/// An owned copy of a string slice.
pub fn owned(s: &str) -> (r: String)
    ensures
        r@ == s@,
{
    let mut r = String::new();
    r.append(s);
    r
}

/// Whether two string slices hold the same characters.
pub fn str_eq(a: &str, b: &str) -> (r: bool)
    ensures
        r == (a@ == b@),
{
    let x = char_vec(a);
    let y = char_vec(b);
    if x.len() != y.len() {
        return false;
    }
    let mut k: usize = 0;
    while k < x.len()
        invariant
            x@ == a@,
            y@ == b@,
            x.len() == y.len(),
            k <= x.len(),
            forall|m: int| 0 <= m < k ==> x@[m] == y@[m],
        decreases x.len() - k,
    {
        if x[k] != y[k] {
            return false;
        }
        k = k + 1;
    }
    assert(x@ =~= y@);
    true
}

/// A copy of a list of strings.
pub fn copy_strings(v: &Vec<String>) -> (r: Vec<String>)
    ensures
        r.deep_view() == v.deep_view(),
{
    let mut r: Vec<String> = Vec::new();
    let mut k: usize = 0;
    while k < v.len()
        invariant
            k <= v.len(),
            r.deep_view() == v.deep_view().take(k as int),
        decreases v.len() - k,
    {
        let c = v[k].clone();
        let ghost prev = r.deep_view();
        r.push(c);
        assert(r.deep_view() =~= prev.push(v[k as int]@));
        assert(r.deep_view() =~= v.deep_view().take(k + 1));
        k = k + 1;
    }
    assert(v.deep_view().take(v.len() as int) =~= v.deep_view());
    r
}

/// The string `s[start..end]` of a character vector.
pub fn string_of_range(s: &Vec<char>, start: usize, end: usize) -> (r: String)
    requires
        start <= end <= s.len(),
    ensures
        r@ == s@.subrange(start as int, end as int),
{
    let mut r = String::new();
    let mut k = start;
    while k < end
        invariant
            start <= k <= end <= s.len(),
            r@ == s@.subrange(start as int, k as int),
        decreases end - k,
    {
        r.push(s[k]);
        assert(r@ =~= s@.subrange(start as int, k + 1));
        k = k + 1;
    }
    r
}

/// Appends an owned copy of `s` to a list of strings.
pub fn push_owned(v: &mut Vec<String>, s: &str)
    ensures
        final(v).deep_view() == old(v).deep_view().push(s@),
{
    let ghost prev = v.deep_view();
    v.push(owned(s));
    assert(v.deep_view() =~= prev.push(s@));
}

/// Appends a string to a list of strings.
pub fn push_string(v: &mut Vec<String>, s: String)
    ensures
        final(v).deep_view() == old(v).deep_view().push(s@),
{
    let ghost prev = v.deep_view();
    let ghost sv = s@;
    v.push(s);
    assert(v.deep_view() =~= prev.push(sv));
}

/// Appends copies of all the strings of `w` to `v`.
pub fn extend_strings(v: &mut Vec<String>, w: &Vec<String>)
    ensures
        final(v).deep_view() == old(v).deep_view() + w.deep_view(),
{
    let ghost start = v.deep_view();
    let mut k: usize = 0;
    while k < w.len()
        invariant
            k <= w.len(),
            v.deep_view() == start + w.deep_view().take(k as int),
        decreases w.len() - k,
    {
        push_string(v, w[k].clone());
        assert(w.deep_view().take(k + 1) =~= w.deep_view().take(k as int).push(w[k as int]@));
        assert(v.deep_view() =~= start + w.deep_view().take(k + 1));
        k = k + 1;
    }
    assert(w.deep_view().take(w.len() as int) =~= w.deep_view());
}

} // verus!
