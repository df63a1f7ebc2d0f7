use vstd::prelude::*;

use crate::error::BlockcheckError;
use crate::text::{
    all_digits, char_vec, digits_value, is_digit, find, find_in, line_ranges, lines, owned, parse_unsigned,
    parse_unsigned_in, ranges_denote, split_on, split_ranges, string_of_range, unsigned_digits,
    word_ranges, words,
};

verus! {

/// A dotted-quad IPv4 address: exactly four dot-separated parts, each a number that `u8`
/// parses (an optional `+`, then digits, at most 255).
pub open spec fn is_ipv4_text(s: Seq<char>) -> bool {
    let parts = split_on(s, '.');
    &&& parts.len() == 4
    &&& forall|i: int| 0 <= i < 4 ==> (#[trigger] parts[i]).len() > 0 && parse_unsigned(parts[i], 255) is Some
}

/// Whether `chars[start..end]` is an IPv4 address.
fn is_ipv4_in(chars: &Vec<char>, start: usize, end: usize) -> (r: bool)
    requires
        start <= end <= chars.len(),
    ensures
        r == is_ipv4_text(chars@.subrange(start as int, end as int)),
{
    let ghost text = chars@.subrange(start as int, end as int);
    let parts = split_ranges(chars, start, end, '.');
    if parts.len() != 4 {
        return false;
    }
    let mut k: usize = 0;
    while k < 4
        invariant
            k <= 4,
            parts.len() == 4,
            start <= end <= chars.len(),
            text == chars@.subrange(start as int, end as int),
            ranges_denote(chars@, parts@, split_on(text, '.'), start as int, end as int),
            forall|i: int|
                0 <= i < k ==> (#[trigger] split_on(text, '.')[i]).len() > 0 && parse_unsigned(
                    split_on(text, '.')[i],
                    255,
                ) is Some,
        decreases 4 - k,
    {
        let (a, b) = parts[k];
        assert(chars@.subrange(a as int, b as int) == split_on(text, '.')[k as int]);
        if a == b {
            return false;
        }
        if parse_unsigned_in(chars, a, b, 255).is_none() {
            return false;
        }
        k = k + 1;
    }
    true
}

/// An IPv4 address is exactly four dot-separated parts, each an optional `+` and then
/// decimal digits that denote at most 255: every part of an address has such a value, and
/// four such parts make an address; a part above 255, in any place, makes none.
pub proof fn lemma_ipv4_octets(s: Seq<char>)
    ensures
        is_ipv4_text(s) ==> split_on(s, '.').len() == 4,
        forall|i: int|
            0 <= i < 4 && is_ipv4_text(s) ==> unsigned_digits(#[trigger] split_on(s, '.')[i]).len() > 0
                && all_digits(unsigned_digits(split_on(s, '.')[i])) && digits_value(
                unsigned_digits(split_on(s, '.')[i]),
            ) <= 255,
        (split_on(s, '.').len() == 4 && forall|i: int|
            0 <= i < 4 ==> unsigned_digits(#[trigger] split_on(s, '.')[i]).len() > 0 && all_digits(
                unsigned_digits(split_on(s, '.')[i]),
            ) && digits_value(unsigned_digits(split_on(s, '.')[i])) <= 255) ==> is_ipv4_text(s),
        forall|i: int|
            0 <= i < split_on(s, '.').len() && all_digits(#[trigger] split_on(s, '.')[i]) && digits_value(
                split_on(s, '.')[i],
            ) > 255 ==> !is_ipv4_text(s),
{
    let parts = split_on(s, '.');
    assert forall|i: int|
        0 <= i < parts.len() && all_digits(#[trigger] parts[i]) && digits_value(parts[i]) > 255
            implies !is_ipv4_text(s) by {
        if is_ipv4_text(s) {
            if parts[i].len() > 0 {
                assert(is_digit(parts[i][0]));
            }
            assert(unsigned_digits(parts[i]) == parts[i]);
        }
    }
}

/// Whether `s` is an IPv4 address in dotted-quad form.
pub fn is_ipv4(s: &str) -> (r: bool)
    ensures
        r == is_ipv4_text(s@),
{
    let chars = char_vec(s);
    assert(chars@.subrange(0, chars@.len() as int) =~= chars@);
    is_ipv4_in(&chars, 0, chars.len())
}

/// The texts that index ranges pick out of `chars`.
pub open spec fn texts(chars: Seq<char>, rs: Seq<(usize, usize)>) -> Seq<Seq<char>> {
    Seq::new(rs.len(), |i: int| chars.subrange(rs[i].0 as int, rs[i].1 as int))
}

/// All the ranges lie within `chars`.
pub open spec fn ranges_within(chars: Seq<char>, rs: Seq<(usize, usize)>) -> bool {
    forall|i: int| 0 <= i < rs.len() ==> (#[trigger] rs[i]).0 <= rs[i].1 <= chars.len()
}

/// Adds the text of range `w` to the distinct texts of `found`, unless it is there already.
fn add_distinct(chars: &Vec<char>, found: &mut Vec<(usize, usize)>, w: (usize, usize))
    requires
        w.0 <= w.1 <= chars.len(),
        ranges_within(chars@, old(found)@),
        texts(chars@, old(found)@).no_duplicates(),
    ensures
        ranges_within(chars@, final(found)@),
        texts(chars@, final(found)@).no_duplicates(),
        forall|x: Seq<char>|
            texts(chars@, final(found)@).contains(x) <==> (texts(chars@, old(found)@).contains(x) || x
                == chars@.subrange(w.0 as int, w.1 as int)),
{
    let ghost before = texts(chars@, found@);
    let ghost wt = chars@.subrange(w.0 as int, w.1 as int);
    let mut k: usize = 0;
    while k < found.len()
        invariant
            k <= found.len(),
            w.0 <= w.1 <= chars.len(),
            ranges_within(chars@, found@),
            before == texts(chars@, found@),
            before.no_duplicates(),
            wt == chars@.subrange(w.0 as int, w.1 as int),
            forall|m: int| 0 <= m < k ==> before[m] != wt,
        decreases found.len() - k,
    {
        let (a, b) = found[k];
        if b - a == w.1 - w.0 {
            let mut m: usize = 0;
            while m < b - a && chars[a + m] == chars[w.0 + m]
                invariant
                    a <= b <= chars.len(),
                    w.0 <= w.1 <= chars.len(),
                    b - a == w.1 - w.0,
                    m <= b - a,
                    forall|j: int| 0 <= j < m ==> #[trigger] chars@[a + j] == chars@[w.0 + j],
                decreases b - a - m,
            {
                m = m + 1;
            }
            if m == b - a {
                assert forall|j: int| 0 <= j < wt.len() implies before[k as int][j] == wt[j] by {
                    assert(chars@[a + j] == chars@[w.0 + j]);
                }
                assert(before[k as int] =~= wt);
                assert(before.contains(wt));
                return;
            } else {
                assert(before[k as int][m as int] != wt[m as int]);
            }
        } else {
            assert(before[k as int].len() != wt.len());
        }
        k = k + 1;
    }
    found.push(w);
    proof {
        let after = texts(chars@, found@);
        assert(after =~= before.push(wt));
        assert forall|x: Seq<char>| after.contains(x) <==> (before.contains(x) || x == wt) by {
            if after.contains(x) {
                let i = choose|i: int| 0 <= i < after.len() && after[i] == x;
                if i < before.len() {
                    assert(before[i] == x);
                }
            }
            if before.contains(x) {
                let i = choose|i: int| 0 <= i < before.len() && before[i] == x;
                assert(after[i] == x);
            }
            if x == wt {
                assert(after[before.len() as int] == x);
            }
        }
    }
}

/// A sequence with one more item contains what it contained, and that item.
proof fn lemma_push_contains(s: Seq<Seq<char>>, v: Seq<char>)
    ensures
        forall|x: Seq<char>| s.push(v).contains(x) <==> (s.contains(x) || x == v),
{
    assert forall|x: Seq<char>| s.push(v).contains(x) <==> (s.contains(x) || x == v) by {
        if s.push(v).contains(x) {
            let i = choose|i: int| 0 <= i < s.push(v).len() && s.push(v)[i] == x;
            if i < s.len() {
                assert(s[i] == x);
            }
        }
        if s.contains(x) {
            let i = choose|i: int| 0 <= i < s.len() && s[i] == x;
            assert(s.push(v)[i] == x);
        }
        if x == v {
            assert(s.push(v)[s.len() as int] == x);
        }
    }
}

/// The strings of the texts of the ranges.
fn strings_of(chars: &Vec<char>, rs: &Vec<(usize, usize)>) -> (r: Vec<String>)
    requires
        ranges_within(chars@, rs@),
    ensures
        r.deep_view() == texts(chars@, rs@),
{
    let mut r: Vec<String> = Vec::new();
    let mut k: usize = 0;
    while k < rs.len()
        invariant
            k <= rs.len(),
            ranges_within(chars@, rs@),
            r.deep_view() == texts(chars@, rs@).take(k as int),
        decreases rs.len() - k,
    {
        let (a, b) = rs[k];
        let s = string_of_range(chars, a, b);
        let ghost prev = r.deep_view();
        let ghost sv = s@;
        r.push(s);
        assert(r.deep_view() =~= prev.push(sv));
        assert(r.deep_view() =~= texts(chars@, rs@).take(k + 1));
        k = k + 1;
    }
    assert(texts(chars@, rs@).take(rs.len() as int) =~= texts(chars@, rs@));
    r
}

/// Of each line, its first word when that is an IPv4 address (the lines of
/// `getent ahostsv4` begin with the address).
pub open spec fn getent_candidates(ls: Seq<Seq<char>>) -> Seq<Seq<char>>
    decreases ls.len(),
{
    if ls.len() == 0 {
        Seq::empty()
    } else {
        let rest = getent_candidates(ls.drop_last());
        let w = words(ls.last());
        if w.len() > 0 && is_ipv4_text(w[0]) {
            rest.push(w[0])
        } else {
            rest
        }
    }
}

/// The words that are IPv4 addresses.
pub open spec fn ipv4_words(ws: Seq<Seq<char>>) -> Seq<Seq<char>>
    decreases ws.len(),
{
    if ws.len() == 0 {
        Seq::empty()
    } else if is_ipv4_text(ws.last()) {
        ipv4_words(ws.drop_last()).push(ws.last())
    } else {
        ipv4_words(ws.drop_last())
    }
}

/// The IPv4 words are exactly the words that are IPv4 addresses: none is made up and none
/// is left out.
pub proof fn lemma_ipv4_words_are_the_addresses(ws: Seq<Seq<char>>)
    ensures
        forall|x: Seq<char>| #[trigger] ipv4_words(ws).contains(x) <==> ws.contains(x) && is_ipv4_text(x),
    decreases ws.len(),
{
    if ws.len() > 0 {
        let init = ws.drop_last();
        lemma_ipv4_words_are_the_addresses(init);
        lemma_push_contains(ipv4_words(init), ws.last());
        assert(init.push(ws.last()) =~= ws);
        lemma_push_contains(init, ws.last());
        assert forall|x: Seq<char>| #[trigger] ipv4_words(ws).contains(x) <==> ws.contains(x) && is_ipv4_text(x) by {
            assert(ipv4_words(init).contains(x) <==> init.contains(x) && is_ipv4_text(x));
            assert(init.push(ws.last()).contains(x) <==> init.contains(x) || x == ws.last());
            if is_ipv4_text(ws.last()) {
                assert(ipv4_words(ws) == ipv4_words(init).push(ws.last()));
                assert(ipv4_words(init).push(ws.last()).contains(x) <==> ipv4_words(init).contains(x) || x
                    == ws.last());
            } else {
                assert(ipv4_words(ws) == ipv4_words(init));
            }
        }
    }
}

/// The getent candidates are exactly the IPv4 addresses that begin a line: none is made up
/// and none is left out.
pub proof fn lemma_getent_candidates_begin_lines(ls: Seq<Seq<char>>)
    ensures
        forall|x: Seq<char>|
            #[trigger] getent_candidates(ls).contains(x) <==> is_ipv4_text(x) && exists|k: int|
                0 <= k < ls.len() && words(#[trigger] ls[k]).len() > 0 && words(ls[k])[0] == x,
    decreases ls.len(),
{
    if ls.len() > 0 {
        let init = ls.drop_last();
        let last = ls.len() - 1;
        lemma_getent_candidates_begin_lines(init);
        let w = words(ls.last());
        if w.len() > 0 {
            lemma_push_contains(getent_candidates(init), w[0]);
        }
        assert forall|x: Seq<char>|
            #[trigger] getent_candidates(ls).contains(x) <==> is_ipv4_text(x) && exists|k: int|
                0 <= k < ls.len() && words(#[trigger] ls[k]).len() > 0 && words(ls[k])[0] == x by {
            if exists|k: int| 0 <= k < ls.len() && words(#[trigger] ls[k]).len() > 0 && words(ls[k])[0] == x {
                let k = choose|k: int| 0 <= k < ls.len() && words(#[trigger] ls[k]).len() > 0 && words(ls[k])[0] == x;
                if k < last {
                    assert(init[k] == ls[k]);
                }
            }
            if exists|k: int| 0 <= k < init.len() && words(#[trigger] init[k]).len() > 0 && words(init[k])[0] == x {
                let k = choose|k: int| 0 <= k < init.len() && words(#[trigger] init[k]).len() > 0 && words(init[k])[0] == x;
                assert(ls[k] == init[k]);
            }
            assert(ls[last] == ls.last());
            let rest = getent_candidates(init);
            assert(rest.contains(x) <==> is_ipv4_text(x) && exists|k: int|
                0 <= k < init.len() && words(#[trigger] init[k]).len() > 0 && words(init[k])[0] == x);
            if w.len() > 0 && is_ipv4_text(w[0]) {
                assert(getent_candidates(ls) == rest.push(w[0]));
                assert(rest.push(w[0]).contains(x) <==> rest.contains(x) || x == w[0]);
            } else {
                assert(getent_candidates(ls) == rest);
            }
        }
    }
}

/// The marker after which `nslookup` prints the answer.
pub open spec fn answer_marker() -> Seq<char> {
    "Name:"@
}

/// The addresses in the answer section of `nslookup` output, if it has one.
pub open spec fn nslookup_candidates(out: Seq<char>) -> Option<Seq<Seq<char>>> {
    match find(out, answer_marker()) {
        Some(p) => Some(ipv4_words(words(out.skip(p + answer_marker().len())))),
        None => None,
    }
}

/// `r` holds each of `cands` once, in some order.
pub open spec fn same_addresses(r: Seq<Seq<char>>, cands: Seq<Seq<char>>) -> bool {
    &&& r.no_duplicates()
    &&& forall|x: Seq<char>| r.contains(x) <==> cands.contains(x)
}

/// The addresses that `getent ahostsv4` reported: none when it failed, otherwise each
/// address that begins a line of its output, each once.
pub fn getent_addresses(exit_code: i32, stdout: &str) -> (r: Option<Vec<String>>)
    ensures
        exit_code != 0 ==> r is None,
        exit_code == 0 ==> (r matches Some(v) && same_addresses(
            v.deep_view(),
            getent_candidates(lines(stdout@)),
        )),
{
    if exit_code != 0 {
        return None;
    }
    let chars = char_vec(stdout);
    let ls = line_ranges(&chars, 0, chars.len());
    assert(chars@.subrange(0, chars@.len() as int) =~= chars@);
    let ghost all = lines(chars@);
    let mut found: Vec<(usize, usize)> = Vec::new();
    let mut k: usize = 0;
    while k < ls.len()
        invariant
            chars@ == stdout@,
            all == lines(chars@),
            ranges_denote(chars@, ls@, all, 0, chars@.len() as int),
            k <= ls.len(),
            ranges_within(chars@, found@),
            texts(chars@, found@).no_duplicates(),
            forall|x: Seq<char>|
                texts(chars@, found@).contains(x) <==> getent_candidates(all.take(k as int)).contains(
                    x,
                ),
        decreases ls.len() - k,
    {
        let (a, b) = ls[k];
        let ghost line = chars@.subrange(a as int, b as int);
        assert(line == all[k as int]);
        assert(all.take(k + 1).drop_last() =~= all.take(k as int));
        assert(all.take(k + 1).last() == line);
        let ws = word_ranges(&chars, a, b);
        proof {
            let prev = getent_candidates(all.take(k as int));
            let w = words(line);
            assert(getent_candidates(all.take(k + 1)) == if w.len() > 0 && is_ipv4_text(w[0]) {
                prev.push(w[0])
            } else {
                prev
            });
            if w.len() > 0 {
                lemma_push_contains(prev, w[0]);
            }
        }
        let ghost old_found = texts(chars@, found@);
        if ws.len() > 0 {
            let (wa, wb) = ws[0];
            assert(chars@.subrange(wa as int, wb as int) == words(line)[0]);
            if is_ipv4_in(&chars, wa, wb) {
                add_distinct(&chars, &mut found, (wa, wb));
            }
        }
        assert forall|x: Seq<char>|
            texts(chars@, found@).contains(x) <==> getent_candidates(all.take(k + 1)).contains(
                x,
            ) by {
            assert(old_found.contains(x) <==> getent_candidates(all.take(k as int)).contains(x));
        }
        k = k + 1;
    }
    assert(all.take(ls.len() as int) =~= all);
    Some(strings_of(&chars, &found))
}

/// The addresses that `nslookup` reported: none when it failed or printed no answer,
/// otherwise each address among the words after the first `Name:`, each once.
pub fn nslookup_addresses(exit_code: i32, stdout: &str) -> (r: Option<Vec<String>>)
    ensures
        exit_code != 0 ==> r is None,
        exit_code == 0 ==> match nslookup_candidates(stdout@) {
            None => r is None,
            Some(cands) => r matches Some(v) && same_addresses(v.deep_view(), cands),
        },
{
    if exit_code != 0 {
        return None;
    }
    let chars = char_vec(stdout);
    let marker = char_vec("Name:");
    proof {
        reveal_strlit("Name:");
        assert(chars@.subrange(0, chars@.len() as int) =~= chars@);
    }
    let pos = match find_in(&chars, 0, chars.len(), &marker) {
        Some(p) => p,
        None => {
            return None;
        },
    };
    let start = pos + marker.len();
    assert(chars@.skip(start as int) =~= chars@.subrange(start as int, chars@.len() as int));
    let ws = word_ranges(&chars, start, chars.len());
    let ghost all = words(chars@.subrange(start as int, chars@.len() as int));
    let mut found: Vec<(usize, usize)> = Vec::new();
    let mut k: usize = 0;
    while k < ws.len()
        invariant
            chars@ == stdout@,
            start <= chars.len(),
            all == words(chars@.subrange(start as int, chars@.len() as int)),
            ranges_denote(chars@, ws@, all, start as int, chars@.len() as int),
            k <= ws.len(),
            ranges_within(chars@, found@),
            texts(chars@, found@).no_duplicates(),
            forall|x: Seq<char>|
                texts(chars@, found@).contains(x) <==> ipv4_words(all.take(k as int)).contains(x),
        decreases ws.len() - k,
    {
        let (a, b) = ws[k];
        assert(chars@.subrange(a as int, b as int) == all[k as int]);
        assert(all.take(k + 1).drop_last() =~= all.take(k as int));
        assert(all.take(k + 1).last() == all[k as int]);
        proof {
            let prev = ipv4_words(all.take(k as int));
            assert(ipv4_words(all.take(k + 1)) == if is_ipv4_text(all[k as int]) {
                prev.push(all[k as int])
            } else {
                prev
            });
            lemma_push_contains(prev, all[k as int]);
        }
        let ghost old_found = texts(chars@, found@);
        if is_ipv4_in(&chars, a, b) {
            add_distinct(&chars, &mut found, (a, b));
        }
        assert forall|x: Seq<char>|
            texts(chars@, found@).contains(x) <==> ipv4_words(all.take(k + 1)).contains(x) by {
            assert(old_found.contains(x) <==> ipv4_words(all.take(k as int)).contains(x));
        }
        k = k + 1;
    }
    assert(all.take(ws.len() as int) =~= all);
    Some(strings_of(&chars, &found))
}

/// What resolving `domain` comes to, given the addresses that a resolver reported
/// (`None` when it could not be run successfully): the addresses when there are any.
pub open spec fn resolved(
    domain: Seq<char>,
    ips: Option<Vec<String>>,
    r: Result<Vec<String>, BlockcheckError>,
) -> bool {
    match ips {
        Some(v) => if v.len() > 0 {
            r == Ok::<Vec<String>, BlockcheckError>(v)
        } else {
            r matches Err(BlockcheckError::DnsNoAddresses { domain: d }) && d@ == domain
        },
        None => r matches Err(BlockcheckError::DnsResolveFailed { domain: d, reason })
            && d@ == domain && reason@ == "getent and nslookup both failed"@,
    }
}

/// Whenever the resolver reported addresses, the resolution is exactly those addresses,
/// all of them, in the order reported; otherwise it is an error.
pub proof fn lemma_resolution_keeps_every_address(
    domain: Seq<char>,
    v: Vec<String>,
    r: Result<Vec<String>, BlockcheckError>,
)
    ensures
        v.len() > 0 && resolved(domain, Some(v), r) ==> r == Ok::<Vec<String>, BlockcheckError>(v) && r->Ok_0@
            == v@,
        v.len() == 0 && resolved(domain, Some(v), r) ==> r is Err,
        resolved(domain, None, r) ==> r is Err,
{
}

/// What resolving `domain` comes to, given the addresses that the resolvers reported
/// (`None` when neither could be run successfully).
pub fn resolution(domain: &str, ips: Option<Vec<String>>) -> (r: Result<Vec<String>, BlockcheckError>)
    ensures
        resolved(domain@, ips, r),
        ips is Some && ips->0.len() > 0 ==> r == Ok::<Vec<String>, BlockcheckError>(ips->0),
        ips is Some && ips->0.len() > 0 ==> r is Ok && r->Ok_0@ == ips->0@,
        !(ips is Some && ips->0.len() > 0) ==> r is Err,
{
    match ips {
        Some(v) => {
            if v.len() > 0 {
                Ok(v)
            } else {
                Err(BlockcheckError::DnsNoAddresses { domain: owned(domain) })
            }
        },
        None => Err(
            BlockcheckError::DnsResolveFailed {
                domain: owned(domain),
                reason: owned("getent and nslookup both failed"),
            },
        ),
    }
}

/// Where a lookup of a domain's IPv4 addresses stands once getent has answered.
#[derive(Debug)]
pub enum LookupStep {
    /// getent could not be run successfully: ask nslookup, and resolve with its answer.
    TryNslookup,
    /// The lookup is over with this outcome.
    Done(Result<Vec<String>, BlockcheckError>),
}

/// The next step of resolving `domain` after getent reported `getent`. An answer of getent
/// stands, even one without addresses; nslookup is asked only when getent failed.
pub fn after_getent(domain: &str, getent: Option<Vec<String>>) -> (r: LookupStep)
    ensures
        getent is None ==> r is TryNslookup,
        getent is Some ==> (r matches LookupStep::Done(res) && resolved(domain@, getent, res)),
{
    match getent {
        Some(v) => LookupStep::Done(resolution(domain, Some(v))),
        None => LookupStep::TryNslookup,
    }
}

} // verus!
