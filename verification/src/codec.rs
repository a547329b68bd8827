//! The wire format: a canonical JSON document for a counter snapshot,
//! written and read by verified code. The parser is specified by total
//! spec functions that the executable code mirrors exactly, so the
//! round trip (parsing an encoding yields the encoded value) is a
//! theorem about the spec functions alone.

use vstd::prelude::*;
use vstd::string::{StrSliceExecFns, StringExecFns};
use crate::stats::{
    keys_plain, keys_unique, lemma_lookup_index_iff, lookup, spec_view_pairs, Pairs, Stats,
    StatsGhost,
};
use crate::text::{all_plain, is_plain};

verus! {

// ---------------------------------------------------------------------
// Characters and decimal digits
// ---------------------------------------------------------------------

pub open spec fn is_digit(c: char) -> bool {
    48 <= c as int <= 57
}

pub open spec fn digit_val(c: char) -> int {
    c as int - 48
}

pub open spec fn digit_char(d: int) -> char {
    if d == 0 {
        '0'
    } else if d == 1 {
        '1'
    } else if d == 2 {
        '2'
    } else if d == 3 {
        '3'
    } else if d == 4 {
        '4'
    } else if d == 5 {
        '5'
    } else if d == 6 {
        '6'
    } else if d == 7 {
        '7'
    } else if d == 8 {
        '8'
    } else {
        '9'
    }
}

pub open spec fn all_digits(w: Seq<char>) -> bool {
    forall|i: int| 0 <= i < w.len() ==> is_digit(w[i])
}

/// The canonical decimal representation of a number: no sign, no
/// leading zero (except for zero itself).
pub open spec fn dec_rep(n: u64) -> Seq<char>
    decreases n,
{
    if n < 10 {
        seq![digit_char(n as int)]
    } else {
        dec_rep(n / 10).push(digit_char((n % 10) as int))
    }
}

/// The value of a digit string, most significant digit first.
pub open spec fn val_of(w: Seq<char>) -> int
    decreases w.len(),
{
    if w.len() == 0 {
        0int
    } else {
        val_of(w.drop_last()) * 10 + digit_val(w.last())
    }
}

pub proof fn lemma_digit_char(d: int)
    requires
        0 <= d <= 9,
    ensures
        is_digit(digit_char(d)),
        digit_val(digit_char(d)) == d,
        d >= 1 ==> digit_char(d) != '0',
{
    assert(digit_val(digit_char(0)) == 0);
    assert(digit_val(digit_char(1)) == 1);
    assert(digit_val(digit_char(2)) == 2);
    assert(digit_val(digit_char(3)) == 3);
    assert(digit_val(digit_char(4)) == 4);
    assert(digit_val(digit_char(5)) == 5);
    assert(digit_val(digit_char(6)) == 6);
    assert(digit_val(digit_char(7)) == 7);
    assert(digit_val(digit_char(8)) == 8);
    assert(digit_val(digit_char(9)) == 9);
}

pub proof fn lemma_dec_rep(n: u64)
    ensures
        dec_rep(n).len() >= 1,
        all_digits(dec_rep(n)),
        val_of(dec_rep(n)) == n,
        n >= 1 ==> dec_rep(n)[0] != '0',
        n < 10 ==> dec_rep(n) =~= seq![digit_char(n as int)],
    decreases n,
{
    if n < 10 {
        lemma_digit_char(n as int);
        let w = dec_rep(n);
        assert(w =~= seq![digit_char(n as int)]);
        assert(w.drop_last() =~= Seq::<char>::empty());
        assert(w.last() == digit_char(n as int));
        assert(val_of(Seq::<char>::empty()) == 0);
        assert(val_of(w) == 0 * 10 + digit_val(digit_char(n as int)));
    } else {
        lemma_dec_rep(n / 10);
        lemma_digit_char((n % 10) as int);
        let w = dec_rep(n);
        assert(w =~= dec_rep(n / 10).push(digit_char((n % 10) as int)));
        assert(w.drop_last() =~= dec_rep(n / 10));
        assert(w.last() == digit_char((n % 10) as int));
        assert(val_of(w) == (n / 10) * 10 + (n % 10));
        assert(w[0] == dec_rep(n / 10)[0]);
    }
}

pub proof fn lemma_val_nonneg(w: Seq<char>)
    requires
        all_digits(w),
    ensures
        val_of(w) >= 0,
    decreases w.len(),
{
    if w.len() > 0 {
        assert(all_digits(w.drop_last()));
        lemma_val_nonneg(w.drop_last());
    }
}

/// The value of a digit string dominates the value of each of its
/// initial segments.
pub proof fn lemma_val_take(w: Seq<char>, t: int)
    requires
        all_digits(w),
        0 <= t <= w.len(),
    ensures
        val_of(w.take(t)) <= val_of(w),
    decreases w.len(),
{
    lemma_val_nonneg(w);
    if t == w.len() {
        assert(w.take(t) =~= w);
    } else {
        assert(all_digits(w.drop_last()));
        assert(w.drop_last().take(t) =~= w.take(t));
        lemma_val_take(w.drop_last(), t);
        lemma_val_nonneg(w.drop_last());
    }
}

// ---------------------------------------------------------------------
// The spec parser: total functions over character sequences
// ---------------------------------------------------------------------

/// `w` occurs in `s` starting at position `i`.
pub open spec fn starts_with_at(s: Seq<char>, i: int, w: Seq<char>) -> bool {
    0 <= i && i + w.len() <= s.len() && s.subrange(i, i + w.len()) == w
}

/// Consume an exact literal.
pub open spec fn sp_lit(s: Seq<char>, i: int, lit: Seq<char>) -> Option<int> {
    if starts_with_at(s, i, lit) {
        Some(i + lit.len())
    } else {
        None
    }
}

/// Accumulate decimal digits left to right, rejecting overflow.
pub open spec fn sp_num_loop(s: Seq<char>, i: int, acc: u64) -> Option<(u64, int)>
    decreases s.len() - i,
{
    if !(0 <= i < s.len()) || !is_digit(s[i]) {
        Some((acc, i))
    } else if acc as int * 10 + digit_val(s[i]) > u64::MAX as int {
        None
    } else {
        sp_num_loop(s, i + 1, (acc as int * 10 + digit_val(s[i])) as u64)
    }
}

/// Consume a canonical decimal number: at least one digit, no leading
/// zero unless the number is exactly "0", value within range.
pub open spec fn sp_num(s: Seq<char>, i: int) -> Option<(u64, int)> {
    if 0 <= i < s.len() && is_digit(s[i]) {
        if s[i] == '0' {
            if i + 1 < s.len() && is_digit(s[i + 1]) {
                None
            } else {
                Some((0, i + 1))
            }
        } else {
            sp_num_loop(s, i, 0)
        }
    } else {
        None
    }
}

pub proof fn lemma_sp_num_loop_bounds(s: Seq<char>, i: int, acc: u64)
    requires
        0 <= i <= s.len(),
    ensures
        match sp_num_loop(s, i, acc) {
            Some((v, j)) => i <= j <= s.len(),
            None => true,
        },
    decreases s.len() - i,
{
    if !(0 <= i < s.len()) || !is_digit(s[i]) {
    } else if acc as int * 10 + digit_val(s[i]) > u64::MAX as int {
    } else {
        lemma_sp_num_loop_bounds(s, i + 1, (acc as int * 10 + digit_val(s[i])) as u64);
    }
}

/// Running the digit loop over a planted digit string: starting from the
/// value of the consumed prefix, it consumes the rest and yields the
/// string's value.
pub proof fn lemma_num_loop_planted(s: Seq<char>, i: int, w: Seq<char>, t: int)
    requires
        all_digits(w),
        0 <= t <= w.len(),
        0 <= i,
        i + w.len() <= s.len(),
        s.subrange(i, i + w.len()) == w,
        i + w.len() == s.len() || !is_digit(s[i + w.len()]),
        val_of(w) <= u64::MAX,
    ensures
        sp_num_loop(s, i + t, (val_of(w.take(t)) as u64)) == Some(
            ((val_of(w) as u64), i + w.len()),
        ),
    decreases w.len() - t,
{
    lemma_val_nonneg(w);
    lemma_val_take(w, t);
    if t == w.len() {
        assert(w.take(t) =~= w);
        assert(sp_num_loop(s, i + t, (val_of(w) as u64)) == Some(
            ((val_of(w) as u64), i + w.len()),
        ));
    } else {
        assert(s[i + t] == w[t]);
        assert(is_digit(w[t]));
        assert(all_digits(w.take(t)));
        assert(all_digits(w.take(t + 1)));
        lemma_val_nonneg(w.take(t));
        lemma_val_nonneg(w.take(t + 1));
        let acc = val_of(w.take(t));
        let acc2 = acc * 10 + digit_val(w[t]);
        assert(w.take(t + 1).drop_last() =~= w.take(t));
        assert(w.take(t + 1).last() == w[t]);
        assert(acc2 == val_of(w.take(t + 1)));
        lemma_val_take(w, t + 1);
        assert(acc2 <= u64::MAX as int);
        lemma_num_loop_planted(s, i, w, t + 1);
        assert(sp_num_loop(s, i + t, (val_of(w.take(t)) as u64)) == sp_num_loop(
            s,
            i + t + 1,
            (val_of(w.take(t + 1)) as u64),
        ));
    }
}

/// Parsing a planted canonical number representation yields the number.
pub proof fn lemma_sp_num_planted(s: Seq<char>, i: int, n: u64)
    requires
        0 <= i,
        i + dec_rep(n).len() <= s.len(),
        s.subrange(i, i + dec_rep(n).len()) == dec_rep(n),
        i + dec_rep(n).len() == s.len() || !is_digit(s[i + dec_rep(n).len()]),
    ensures
        sp_num(s, i) == Some((n, i + dec_rep(n).len())),
{
    let w = dec_rep(n);
    lemma_dec_rep(n);
    assert(s[i] == w[0]);
    if n == 0 {
        assert(w =~= seq!['0']);
        assert(s[i] == '0');
    } else {
        assert(s[i] != '0');
        assert(w.take(0) =~= Seq::<char>::empty());
        lemma_num_loop_planted(s, i, w, 0);
    }
}

// ---------------------------------------------------------------------
// Keys: quoted runs of plain characters
// ---------------------------------------------------------------------

/// The first position at or after `j` that does not hold a plain character.
pub open spec fn plain_end(s: Seq<char>, j: int) -> int
    decreases s.len() - j,
{
    if 0 <= j < s.len() && is_plain(s[j]) {
        plain_end(s, j + 1)
    } else {
        j
    }
}

pub proof fn lemma_plain_end_bounds(s: Seq<char>, j: int)
    requires
        0 <= j <= s.len(),
    ensures
        j <= plain_end(s, j) <= s.len(),
        forall|m: int| j <= m < plain_end(s, j) ==> is_plain(s[m]),
    decreases s.len() - j,
{
    if 0 <= j < s.len() && is_plain(s[j]) {
        lemma_plain_end_bounds(s, j + 1);
    }
}

/// Consume a quoted key of plain characters.
pub open spec fn sp_key(s: Seq<char>, i: int) -> Option<(Seq<char>, int)> {
    if 0 <= i < s.len() && s[i] == '"' {
        let e = plain_end(s, i + 1);
        if e < s.len() && s[e] == '"' {
            Some((s.subrange(i + 1, e), e + 1))
        } else {
            None
        }
    } else {
        None
    }
}

/// Scanning a planted run of plain characters stops exactly at its end.
pub proof fn lemma_plain_end_planted(pre: Seq<char>, k: Seq<char>, rest: Seq<char>)
    requires
        all_plain(k),
        rest.len() > 0,
        !is_plain(rest[0]),
    ensures
        plain_end(pre + k + rest, pre.len() as int) == pre.len() + k.len(),
    decreases k.len(),
{
    let s = pre + k + rest;
    if k.len() == 0 {
        assert(s[pre.len() as int] == rest[0]);
    } else {
        assert(s[pre.len() as int] == k[0]);
        let pre2 = pre + seq![k[0]];
        assert(pre2 + k.drop_first() + rest =~= s);
        assert(all_plain(k.drop_first()));
        lemma_plain_end_planted(pre2, k.drop_first(), rest);
        assert(plain_end(s, pre.len() as int) == plain_end(s, pre.len() as int + 1));
    }
}

/// Parsing a planted quoted key yields the key.
pub proof fn lemma_sp_key_planted(pre: Seq<char>, k: Seq<char>, suf: Seq<char>)
    requires
        all_plain(k),
    ensures
        sp_key(pre + seq!['"'] + k + seq!['"'] + suf, pre.len() as int) == Some(
            (k, pre.len() + k.len() + 2int),
        ),
{
    let s = pre + seq!['"'] + k + seq!['"'] + suf;
    let i = pre.len() as int;
    assert(s[i] == '"');
    let pre2 = pre + seq!['"'];
    assert(pre2 + k + (seq!['"'] + suf) =~= s);
    assert(!is_plain('"'));
    lemma_plain_end_planted(pre2, k, seq!['"'] + suf);
    let e = plain_end(s, i + 1);
    assert(e == i + 1 + k.len());
    assert(s[e] == '"');
    assert(s.subrange(i + 1, e) =~= k);
}

// ---------------------------------------------------------------------
// Executable scanners, mirroring the spec parser
// ---------------------------------------------------------------------

/// Match an exact literal at position `i`.
fn p_lit(s: &str, i: usize, n: usize, lit: &str) -> (r: Option<usize>)
    requires
        n == s@.len(),
        i <= n,
    ensures
        match r {
            Some(j) => sp_lit(s@, i as int, lit@) == Some(j as int) && i <= j <= n,
            None => sp_lit(s@, i as int, lit@) is None,
        },
{
    let m = lit.unicode_len();
    if m > n - i {
        proof {
            assert(!starts_with_at(s@, i as int, lit@));
        }
        return None;
    }
    let mut t: usize = 0;
    while t < m
        invariant
            n == s@.len(),
            m == lit@.len(),
            i + m <= n,
            t <= m,
            forall|u: int| 0 <= u < t ==> s@[i + u] == lit@[u],
        decreases m - t,
    {
        if s.get_char(i + t) != lit.get_char(t) {
            proof {
                assert(s@.subrange(i as int, i + m) != lit@) by {
                    assert(s@.subrange(i as int, i + m)[t as int] == s@[i + t]);
                }
            }
            return None;
        }
        t = t + 1;
    }
    proof {
        assert(s@.subrange(i as int, i + m) =~= lit@);
    }
    Some(i + m)
}

/// Accumulate decimal digits left to right, rejecting overflow.
fn p_num_loop(s: &str, i: usize, n: usize, acc: u64) -> (r: Option<(u64, usize)>)
    requires
        n == s@.len(),
        i <= n,
    ensures
        match r {
            Some((v, j)) => sp_num_loop(s@, i as int, acc) == Some((v, j as int)) && i <= j <= n,
            None => sp_num_loop(s@, i as int, acc) is None,
        },
    decreases n - i,
{
    if i == n {
        return Some((acc, i));
    }
    let c = s.get_char(i);
    let cu = c as u32;
    if cu < 48 || cu > 57 {
        proof {
            assert(!is_digit(s@[i as int]));
        }
        return Some((acc, i));
    }
    let d = (cu - 48) as u64;
    proof {
        assert(is_digit(s@[i as int]));
        assert(digit_val(s@[i as int]) == d as int);
    }
    if acc > (u64::MAX - d) / 10 {
        proof {
            let q = (u64::MAX - d) / 10;
            assert(u64::MAX - d == 10 * q + (u64::MAX - d) % 10);
            assert(acc as int * 10 + d > u64::MAX as int);
        }
        return None;
    }
    proof {
        let q = (u64::MAX - d) / 10;
        assert(u64::MAX - d == 10 * q + (u64::MAX - d) % 10);
        assert(acc as int * 10 + d <= u64::MAX as int);
    }
    p_num_loop(s, i + 1, n, acc * 10 + d)
}

/// Match a canonical decimal number at position `i`.
fn p_num(s: &str, i: usize, n: usize) -> (r: Option<(u64, usize)>)
    requires
        n == s@.len(),
        i <= n,
    ensures
        match r {
            Some((v, j)) => sp_num(s@, i as int) == Some((v, j as int)) && i < j <= n,
            None => sp_num(s@, i as int) is None,
        },
{
    if i == n {
        return None;
    }
    let c = s.get_char(i);
    let cu = c as u32;
    if cu < 48 || cu > 57 {
        proof {
            assert(!is_digit(s@[i as int]));
        }
        return None;
    }
    proof {
        assert(is_digit(s@[i as int]));
    }
    if cu == 48 {
        proof {
            assert(s@[i as int] == '0');
        }
        if i + 1 < n {
            let c2 = s.get_char(i + 1);
            let cu2 = c2 as u32;
            if 48 <= cu2 && cu2 <= 57 {
                proof {
                    assert(is_digit(s@[i as int + 1]));
                }
                return None;
            }
            proof {
                assert(!is_digit(s@[i as int + 1]));
            }
        }
        return Some((0, i + 1));
    }
    proof {
        assert(s@[i as int] != '0');
        let d0 = digit_val(s@[i as int]);
        assert(0 as int * 10 + d0 <= u64::MAX as int);
        assert(sp_num_loop(s@, i as int, 0) == sp_num_loop(s@, i as int + 1, (d0 as u64)));
        lemma_sp_num_loop_bounds(s@, i as int + 1, (d0 as u64));
    }
    p_num_loop(s, i, n, 0)
}

/// Match a quoted key of plain characters at position `i`.
fn p_key(s: &str, i: usize, n: usize) -> (r: Option<(String, usize)>)
    requires
        n == s@.len(),
        i <= n,
    ensures
        match r {
            Some((k, j)) => sp_key(s@, i as int) == Some((k@, j as int)) && i < j <= n,
            None => sp_key(s@, i as int) is None,
        },
{
    if i == n {
        return None;
    }
    if s.get_char(i) != '"' {
        return None;
    }
    let mut j: usize = i + 1;
    loop
        invariant_except_break
            n == s@.len(),
            i + 1 <= j <= n,
            plain_end(s@, i as int + 1) == plain_end(s@, j as int),
        ensures
            n == s@.len(),
            i + 1 <= j <= n,
            plain_end(s@, i as int + 1) == plain_end(s@, j as int),
            j == n || !is_plain(s@[j as int]),
        decreases n - j,
    {
        if j == n {
            break;
        }
        let c = s.get_char(j);
        let cu = c as u32;
        if !(32 <= cu && cu <= 126) || c == '"' || c == '\\' {
            proof {
                assert(!is_plain(s@[j as int]));
            }
            break;
        }
        proof {
            assert(is_plain(s@[j as int]));
        }
        j = j + 1;
    }
    proof {
        assert(plain_end(s@, j as int) == j as int);
        assert(plain_end(s@, i as int + 1) == j as int);
    }
    if j == n {
        return None;
    }
    if s.get_char(j) != '"' {
        return None;
    }
    let key_str = s.substring_char(i + 1, j);
    let key: String = key_str.to_owned();
    Some((key, j + 1))
}

// ---------------------------------------------------------------------
// Pairs and the whole document
// ---------------------------------------------------------------------

/// Consume one `"key":count` pair.
pub open spec fn sp_pair(s: Seq<char>, i: int) -> Option<((Seq<char>, u64), int)> {
    match sp_key(s, i) {
        None => None,
        Some((k, j)) => if j < s.len() && s[j] == ':' {
            match sp_num(s, j + 1) {
                None => None,
                Some((v, j2)) => Some(((k, v), j2)),
            }
        } else {
            None
        },
    }
}

/// Consume `,"key":count` pairs until the closing brace, rejecting a
/// repeated key.
pub open spec fn sp_pairs_rest(s: Seq<char>, i: int, acc: Pairs) -> Option<(Pairs, int)>
    decreases s.len() - i,
{
    if 0 <= i < s.len() && s[i] == ',' {
        match sp_pair(s, i + 1) {
            None => None,
            Some((p, j)) => if !(i + 1 < j <= s.len()) {
                None
            } else if lookup(acc, p.0) is Some {
                None
            } else {
                sp_pairs_rest(s, j, acc.push(p))
            },
        }
    } else if 0 <= i < s.len() && s[i] == '}' {
        Some((acc, i + 1))
    } else {
        None
    }
}

/// Consume the body of the `events` object, including its closing brace.
pub open spec fn sp_events(s: Seq<char>, i: int) -> Option<(Pairs, int)> {
    if 0 <= i < s.len() && s[i] == '}' {
        Some((Seq::empty(), i + 1))
    } else {
        match sp_pair(s, i) {
            None => None,
            Some((p, j)) => if !(i < j <= s.len()) {
                None
            } else {
                sp_pairs_rest(s, j, seq![p])
            },
        }
    }
}

pub open spec fn lit_total_keys() -> Seq<char> {
    seq!['{', '"', 't', 'o', 't', 'a', 'l', '_', 'k', 'e', 'y', 's', '"', ':']
}

pub open spec fn lit_total_clicks() -> Seq<char> {
    seq![',', '"', 't', 'o', 't', 'a', 'l', '_', 'c', 'l', 'i', 'c', 'k', 's', '"', ':']
}

pub open spec fn lit_total_wheels() -> Seq<char> {
    seq![',', '"', 't', 'o', 't', 'a', 'l', '_', 'w', 'h', 'e', 'e', 'l', 's', '"', ':']
}

pub open spec fn lit_events() -> Seq<char> {
    seq![',', '"', 'e', 'v', 'e', 'n', 't', 's', '"', ':', '{']
}

/// Parse a whole snapshot document; `None` on anything but the exact
/// canonical form.
pub open spec fn sp_stats(s: Seq<char>) -> Option<StatsGhost> {
    match sp_lit(s, 0, lit_total_keys()) {
        None => None,
        Some(i1) => match sp_num(s, i1) {
            None => None,
            Some((tk, i2)) => match sp_lit(s, i2, lit_total_clicks()) {
                None => None,
                Some(i3) => match sp_num(s, i3) {
                    None => None,
                    Some((tc, i4)) => match sp_lit(s, i4, lit_total_wheels()) {
                        None => None,
                        Some(i5) => match sp_num(s, i5) {
                            None => None,
                            Some((tw, i6)) => match sp_lit(s, i6, lit_events()) {
                                None => None,
                                Some(i7) => match sp_events(s, i7) {
                                    None => None,
                                    Some((ps, last_pos)) => if last_pos < s.len() && s[last_pos] == '}' && last_pos + 1
                                        == s.len() {
                                        Some(
                                            StatsGhost {
                                                total_keys: tk,
                                                total_clicks: tc,
                                                total_wheels: tw,
                                                events: ps,
                                            },
                                        )
                                    } else {
                                        None
                                    },
                                },
                            },
                        },
                    },
                },
            },
        },
    }
}

// ---------------------------------------------------------------------
// The encoder
// ---------------------------------------------------------------------

pub open spec fn enc_pair(p: (Seq<char>, u64)) -> Seq<char> {
    seq!['"'] + p.0 + seq!['"', ':'] + dec_rep(p.1)
}

pub open spec fn enc_pairs_from(ps: Pairs, t: int) -> Seq<char>
    decreases ps.len() - t,
{
    if !(0 <= t < ps.len()) {
        Seq::empty()
    } else {
        seq![','] + enc_pair(ps[t]) + enc_pairs_from(ps, t + 1)
    }
}

pub open spec fn enc_events(ps: Pairs) -> Seq<char> {
    if ps.len() == 0 {
        Seq::empty()
    } else {
        enc_pair(ps[0]) + enc_pairs_from(ps, 1)
    }
}

/// The canonical document for a snapshot.
pub open spec fn spec_encode(v: StatsGhost) -> Seq<char> {
    lit_total_keys() + dec_rep(v.total_keys) + lit_total_clicks() + dec_rep(v.total_clicks)
        + lit_total_wheels() + dec_rep(v.total_wheels) + lit_events() + enc_events(v.events)
        + seq!['}', '}']
}

/// A snapshot that can stand on the wire: distinct keys, every key
/// made of plain characters. The format deliberately restricts the
/// identifier alphabet instead of escaping: every identifier this
/// system records — prefix-table names and key-table names alike — is
/// plain, which `keys_plain` tracks through the aggregator.
pub open spec fn wire_wf(v: StatsGhost) -> bool {
    keys_unique(v.events) && keys_plain(v.events)
}

fn digit_str(d: u64) -> (r: &'static str)
    requires
        d < 10,
    ensures
        r@ == seq![digit_char(d as int)],
{
    if d == 0 {
        let r = "0";
        proof {
            reveal_strlit("0");
            assert(r@ =~= seq![digit_char(0)]);
        }
        r
    } else if d == 1 {
        let r = "1";
        proof {
            reveal_strlit("1");
            assert(r@ =~= seq![digit_char(1)]);
        }
        r
    } else if d == 2 {
        let r = "2";
        proof {
            reveal_strlit("2");
            assert(r@ =~= seq![digit_char(2)]);
        }
        r
    } else if d == 3 {
        let r = "3";
        proof {
            reveal_strlit("3");
            assert(r@ =~= seq![digit_char(3)]);
        }
        r
    } else if d == 4 {
        let r = "4";
        proof {
            reveal_strlit("4");
            assert(r@ =~= seq![digit_char(4)]);
        }
        r
    } else if d == 5 {
        let r = "5";
        proof {
            reveal_strlit("5");
            assert(r@ =~= seq![digit_char(5)]);
        }
        r
    } else if d == 6 {
        let r = "6";
        proof {
            reveal_strlit("6");
            assert(r@ =~= seq![digit_char(6)]);
        }
        r
    } else if d == 7 {
        let r = "7";
        proof {
            reveal_strlit("7");
            assert(r@ =~= seq![digit_char(7)]);
        }
        r
    } else if d == 8 {
        let r = "8";
        proof {
            reveal_strlit("8");
            assert(r@ =~= seq![digit_char(8)]);
        }
        r
    } else {
        let r = "9";
        proof {
            reveal_strlit("9");
            assert(r@ =~= seq![digit_char(9)]);
        }
        r
    }
}

/// The canonical decimal text of a number.
pub fn encode_u64(n: u64) -> (r: String)
    ensures
        r@ == dec_rep(n),
    decreases n,
{
    if n < 10 {
        let r: String = digit_str(n).to_owned();
        proof {
            assert(r@ =~= dec_rep(n));
        }
        r
    } else {
        let mut r = encode_u64(n / 10);
        r.append(digit_str(n % 10));
        proof {
            assert(r@ =~= dec_rep(n));
        }
        r
    }
}

/// Write a snapshot in its canonical document form.
pub fn encode_stats(st: &Stats) -> (r: String)
    ensures
        r@ == spec_encode(st@),
{
    let ghost ps = st@.events;
    let mut out: String = "{\"total_keys\":".to_owned();
    proof {
        reveal_strlit("{\"total_keys\":");
        assert(out@ =~= lit_total_keys());
    }
    let ntk = encode_u64(st.total_keys);
    out.append(ntk.as_str());
    out.append(",\"total_clicks\":");
    proof {
        reveal_strlit(",\"total_clicks\":");
        assert(",\"total_clicks\":"@ =~= lit_total_clicks());
    }
    let ntc = encode_u64(st.total_clicks);
    out.append(ntc.as_str());
    out.append(",\"total_wheels\":");
    proof {
        reveal_strlit(",\"total_wheels\":");
        assert(",\"total_wheels\":"@ =~= lit_total_wheels());
    }
    let ntw = encode_u64(st.total_wheels);
    out.append(ntw.as_str());
    out.append(",\"events\":{");
    proof {
        reveal_strlit(",\"events\":{");
        assert(",\"events\":{"@ =~= lit_events());
    }
    let ghost pre = lit_total_keys() + dec_rep(st@.total_keys) + lit_total_clicks() + dec_rep(
        st@.total_clicks,
    ) + lit_total_wheels() + dec_rep(st@.total_wheels) + lit_events();
    proof {
        assert(out@ =~= pre);
    }
    let m = st.events.len();
    if m > 0 {
        out.append("\"");
        out.append(st.events[0].0.as_str());
        out.append("\":");
        let n0 = encode_u64(st.events[0].1);
        out.append(n0.as_str());
        proof {
            reveal_strlit("\"");
            reveal_strlit("\":");
            assert("\""@ =~= seq!['"']);
            assert("\":"@ =~= seq!['"', ':']);
            assert(ps[0] == (st.events@[0].0@, st.events@[0].1));
            assert(out@ =~= pre + enc_pair(ps[0]));
        }
        let mut idx: usize = 1;
        while idx < m
            invariant
                m == st.events@.len(),
                ps == st@.events,
                1 <= idx <= m,
                out@ + enc_pairs_from(ps, idx as int) == pre + enc_events(ps),
            decreases m - idx,
        {
            out.append(",\"");
            out.append(st.events[idx].0.as_str());
            out.append("\":");
            let nv = encode_u64(st.events[idx].1);
            out.append(nv.as_str());
            proof {
                reveal_strlit(",\"");
                reveal_strlit("\":");
                assert(",\""@ =~= seq![',', '"']);
                assert("\":"@ =~= seq!['"', ':']);
                assert(ps[idx as int] == (st.events@[idx as int].0@, st.events@[idx as int].1));
                assert(enc_pairs_from(ps, idx as int) == seq![','] + enc_pair(ps[idx as int])
                    + enc_pairs_from(ps, idx as int + 1));
                assert(out@ + enc_pairs_from(ps, idx as int + 1) =~= pre + enc_events(ps));
            }
            idx = idx + 1;
        }
        proof {
            assert(enc_pairs_from(ps, m as int) =~= Seq::<char>::empty());
            assert(out@ =~= pre + enc_events(ps));
        }
    } else {
        proof {
            assert(enc_events(ps) =~= Seq::<char>::empty());
            assert(out@ =~= pre + enc_events(ps));
        }
    }
    out.append("}}");
    proof {
        reveal_strlit("}}");
        assert("}}"@ =~= seq!['}', '}']);
        assert(out@ =~= spec_encode(st@));
    }
    out
}

// ---------------------------------------------------------------------
// Executable parser for pairs and the whole document
// ---------------------------------------------------------------------

/// Whether the table already holds a key.
fn vec_has_key(es: &Vec<(String, u64)>, k: &str) -> (r: bool)
    ensures
        r == (lookup(spec_view_pairs(es@), k@) is Some),
{
    let n = es.len();
    let mut i: usize = 0;
    while i < n
        invariant
            n == es@.len(),
            i <= n,
            forall|j: int| 0 <= j < i ==> spec_view_pairs(es@)[j].0 != k@,
        decreases n - i,
    {
        if crate::text::str_eq(es[i].0.as_str(), k) {
            proof {
                assert(spec_view_pairs(es@)[i as int].0 == k@);
                lemma_lookup_index_iff(spec_view_pairs(es@), k@);
            }
            return true;
        }
        i = i + 1;
    }
    proof {
        lemma_lookup_index_iff(spec_view_pairs(es@), k@);
    }
    false
}

/// Match one `"key":count` pair at position `i`.
fn p_pair(s: &str, i: usize, n: usize) -> (r: Option<((String, u64), usize)>)
    requires
        n == s@.len(),
        i <= n,
    ensures
        match r {
            Some((p, j)) => sp_pair(s@, i as int) == Some(((p.0@, p.1), j as int)) && i < j <= n,
            None => sp_pair(s@, i as int) is None,
        },
{
    let (key, j) = match p_key(s, i, n) {
        Some(x) => x,
        None => {
            return None;
        },
    };
    if j == n {
        return None;
    }
    if s.get_char(j) != ':' {
        return None;
    }
    let (v, j2) = match p_num(s, j + 1, n) {
        Some(x) => x,
        None => {
            return None;
        },
    };
    Some(((key, v), j2))
}

/// Match `,"key":count` pairs until the closing brace.
fn p_pairs_rest(s: &str, i: usize, n: usize, acc: Vec<(String, u64)>) -> (r: Option<
    (Vec<(String, u64)>, usize),
>)
    requires
        n == s@.len(),
        i <= n,
    ensures
        match r {
            Some((es, j)) => sp_pairs_rest(s@, i as int, spec_view_pairs(acc@)) == Some(
                (spec_view_pairs(es@), j as int),
            ) && j <= n,
            None => sp_pairs_rest(s@, i as int, spec_view_pairs(acc@)) is None,
        },
    decreases n - i,
{
    if i == n {
        return None;
    }
    let c = s.get_char(i);
    if c == ',' {
        let (p, j) = match p_pair(s, i + 1, n) {
            Some(x) => x,
            None => {
                return None;
            },
        };
        if j <= i + 1 {
            // mirrors the guard in `sp_pairs_rest`; a pair always advances
            return None;
        }
        if vec_has_key(&acc, p.0.as_str()) {
            return None;
        }
        let ghost pk = p.0@;
        let ghost pv = p.1;
        let mut acc2 = acc;
        acc2.push(p);
        proof {
            assert(spec_view_pairs(acc2@) =~= spec_view_pairs(acc@).push((pk, pv)));
        }
        p_pairs_rest(s, j, n, acc2)
    } else if c == '}' {
        Some((acc, i + 1))
    } else {
        None
    }
}

/// Match the body of the `events` object, including its closing brace.
fn p_events(s: &str, i: usize, n: usize) -> (r: Option<(Vec<(String, u64)>, usize)>)
    requires
        n == s@.len(),
        i <= n,
    ensures
        match r {
            Some((es, j)) => sp_events(s@, i as int) == Some((spec_view_pairs(es@), j as int))
                && j <= n,
            None => sp_events(s@, i as int) is None,
        },
{
    if i < n {
        if s.get_char(i) == '}' {
            let es: Vec<(String, u64)> = Vec::new();
            proof {
                assert(spec_view_pairs(es@) =~= Seq::<(Seq<char>, u64)>::empty());
            }
            return Some((es, i + 1));
        }
    }
    let (p, j) = match p_pair(s, i, n) {
        Some(x) => x,
        None => {
            return None;
        },
    };
    let ghost pk = p.0@;
    let ghost pv = p.1;
    let mut acc: Vec<(String, u64)> = Vec::new();
    acc.push(p);
    proof {
        assert(spec_view_pairs(acc@) =~= seq![(pk, pv)]);
    }
    p_pairs_rest(s, j, n, acc)
}

/// A parsed key consists of plain characters: it is a slice of the
/// run that `plain_end` scanned.
proof fn lemma_sp_key_plain(s: Seq<char>, i: int)
    ensures
        match sp_key(s, i) {
            Some((k, j)) => all_plain(k),
            None => true,
        },
{
    if 0 <= i < s.len() && s[i] == '"' {
        let e = plain_end(s, i + 1);
        lemma_plain_end_bounds(s, i + 1);
        if e < s.len() && s[e] == '"' {
            let k = s.subrange(i + 1, e);
            assert forall|t: int| 0 <= t < k.len() implies is_plain(k[t]) by {
                assert(k[t] == s[i + 1 + t]);
            }
        }
    }
}

proof fn lemma_sp_pair_plain(s: Seq<char>, i: int)
    ensures
        match sp_pair(s, i) {
            Some((p, j)) => all_plain(p.0),
            None => true,
        },
{
    lemma_sp_key_plain(s, i);
}

/// Keys stay pairwise distinct and plain through the pair loop.
proof fn lemma_sp_pairs_rest_keys(s: Seq<char>, i: int, acc: Pairs)
    requires
        keys_unique(acc),
        keys_plain(acc),
    ensures
        match sp_pairs_rest(s, i, acc) {
            Some((ps, j)) => keys_unique(ps) && keys_plain(ps),
            None => true,
        },
    decreases s.len() - i,
{
    if 0 <= i < s.len() && s[i] == ',' {
        match sp_pair(s, i + 1) {
            None => {},
            Some((p, j)) => {
                if !(i + 1 < j <= s.len()) {
                } else if lookup(acc, p.0) is Some {
                } else {
                    lemma_lookup_index_iff(acc, p.0);
                    lemma_sp_pair_plain(s, i + 1);
                    assert(keys_unique(acc.push(p)));
                    assert(keys_plain(acc.push(p)));
                    lemma_sp_pairs_rest_keys(s, j, acc.push(p));
                }
            },
        }
    }
}

/// A parsed pair table has pairwise-distinct, plain keys.
proof fn lemma_sp_events_keys(s: Seq<char>, i: int)
    ensures
        match sp_events(s, i) {
            Some((ps, j)) => keys_unique(ps) && keys_plain(ps),
            None => true,
        },
{
    if 0 <= i < s.len() && s[i] == '}' {
    } else {
        match sp_pair(s, i) {
            None => {},
            Some((p, j)) => {
                if !(i < j <= s.len()) {
                } else {
                    lemma_sp_pair_plain(s, i);
                    assert(seq![p][0] == p);
                    assert(keys_unique(seq![p]));
                    assert(keys_plain(seq![p]));
                    lemma_sp_pairs_rest_keys(s, j, seq![p]);
                }
            },
        }
    }
}

// ---------------------------------------------------------------------
// Round trip: parsing an encoding yields the encoded snapshot
// ---------------------------------------------------------------------

/// A planted segment of a concatenation starts where the prefix ends.
pub proof fn lemma_starts(a: Seq<char>, b: Seq<char>, c: Seq<char>)
    ensures
        starts_with_at(a + b + c, a.len() as int, b),
        b.len() > 0 ==> (a + b + c)[a.len() as int] == b[0],
{
    assert((a + b + c).subrange(a.len() as int, (a.len() + b.len()) as int) =~= b);
}

/// Parsing a planted pair yields the pair.
pub proof fn lemma_sp_pair_planted(pre: Seq<char>, k: Seq<char>, v: u64, suf: Seq<char>)
    requires
        all_plain(k),
        suf.len() > 0,
        !is_digit(suf[0]),
    ensures
        sp_pair(pre + enc_pair((k, v)) + suf, pre.len() as int) == Some(
            ((k, v), (pre.len() + enc_pair((k, v)).len()) as int),
        ),
        enc_pair((k, v)).len() == k.len() + 3 + dec_rep(v).len(),
{
    let s = pre + enc_pair((k, v)) + suf;
    let i = pre.len() as int;
    let d = dec_rep(v);
    lemma_dec_rep(v);
    let tailk = seq![':'] + d + suf;
    assert(pre + seq!['"'] + k + seq!['"'] + tailk =~= s);
    lemma_sp_key_planted(pre, k, tailk);
    assert(sp_key(s, i) == Some((k, i + k.len() + 2int)));
    let jk = i + k.len() as int + 2;
    let pre2 = pre + seq!['"'] + k + seq!['"'];
    assert(pre2 + seq![':'] + (d + suf) =~= s);
    lemma_starts(pre2, seq![':'], d + suf);
    assert(s[jk] == ':');
    let pre3 = pre2 + seq![':'];
    assert(pre3 + d + suf =~= s);
    lemma_starts(pre3, d, suf);
    assert(s.subrange(jk + 1, jk + 1 + d.len()) == d);
    assert(s[jk + 1 + d.len()] == suf[0]) by {
        let pre4 = pre3 + d;
        assert(pre4 + suf + Seq::<char>::empty() =~= s);
        lemma_starts(pre4, suf, Seq::<char>::empty());
    }
    lemma_sp_num_planted(s, jk + 1, v);
    assert(sp_num(s, jk + 1) == Some((v, jk + 1 + d.len())));
    assert(jk < s.len());
}

/// Parsing a planted run of `,"key":count` pairs followed by the
/// closing brace yields the remaining pairs.
pub proof fn lemma_sp_pairs_rest_planted(ps: Pairs, t: int, pre: Seq<char>, tail: Seq<char>)
    requires
        keys_unique(ps),
        forall|x: int| 0 <= x < ps.len() ==> all_plain(ps[x].0),
        1 <= t <= ps.len(),
    ensures
        sp_pairs_rest(pre + enc_pairs_from(ps, t) + seq!['}'] + tail, pre.len() as int, ps.take(t))
            == Some((ps, (pre.len() + enc_pairs_from(ps, t).len() + 1) as int)),
    decreases ps.len() - t,
{
    let s = pre + enc_pairs_from(ps, t) + seq!['}'] + tail;
    let i = pre.len() as int;
    if t == ps.len() {
        assert(enc_pairs_from(ps, t) =~= Seq::<char>::empty());
        assert(pre + seq!['}'] + tail =~= s);
        lemma_starts(pre, seq!['}'], tail);
        assert(s[i] == '}');
        assert(ps.take(t) =~= ps);
    } else {
        let k = ps[t].0;
        let v = ps[t].1;
        assert(ps[t] == (k, v));
        let ep = enc_pair((k, v));
        assert(enc_pairs_from(ps, t) == seq![','] + ep + enc_pairs_from(ps, t + 1));
        let suf2 = enc_pairs_from(ps, t + 1) + seq!['}'] + tail;
        assert(pre + seq![','] + (ep + suf2) =~= s);
        lemma_starts(pre, seq![','], ep + suf2);
        assert(s[i] == ',');
        let pre2 = pre + seq![','];
        assert(pre2 + ep + suf2 =~= s);
        assert(suf2.len() > 0);
        assert(!is_digit(suf2[0])) by {
            if t + 1 < ps.len() {
                assert(enc_pairs_from(ps, t + 1) == seq![','] + enc_pair(ps[t + 1])
                    + enc_pairs_from(ps, t + 2));
                assert(suf2[0] == ',');
            } else {
                assert(enc_pairs_from(ps, t + 1) =~= Seq::<char>::empty());
                assert(suf2[0] == '}');
            }
        }
        lemma_sp_pair_planted(pre2, k, v, suf2);
        let j = pre2.len() + ep.len();
        assert(sp_pair(s, i + 1) == Some(((k, v), j as int)));
        assert(i + 1 < j as int);
        assert(j as int <= s.len());
        assert(lookup(ps.take(t), k) is None) by {
            lemma_lookup_index_iff(ps.take(t), k);
            if exists|x: int| 0 <= x < ps.take(t).len() && ps.take(t)[x].0 == k {
                let x = choose|x: int| 0 <= x < ps.take(t).len() && ps.take(t)[x].0 == k;
                assert(ps[x].0 == ps[t].0);
                assert(false);
            }
        }
        lemma_sp_pairs_rest_planted(ps, t + 1, pre2 + ep, tail);
        assert((pre2 + ep) + enc_pairs_from(ps, t + 1) + seq!['}'] + tail =~= s);
        assert(ps.take(t).push((k, v)) =~= ps.take(t + 1));
        assert(sp_pairs_rest(s, j as int, ps.take(t + 1)) == Some(
            (ps, ((pre2 + ep).len() + enc_pairs_from(ps, t + 1).len() + 1) as int),
        ));
        assert((pre2 + ep).len() + enc_pairs_from(ps, t + 1).len() + 1 == pre.len()
            + enc_pairs_from(ps, t).len() + 1);
    }
}

/// Parsing a planted events object (after its opening brace) yields
/// its pairs.
pub proof fn lemma_sp_events_planted(ps: Pairs, pre: Seq<char>, tail: Seq<char>)
    requires
        keys_unique(ps),
        forall|x: int| 0 <= x < ps.len() ==> all_plain(ps[x].0),
    ensures
        sp_events(pre + enc_events(ps) + seq!['}'] + tail, pre.len() as int) == Some(
            (ps, (pre.len() + enc_events(ps).len() + 1) as int),
        ),
{
    let s = pre + enc_events(ps) + seq!['}'] + tail;
    let i = pre.len() as int;
    if ps.len() == 0 {
        assert(enc_events(ps) =~= Seq::<char>::empty());
        assert(pre + seq!['}'] + tail =~= s);
        lemma_starts(pre, seq!['}'], tail);
        assert(s[i] == '}');
        assert(Seq::<(Seq<char>, u64)>::empty() =~= ps);
    } else {
        let k = ps[0].0;
        let v = ps[0].1;
        assert(ps[0] == (k, v));
        let ep = enc_pair((k, v));
        assert(enc_events(ps) == ep + enc_pairs_from(ps, 1));
        let suf2 = enc_pairs_from(ps, 1) + seq!['}'] + tail;
        assert(pre + ep + suf2 =~= s);
        lemma_starts(pre, ep, suf2);
        assert(ep[0] == '"');
        assert(s[i] == '"');
        assert(suf2.len() > 0);
        assert(!is_digit(suf2[0])) by {
            if 1 < ps.len() {
                assert(enc_pairs_from(ps, 1) == seq![','] + enc_pair(ps[1]) + enc_pairs_from(
                    ps,
                    2,
                ));
                assert(suf2[0] == ',');
            } else {
                assert(enc_pairs_from(ps, 1) =~= Seq::<char>::empty());
                assert(suf2[0] == '}');
            }
        }
        lemma_sp_pair_planted(pre, k, v, suf2);
        let j = pre.len() + ep.len();
        assert(sp_pair(s, i) == Some(((k, v), j as int)));
        assert(seq![(k, v)] =~= ps.take(1));
        lemma_sp_pairs_rest_planted(ps, 1, pre + ep, tail);
        assert((pre + ep) + enc_pairs_from(ps, 1) + seq!['}'] + tail =~= s);
        assert(sp_pairs_rest(s, j as int, ps.take(1)) == Some(
            (ps, ((pre + ep).len() + enc_pairs_from(ps, 1).len() + 1) as int),
        ));
        assert((pre + ep).len() + enc_pairs_from(ps, 1).len() + 1 == pre.len()
            + enc_events(ps).len() + 1);
    }
}

proof fn lemma_rt_lit1(v: StatsGhost)
    ensures
        sp_lit(spec_encode(v), 0, lit_total_keys()) == Some(14int),
{
    let s = spec_encode(v);
    let a1 = lit_total_keys();
    let r1 = dec_rep(v.total_keys) + lit_total_clicks() + dec_rep(v.total_clicks)
        + lit_total_wheels() + dec_rep(v.total_wheels) + lit_events() + enc_events(v.events)
        + seq!['}', '}'];
    assert(Seq::<char>::empty() + a1 + r1 =~= s);
    lemma_starts(Seq::<char>::empty(), a1, r1);
}

proof fn lemma_rt_num1(v: StatsGhost)
    ensures
        sp_num(spec_encode(v), 14) == Some(
            (v.total_keys, (14 + dec_rep(v.total_keys).len()) as int),
        ),
{
    let s = spec_encode(v);
    let a1 = lit_total_keys();
    let n1 = dec_rep(v.total_keys);
    let r2 = lit_total_clicks() + dec_rep(v.total_clicks) + lit_total_wheels() + dec_rep(
        v.total_wheels,
    ) + lit_events() + enc_events(v.events) + seq!['}', '}'];
    assert(a1 + n1 + r2 =~= s);
    lemma_starts(a1, n1, r2);
    assert(s[14 + n1.len() as int] == r2[0]) by {
        assert((a1 + n1) + r2 + Seq::<char>::empty() =~= s);
        lemma_starts(a1 + n1, r2, Seq::<char>::empty());
    }
    lemma_sp_num_planted(s, 14, v.total_keys);
}

proof fn lemma_rt_lit2(v: StatsGhost)
    ensures
        sp_lit(spec_encode(v), (14 + dec_rep(v.total_keys).len()) as int, lit_total_clicks())
            == Some((30 + dec_rep(v.total_keys).len()) as int),
{
    let s = spec_encode(v);
    let q2 = lit_total_keys() + dec_rep(v.total_keys);
    let r3 = dec_rep(v.total_clicks) + lit_total_wheels() + dec_rep(v.total_wheels)
        + lit_events() + enc_events(v.events) + seq!['}', '}'];
    assert(q2 + lit_total_clicks() + r3 =~= s);
    lemma_starts(q2, lit_total_clicks(), r3);
}

proof fn lemma_rt_num2(v: StatsGhost)
    ensures
        sp_num(spec_encode(v), (30 + dec_rep(v.total_keys).len()) as int) == Some(
            (
                v.total_clicks,
                (30 + dec_rep(v.total_keys).len() + dec_rep(v.total_clicks).len()) as int,
            ),
        ),
{
    let s = spec_encode(v);
    let q3 = lit_total_keys() + dec_rep(v.total_keys) + lit_total_clicks();
    let n2 = dec_rep(v.total_clicks);
    let r4 = lit_total_wheels() + dec_rep(v.total_wheels) + lit_events() + enc_events(v.events)
        + seq!['}', '}'];
    assert(q3 + n2 + r4 =~= s);
    lemma_starts(q3, n2, r4);
    assert(s[(q3.len() + n2.len()) as int] == r4[0]) by {
        assert((q3 + n2) + r4 + Seq::<char>::empty() =~= s);
        lemma_starts(q3 + n2, r4, Seq::<char>::empty());
    }
    lemma_sp_num_planted(s, q3.len() as int, v.total_clicks);
}

proof fn lemma_rt_lit3(v: StatsGhost)
    ensures
        sp_lit(
            spec_encode(v),
            (30 + dec_rep(v.total_keys).len() + dec_rep(v.total_clicks).len()) as int,
            lit_total_wheels(),
        ) == Some(
            (46 + dec_rep(v.total_keys).len() + dec_rep(v.total_clicks).len()) as int,
        ),
{
    let s = spec_encode(v);
    let q4 = lit_total_keys() + dec_rep(v.total_keys) + lit_total_clicks() + dec_rep(
        v.total_clicks,
    );
    let r5 = dec_rep(v.total_wheels) + lit_events() + enc_events(v.events) + seq!['}', '}'];
    assert(q4 + lit_total_wheels() + r5 =~= s);
    lemma_starts(q4, lit_total_wheels(), r5);
}

proof fn lemma_rt_num3(v: StatsGhost)
    ensures
        sp_num(
            spec_encode(v),
            (46 + dec_rep(v.total_keys).len() + dec_rep(v.total_clicks).len()) as int,
        ) == Some(
            (
                v.total_wheels,
                (46 + dec_rep(v.total_keys).len() + dec_rep(v.total_clicks).len() + dec_rep(
                    v.total_wheels,
                ).len()) as int,
            ),
        ),
{
    let s = spec_encode(v);
    let q5 = lit_total_keys() + dec_rep(v.total_keys) + lit_total_clicks() + dec_rep(
        v.total_clicks,
    ) + lit_total_wheels();
    let n3 = dec_rep(v.total_wheels);
    let r6 = lit_events() + enc_events(v.events) + seq!['}', '}'];
    assert(q5 + n3 + r6 =~= s);
    lemma_starts(q5, n3, r6);
    assert(s[(q5.len() + n3.len()) as int] == r6[0]) by {
        assert((q5 + n3) + r6 + Seq::<char>::empty() =~= s);
        lemma_starts(q5 + n3, r6, Seq::<char>::empty());
    }
    lemma_sp_num_planted(s, q5.len() as int, v.total_wheels);
}

#[verifier::spinoff_prover]
#[verifier::rlimit(100)]
proof fn lemma_rt_lit4(v: StatsGhost)
    ensures
        sp_lit(
            spec_encode(v),
            (46 + dec_rep(v.total_keys).len() + dec_rep(v.total_clicks).len() + dec_rep(
                v.total_wheels,
            ).len()) as int,
            lit_events(),
        ) == Some(
            (57 + dec_rep(v.total_keys).len() + dec_rep(v.total_clicks).len() + dec_rep(
                v.total_wheels,
            ).len()) as int,
        ),
{
    let s = spec_encode(v);
    let q6 = lit_total_keys() + dec_rep(v.total_keys) + lit_total_clicks() + dec_rep(
        v.total_clicks,
    ) + lit_total_wheels() + dec_rep(v.total_wheels);
    let r7 = enc_events(v.events) + seq!['}', '}'];
    assert(q6 + lit_events() + r7 =~= s);
    lemma_starts(q6, lit_events(), r7);
}

proof fn lemma_rt_events(v: StatsGhost)
    requires
        wire_wf(v),
    ensures
        sp_events(
            spec_encode(v),
            (57 + dec_rep(v.total_keys).len() + dec_rep(v.total_clicks).len() + dec_rep(
                v.total_wheels,
            ).len()) as int,
        ) == Some(
            (
                v.events,
                (58 + dec_rep(v.total_keys).len() + dec_rep(v.total_clicks).len() + dec_rep(
                    v.total_wheels,
                ).len() + enc_events(v.events).len()) as int,
            ),
        ),
{
    let s = spec_encode(v);
    let q7 = lit_total_keys() + dec_rep(v.total_keys) + lit_total_clicks() + dec_rep(
        v.total_clicks,
    ) + lit_total_wheels() + dec_rep(v.total_wheels) + lit_events();
    assert(q7 + enc_events(v.events) + seq!['}'] + seq!['}'] =~= s);
    lemma_sp_events_planted(v.events, q7, seq!['}']);
}

proof fn lemma_rt_close(v: StatsGhost)
    ensures
        ({
            let last_pos = (58 + dec_rep(v.total_keys).len() + dec_rep(v.total_clicks).len() + dec_rep(
                v.total_wheels,
            ).len() + enc_events(v.events).len()) as int;
            0 <= last_pos < spec_encode(v).len() && spec_encode(v)[last_pos as int] == '}' && last_pos + 1
                == spec_encode(v).len()
        }),
{
    let s = spec_encode(v);
    let q8 = lit_total_keys() + dec_rep(v.total_keys) + lit_total_clicks() + dec_rep(
        v.total_clicks,
    ) + lit_total_wheels() + dec_rep(v.total_wheels) + lit_events() + enc_events(v.events)
        + seq!['}'];
    assert(q8 + seq!['}'] + Seq::<char>::empty() =~= s);
    lemma_starts(q8, seq!['}'], Seq::<char>::empty());
}

/// Assembling the stages: a document whose tokens parse as a snapshot's
/// fields parses as that snapshot.
proof fn lemma_rt_assemble(
    s: Seq<char>,
    v: StatsGhost,
    p1: int,
    p2: int,
    p3: int,
    p4: int,
    p5: int,
    p6: int,
    p7: int,
    p8: int,
)
    requires
        sp_lit(s, 0, lit_total_keys()) == Some(p1),
        sp_num(s, p1) == Some((v.total_keys, p2)),
        sp_lit(s, p2, lit_total_clicks()) == Some(p3),
        sp_num(s, p3) == Some((v.total_clicks, p4)),
        sp_lit(s, p4, lit_total_wheels()) == Some(p5),
        sp_num(s, p5) == Some((v.total_wheels, p6)),
        sp_lit(s, p6, lit_events()) == Some(p7),
        sp_events(s, p7) == Some((v.events, p8)),
        0 <= p8 < s.len(),
        s[p8] == '}',
        p8 + 1 == s.len(),
    ensures
        sp_stats(s) == Some(v),
{
    assert(StatsGhost {
        total_keys: v.total_keys,
        total_clicks: v.total_clicks,
        total_wheels: v.total_wheels,
        events: v.events,
    } =~= v);
}

/// The round trip: a well-formed snapshot, written in its canonical
/// document form, parses back to exactly itself.
pub proof fn lemma_round_trip(v: StatsGhost)
    requires
        wire_wf(v),
    ensures
        sp_stats(spec_encode(v)) == Some(v),
{
    let s = spec_encode(v);
    let l1 = dec_rep(v.total_keys).len() as int;
    let l2 = dec_rep(v.total_clicks).len() as int;
    let l3 = dec_rep(v.total_wheels).len() as int;
    let le = enc_events(v.events).len() as int;
    lemma_rt_lit1(v);
    lemma_rt_num1(v);
    lemma_rt_lit2(v);
    lemma_rt_num2(v);
    lemma_rt_lit3(v);
    lemma_rt_num3(v);
    lemma_rt_lit4(v);
    lemma_rt_events(v);
    lemma_rt_close(v);
    lemma_rt_assemble(
        s,
        v,
        14,
        14 + l1,
        30 + l1,
        30 + l1 + l2,
        46 + l1 + l2,
        46 + l1 + l2 + l3,
        57 + l1 + l2 + l3,
        58 + l1 + l2 + l3 + le,
    );
}

/// Read a snapshot from its canonical document form; `None` on
/// anything else, exactly as the spec parser decides. Only the exact
/// canonical form is accepted — no insignificant whitespace, no other
/// field order, no escapes — which is intended: every document this
/// system reads was produced by `encode_stats`.
pub fn parse_stats(s: &str) -> (r: Option<Stats>)
    ensures
        match r {
            Some(st) => sp_stats(s@) == Some(st@) && st@.wf() && keys_plain(st@.events),
            None => sp_stats(s@) is None,
        },
{
    let n = s.unicode_len();
    let lit1 = "{\"total_keys\":";
    proof {
        reveal_strlit("{\"total_keys\":");
        assert(lit1@ =~= lit_total_keys());
    }
    let i1 = match p_lit(s, 0, n, lit1) {
        Some(j) => j,
        None => {
            return None;
        },
    };
    let (tk, i2) = match p_num(s, i1, n) {
        Some(x) => x,
        None => {
            return None;
        },
    };
    let lit2 = ",\"total_clicks\":";
    proof {
        reveal_strlit(",\"total_clicks\":");
        assert(lit2@ =~= lit_total_clicks());
    }
    let i3 = match p_lit(s, i2, n, lit2) {
        Some(j) => j,
        None => {
            return None;
        },
    };
    let (tc, i4) = match p_num(s, i3, n) {
        Some(x) => x,
        None => {
            return None;
        },
    };
    let lit3 = ",\"total_wheels\":";
    proof {
        reveal_strlit(",\"total_wheels\":");
        assert(lit3@ =~= lit_total_wheels());
    }
    let i5 = match p_lit(s, i4, n, lit3) {
        Some(j) => j,
        None => {
            return None;
        },
    };
    let (tw, i6) = match p_num(s, i5, n) {
        Some(x) => x,
        None => {
            return None;
        },
    };
    let lit4 = ",\"events\":{";
    proof {
        reveal_strlit(",\"events\":{");
        assert(lit4@ =~= lit_events());
    }
    let i7 = match p_lit(s, i6, n, lit4) {
        Some(j) => j,
        None => {
            return None;
        },
    };
    let (es, last_pos) = match p_events(s, i7, n) {
        Some(x) => x,
        None => {
            return None;
        },
    };
    if last_pos < n {
        if s.get_char(last_pos) == '}' {
            if last_pos + 1 == n {
                let st = Stats { total_keys: tk, total_clicks: tc, total_wheels: tw, events: es };
                proof {
                    lemma_sp_events_keys(s@, i7 as int);
                    assert(st@ =~= StatsGhost {
                        total_keys: tk,
                        total_clicks: tc,
                        total_wheels: tw,
                        events: spec_view_pairs(es@),
                    });
                }
                return Some(st);
            }
        }
    }
    None
}

} // verus!
