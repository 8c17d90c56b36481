//! Parsing of the Esri ASCII grid text format.
//!
//! A grid file is a whitespace-separated token stream: header fields
//! `ncols`, `nrows`, `xllcorner` (or `xllcenter`), `yllcorner` (or
//! `yllcenter`), `cellsize`, an optional `nodata_value` (keywords matched
//! case-insensitively, each followed by its numeric value), and then
//! `nrows * ncols` data values, row-major from north to south.
//!
//! Numbers are decimals with up to 12 integer digits and up to 6 fraction
//! digits, held exactly in millionths (micro-units), so the no-data
//! sentinel comparison is exact equality of the written values.
//! `spec_parse` is the whole grammar as one total function; `parse_grid`
//! returns exactly what it says, value or error.

use vstd::prelude::*;

use crate::error::GridError;
use crate::grid::Grid;

verus! {

/// ASCII whitespace as the format separates tokens: space, tab, line feed,
/// vertical tab, form feed, carriage return.
pub open spec fn is_ws(b: u8) -> bool {
    b == 32 || b == 9 || b == 10 || b == 11 || b == 12 || b == 13
}

/// Length of the maximal non-whitespace prefix of `s`.
pub open spec fn token_len(s: Seq<u8>) -> nat
    decreases s.len(),
{
    if s.len() == 0 || is_ws(s[0]) {
        0
    } else {
        1 + token_len(s.skip(1))
    }
}

/// The whitespace-separated tokens of `s`, in order.
pub open spec fn tokens(s: Seq<u8>) -> Seq<Seq<u8>>
    decreases s.len(),
{
    if s.len() == 0 {
        Seq::empty()
    } else if is_ws(s[0]) {
        tokens(s.skip(1))
    } else {
        proof {
            lemma_token_len_le(s);
        }
        seq![s.take(token_len(s) as int)] + tokens(s.skip(token_len(s) as int))
    }
}

/// The maximal non-whitespace prefix never runs past the end.
pub proof fn lemma_token_len_le(s: Seq<u8>)
    ensures
        token_len(s) <= s.len(),
    decreases s.len(),
{
    if s.len() != 0 && !is_ws(s[0]) {
        lemma_token_len_le(s.skip(1));
    }
}

/// A scan that stops at position `k` (the first whitespace byte, or the
/// end) has found the token length.
proof fn lemma_token_len_at(s: Seq<u8>, k: int)
    requires
        0 <= k <= s.len(),
        forall|j: int| 0 <= j < k ==> !is_ws(s[j]),
        k == s.len() || is_ws(s[k]),
    ensures
        token_len(s) == k,
    decreases k,
{
    if k == 0 {
    } else {
        assert(!is_ws(s[0]));
        lemma_token_len_at(s.skip(1), k - 1);
    }
}

/// The byte views of a list of owned tokens.
pub open spec fn views_of(ts: Seq<Vec<u8>>) -> Seq<Seq<u8>> {
    Seq::new(ts.len(), |i: int| ts[i]@)
}

/// Exec check of one byte's whitespace-ness.
pub fn ws_byte(b: u8) -> (r: bool)
    ensures
        r == is_ws(b),
{
    b == 32 || b == 9 || b == 10 || b == 11 || b == 12 || b == 13
}

/// Splits the text into its whitespace-separated tokens.
#[verifier::loop_isolation(false)]
pub fn tokenize(text: &Vec<u8>) -> (toks: Vec<Vec<u8>>)
    ensures
        views_of(toks@) == tokens(text@),
{
    let n: usize = text.len();
    let mut toks: Vec<Vec<u8>> = Vec::new();
    let mut i: usize = 0;
    proof {
        assert(text@.skip(0) =~= text@);
        assert(views_of(toks@) =~~= Seq::<Seq<u8>>::empty());
        assert(views_of(toks@) + tokens(text@) =~~= tokens(text@));
    }
    while i < n
        invariant
            i <= n,
            n == text@.len(),
            tokens(text@) == views_of(toks@) + tokens(text@.skip(i as int)),
        decreases n - i,
    {
        if ws_byte(text[i]) {
            proof {
                assert(text@.skip(i as int).skip(1) =~= text@.skip(i + 1));
            }
            i = i + 1;
        } else {
            let ghost start = i as int;
            let mut tok: Vec<u8> = Vec::new();
            tok.push(text[i]);
            let mut j: usize = i + 1;
            while j < n && !ws_byte(text[j])
                invariant
                    i < n,
                    i < j <= n,
                    n == text@.len(),
                    tok@ == text@.subrange(i as int, j as int),
                    forall|m: int| i <= m < j ==> !is_ws(text@[m]),
                decreases n - j,
            {
                tok.push(text[j]);
                proof {
                    assert(tok@ =~= text@.subrange(i as int, j + 1));
                }
                j = j + 1;
            }
            proof {
                let rest = text@.skip(i as int);
                assert(forall|m: int|
                    0 <= m < j - i ==> rest[m] == text@[i + m] && !is_ws(rest[m]));
                if j < n {
                    assert(is_ws(rest[j - i]));
                }
                lemma_token_len_at(rest, j - i);
                assert(rest.take(j - i) =~= text@.subrange(i as int, j as int));
                assert(rest.skip(j - i) =~= text@.skip(j as int));
                assert(tokens(rest) == seq![tok@] + tokens(text@.skip(j as int)));
                assert(views_of(toks@.push(tok)) =~~= views_of(toks@) + seq![tok@]);
                assert((views_of(toks@) + seq![tok@]) + tokens(text@.skip(j as int))
                    =~~= views_of(toks@) + (seq![tok@] + tokens(text@.skip(j as int))));
            }
            toks.push(tok);
            i = j;
        }
    }
    proof {
        assert(text@.skip(n as int) =~= Seq::<u8>::empty());
        assert(tokens(text@.skip(n as int)) =~= Seq::<Seq<u8>>::empty());
        assert(views_of(toks@) + tokens(text@.skip(n as int)) =~~= views_of(toks@));
    }
    toks
}

/// Lower-cases one ASCII byte.
pub open spec fn lower(b: u8) -> u8 {
    if 65 <= b <= 90 {
        (b + 32) as u8
    } else {
        b
    }
}

/// Exec lower-casing of one ASCII byte.
fn low(b: u8) -> (r: u8)
    ensures
        r == lower(b),
{
    if 65 <= b && b <= 90 {
        b + 32
    } else {
        b
    }
}

/// Whether `t` spells `ncols`, ignoring case.
pub open spec fn is_kw_ncols(t: Seq<u8>) -> bool {
    t.len() == 5 && lower(t[0]) == 110 && lower(t[1]) == 99 && lower(t[2]) == 111 && lower(t[3])
        == 108 && lower(t[4]) == 115
}

/// Whether `t` spells `nrows`, ignoring case.
pub open spec fn is_kw_nrows(t: Seq<u8>) -> bool {
    t.len() == 5 && lower(t[0]) == 110 && lower(t[1]) == 114 && lower(t[2]) == 111 && lower(t[3])
        == 119 && lower(t[4]) == 115
}

/// Whether `t` spells `xllcorner` or `xllcenter`, ignoring case.
pub open spec fn is_kw_xll(t: Seq<u8>) -> bool {
    t.len() == 9 && lower(t[0]) == 120 && is_kw_ll_tail(t)
}

/// Whether `t` spells `yllcorner` or `yllcenter`, ignoring case.
pub open spec fn is_kw_yll(t: Seq<u8>) -> bool {
    t.len() == 9 && lower(t[0]) == 121 && is_kw_ll_tail(t)
}

/// The `llcorner` / `llcenter` tail shared by the two corner keywords.
pub open spec fn is_kw_ll_tail(t: Seq<u8>) -> bool {
    t.len() == 9 && lower(t[1]) == 108 && lower(t[2]) == 108 && lower(t[3]) == 99 && ((lower(t[4])
        == 111 && lower(t[5]) == 114 && lower(t[6]) == 110 && lower(t[7]) == 101 && lower(t[8])
        == 114) || (lower(t[4]) == 101 && lower(t[5]) == 110 && lower(t[6]) == 116 && lower(t[7])
        == 101 && lower(t[8]) == 114))
}

/// Whether `t` spells `cellsize`, ignoring case.
pub open spec fn is_kw_cellsize(t: Seq<u8>) -> bool {
    t.len() == 8 && lower(t[0]) == 99 && lower(t[1]) == 101 && lower(t[2]) == 108 && lower(t[3])
        == 108 && lower(t[4]) == 115 && lower(t[5]) == 105 && lower(t[6]) == 122 && lower(t[7])
        == 101
}

/// Whether `t` spells `nodata_value`, ignoring case.
pub open spec fn is_kw_nodata(t: Seq<u8>) -> bool {
    t.len() == 12 && lower(t[0]) == 110 && lower(t[1]) == 111 && lower(t[2]) == 100 && lower(t[3])
        == 97 && lower(t[4]) == 116 && lower(t[5]) == 97 && lower(t[6]) == 95 && lower(t[7]) == 118
        && lower(t[8]) == 97 && lower(t[9]) == 108 && lower(t[10]) == 117 && lower(t[11]) == 101
}

/// Exec check against `ncols`.
fn kw_ncols(t: &Vec<u8>) -> (r: bool)
    ensures
        r == is_kw_ncols(t@),
{
    t.len() == 5 && low(t[0]) == 110 && low(t[1]) == 99 && low(t[2]) == 111 && low(t[3]) == 108
        && low(t[4]) == 115
}

/// Exec check against `nrows`.
fn kw_nrows(t: &Vec<u8>) -> (r: bool)
    ensures
        r == is_kw_nrows(t@),
{
    t.len() == 5 && low(t[0]) == 110 && low(t[1]) == 114 && low(t[2]) == 111 && low(t[3]) == 119
        && low(t[4]) == 115
}

/// Exec check against the shared `llcorner` / `llcenter` tail.
fn kw_ll_tail(t: &Vec<u8>) -> (r: bool)
    requires
        t@.len() == 9,
    ensures
        r == is_kw_ll_tail(t@),
{
    low(t[1]) == 108 && low(t[2]) == 108 && low(t[3]) == 99 && ((low(t[4]) == 111 && low(t[5])
        == 114 && low(t[6]) == 110 && low(t[7]) == 101 && low(t[8]) == 114) || (low(t[4]) == 101
        && low(t[5]) == 110 && low(t[6]) == 116 && low(t[7]) == 101 && low(t[8]) == 114))
}

/// Exec check against `xllcorner` / `xllcenter`.
fn kw_xll(t: &Vec<u8>) -> (r: bool)
    ensures
        r == is_kw_xll(t@),
{
    t.len() == 9 && low(t[0]) == 120 && kw_ll_tail(t)
}

/// Exec check against `yllcorner` / `yllcenter`.
fn kw_yll(t: &Vec<u8>) -> (r: bool)
    ensures
        r == is_kw_yll(t@),
{
    t.len() == 9 && low(t[0]) == 121 && kw_ll_tail(t)
}

/// Exec check against `cellsize`.
fn kw_cellsize(t: &Vec<u8>) -> (r: bool)
    ensures
        r == is_kw_cellsize(t@),
{
    t.len() == 8 && low(t[0]) == 99 && low(t[1]) == 101 && low(t[2]) == 108 && low(t[3]) == 108
        && low(t[4]) == 115 && low(t[5]) == 105 && low(t[6]) == 122 && low(t[7]) == 101
}

/// Exec check against `nodata_value`.
fn kw_nodata(t: &Vec<u8>) -> (r: bool)
    ensures
        r == is_kw_nodata(t@),
{
    t.len() == 12 && low(t[0]) == 110 && low(t[1]) == 111 && low(t[2]) == 100 && low(t[3]) == 97
        && low(t[4]) == 116 && low(t[5]) == 97 && low(t[6]) == 95 && low(t[7]) == 118 && low(t[8])
        == 97 && low(t[9]) == 108 && low(t[10]) == 117 && low(t[11]) == 101
}

/// Whether `b` is an ASCII decimal digit.
pub open spec fn is_digit(b: u8) -> bool {
    48 <= b <= 57
}

/// Every byte of `s` is a decimal digit.
pub open spec fn all_digits(s: Seq<u8>) -> bool {
    forall|j: int| 0 <= j < s.len() ==> is_digit(s[j])
}

/// The number a digit string denotes, most significant digit first.
pub open spec fn digits_val(s: Seq<u8>) -> int
    decreases s.len(),
{
    if s.len() == 0 {
        0
    } else {
        digits_val(s.drop_last()) * 10 + (s.last() - 48)
    }
}

/// Ten to the `n`.
pub open spec fn pow10(n: nat) -> int
    decreases n,
{
    if n == 0 {
        1
    } else {
        10 * pow10((n - 1) as nat)
    }
}

/// The small powers of ten, spelled out.
proof fn lemma_pow10_vals()
    ensures
        pow10(0) == 1,
        pow10(1) == 10,
        pow10(2) == 100,
        pow10(3) == 1000,
        pow10(4) == 10000,
        pow10(5) == 100000,
        pow10(6) == 1000000,
        pow10(9) == 1000000000,
        pow10(11) == 100000000000,
        pow10(12) == 1000000000000,
{
    reveal_with_fuel(pow10, 13);
}

/// A digit string of length `n` denotes a value in `0 .. 10^n`.
proof fn lemma_digits_bound(s: Seq<u8>)
    requires
        all_digits(s),
    ensures
        0 <= digits_val(s) < pow10(s.len()),
    decreases s.len(),
{
    if s.len() == 0 {
    } else {
        assert(all_digits(s.drop_last())) by {
            assert(forall|j: int| 0 <= j < s.len() - 1 ==> s.drop_last()[j] == s[j]);
        }
        lemma_digits_bound(s.drop_last());
        assert(is_digit(s.last()));
    }
}

/// Extending a digit prefix by one byte shifts its value by one place.
proof fn lemma_digits_take_step(s: Seq<u8>, m: int)
    requires
        0 <= m < s.len(),
    ensures
        digits_val(s.take(m + 1)) == digits_val(s.take(m)) * 10 + (s[m] - 48),
{
    assert(s.take(m + 1).drop_last() =~= s.take(m));
    assert(s.take(m + 1).last() == s[m]);
}

/// Index of the first `.` of `s`, or `-1` when there is none.
pub open spec fn find_dot(s: Seq<u8>) -> int
    decreases s.len(),
{
    if s.len() == 0 {
        -1
    } else if s[0] == 46 {
        0
    } else {
        let r = find_dot(s.skip(1));
        if r == -1 {
            -1
        } else {
            r + 1
        }
    }
}

/// A scan that stops at position `k` (the first `.`, or the end) has found
/// `find_dot`.
proof fn lemma_find_dot_at(s: Seq<u8>, k: int)
    requires
        0 <= k <= s.len(),
        forall|j: int| 0 <= j < k ==> s[j] != 46,
        k == s.len() || s[k] == 46,
    ensures
        find_dot(s) == if k == s.len() {
            -1
        } else {
            k
        },
    decreases k,
{
    if k == 0 {
    } else {
        assert(s[0] != 46);
        lemma_find_dot_at(s.skip(1), k - 1);
    }
}

/// The micro-unit value of an unsigned decimal token: up to 12 integer
/// digits, and when a `.` is present, 1 to 6 fraction digits.
pub open spec fn spec_number_body(t: Seq<u8>) -> Option<int> {
    let d = find_dot(t);
    if d == -1 {
        if 1 <= t.len() <= 12 && all_digits(t) {
            Some(digits_val(t) * 1000000)
        } else {
            None
        }
    } else {
        let ip = t.take(d);
        let fp = t.skip(d + 1);
        if 1 <= ip.len() <= 12 && 1 <= fp.len() <= 6 && all_digits(ip) && all_digits(fp) {
            Some(digits_val(ip) * 1000000 + digits_val(fp) * pow10((6 - fp.len()) as nat))
        } else {
            None
        }
    }
}

/// The micro-unit value of a decimal token with an optional sign.
pub open spec fn spec_number(t: Seq<u8>) -> Option<int> {
    if t.len() >= 1 && t[0] == 45 {
        match spec_number_body(t.skip(1)) {
            Some(v) => Some(-v),
            None => None,
        }
    } else if t.len() >= 1 && t[0] == 43 {
        spec_number_body(t.skip(1))
    } else {
        spec_number_body(t)
    }
}

/// The value of a dimension token: 1 to 9 plain digits.
pub open spec fn spec_count(t: Seq<u8>) -> Option<int> {
    if 1 <= t.len() <= 9 && all_digits(t) {
        Some(digits_val(t))
    } else {
        None
    }
}

/// Parses a dimension token.
#[verifier::loop_isolation(false)]
fn parse_count_tok(t: &Vec<u8>) -> (r: Option<usize>)
    ensures
        match r {
            Some(v) => spec_count(t@) == Some(v as int),
            None => spec_count(t@) is None,
        },
{
    let n: usize = t.len();
    if n == 0 || n > 9 {
        return None;
    }
    let mut acc: u64 = 0;
    let mut j: usize = 0;
    while j < n
        invariant
            0 <= j <= n,
            n == t@.len(),
            n <= 9,
            forall|m: int| 0 <= m < j ==> is_digit(t@[m]),
            acc == digits_val(t@.take(j as int)),
            acc < pow10(j as nat),
        decreases n - j,
    {
        let b: u8 = t[j];
        if b < 48 || b > 57 {
            assert(!all_digits(t@));
            return None;
        }
        proof {
            lemma_digits_take_step(t@, j as int);
            lemma_pow10_vals();
            assert(pow10((j + 1) as nat) == 10 * pow10(j as nat));
            assert(acc as int * 10 + (b - 48) < 10 * pow10(j as nat));
        }
        acc = acc * 10 + ((b - 48) as u64);
        j = j + 1;
    }
    proof {
        assert(t@.take(n as int) =~= t@);
        lemma_pow10_vals();
    }
    Some(acc as usize)
}

/// Parses the unsigned decimal body of a number token, starting at `start`.
#[verifier::loop_isolation(false)]
fn parse_body(t: &Vec<u8>, start: usize) -> (r: Option<u64>)
    requires
        start <= t@.len(),
    ensures
        match r {
            Some(m) => spec_number_body(t@.skip(start as int)) == Some(m as int) && m
                <= 999999999999999999,
            None => spec_number_body(t@.skip(start as int)) is None,
        },
{
    let ghost body = t@.skip(start as int);
    let n: usize = t.len();
    let mut p: usize = start;
    while p < n && t[p] != 46
        invariant
            start <= p <= n,
            n == t@.len(),
            forall|j: int| start <= j < p ==> t@[j] != 46,
        decreases n - p,
    {
        p = p + 1;
    }
    proof {
        assert(forall|j: int| 0 <= j < p - start ==> body[j] == t@[start + j]);
        lemma_find_dot_at(body, p - start);
    }
    let ghost d = find_dot(body);
    let iplen: usize = p - start;
    if iplen == 0 || iplen > 12 {
        return None;
    }
    let mut acc: u64 = 0;
    let mut j: usize = start;
    while j < p
        invariant
            start <= j <= p <= n,
            n == t@.len(),
            iplen == p - start,
            iplen <= 12,
            body == t@.skip(start as int),
            forall|m: int| 0 <= m < j - start ==> is_digit(body[m]),
            acc == digits_val(body.take(j - start)),
            acc < pow10((j - start) as nat),
        decreases p - j,
    {
        let b: u8 = t[j];
        assert(body[j - start] == t@[j as int]);
        if b < 48 || b > 57 {
            proof {
                if d == -1 {
                    assert(!all_digits(body));
                } else {
                    assert(body.take(d)[j - start] == body[j - start]);
                    assert(!all_digits(body.take(d)));
                }
            }
            return None;
        }
        proof {
            lemma_digits_take_step(body, j - start);
            lemma_pow10_vals();
            assert(pow10((j - start + 1) as nat) == 10 * pow10((j - start) as nat));
        }
        acc = acc * 10 + ((b - 48) as u64);
        j = j + 1;
    }
    proof {
        lemma_pow10_vals();
        lemma_pow10_mono(iplen as nat, 12);
    }
    if p == n {
        proof {
            assert(body.take(p - start) =~= body);
        }
        let micro: u64 = acc * 1000000;
        proof {
            lemma_pow10_vals();
        }
        return Some(micro);
    }
    // A dot sits at position p; fraction digits follow.
    let flen: usize = n - p - 1;
    let ghost fp = body.skip(d + 1);
    proof {
        assert(fp.len() == flen);
    }
    if flen == 0 || flen > 6 {
        return None;
    }
    let mut fa: u64 = 0;
    let mut k: usize = p + 1;
    while k < n
        invariant
            p + 1 <= k <= n,
            n == t@.len(),
            flen == n - p - 1,
            flen <= 6,
            start <= p < n,
            d == p - start,
            body == t@.skip(start as int),
            fp == body.skip(d + 1),
            forall|m: int| 0 <= m < k - p - 1 ==> is_digit(fp[m]),
            fa == digits_val(fp.take(k - p - 1)),
            fa < pow10((k - p - 1) as nat),
        decreases n - k,
    {
        let b: u8 = t[k];
        assert(fp[k - p - 1] == t@[k as int]);
        if b < 48 || b > 57 {
            assert(!all_digits(fp));
            return None;
        }
        proof {
            lemma_digits_take_step(fp, k - p - 1);
            lemma_pow10_vals();
            assert(pow10((k - p) as nat) == 10 * pow10((k - p - 1) as nat));
        }
        fa = fa * 10 + ((b - 48) as u64);
        k = k + 1;
    }
    proof {
        assert(fp.take(flen as int) =~= fp);
        assert(body.take(d) =~= body.take(p - start));
    }
    proof {
        lemma_pow10_vals();
    }
    let scale: u64 = if flen == 1 {
        assert(fa < 10 && pow10((6 - flen) as nat) == 100000);
        100000
    } else if flen == 2 {
        assert(fa < 100 && pow10((6 - flen) as nat) == 10000);
        10000
    } else if flen == 3 {
        assert(fa < 1000 && pow10((6 - flen) as nat) == 1000);
        1000
    } else if flen == 4 {
        assert(fa < 10000 && pow10((6 - flen) as nat) == 100);
        100
    } else if flen == 5 {
        assert(fa < 100000 && pow10((6 - flen) as nat) == 10);
        10
    } else {
        assert(fa < 1000000 && pow10((6 - flen) as nat) == 1);
        1
    };
    assert(scale == pow10((6 - flen) as nat) && fa * scale < 1000000);
    let micro: u64 = acc * 1000000 + fa * scale;
    Some(micro)
}

/// Powers of ten grow with the exponent.
proof fn lemma_pow10_mono(a: nat, b: nat)
    requires
        a <= b,
    ensures
        pow10(a) <= pow10(b),
    decreases b,
{
    if a < b {
        lemma_pow10_mono(a, (b - 1) as nat);
        assert(pow10(b) == 10 * pow10((b - 1) as nat));
        assert(pow10(a) >= 1) by {
            lemma_pow10_pos(a);
        }
        assert(pow10((b - 1) as nat) >= 1) by {
            lemma_pow10_pos((b - 1) as nat);
        }
    }
}

/// Powers of ten are positive.
proof fn lemma_pow10_pos(a: nat)
    ensures
        pow10(a) >= 1,
    decreases a,
{
    if a > 0 {
        lemma_pow10_pos((a - 1) as nat);
    }
}

/// Parses one number token into micro-units.
pub fn parse_number_tok(t: &Vec<u8>) -> (r: Option<i64>)
    ensures
        match r {
            Some(v) => spec_number(t@) == Some(v as int),
            None => spec_number(t@) is None,
        },
{
    let n: usize = t.len();
    let mut neg: bool = false;
    let mut start: usize = 0;
    if n >= 1 && (t[0] == 45 || t[0] == 43) {
        neg = t[0] == 45;
        start = 1;
    }
    proof {
        assert(t@.skip(0) =~= t@);
    }
    match parse_body(t, start) {
        Some(m) => {
            let v: i64 = if neg {
                -(m as i64)
            } else {
                m as i64
            };
            Some(v)
        },
        None => None,
    }
}

/// Maps owned elevations to their mathematical values.
pub open spec fn to_ints(s: Seq<i64>) -> Seq<int> {
    Seq::new(s.len(), |i: int| s[i] as int)
}

/// The view of an optional sentinel.
pub open spec fn to_int_opt(o: Option<i64>) -> Option<int> {
    match o {
        Some(v) => Some(v as int),
        None => None,
    }
}

/// Every data token parses as a number.
pub open spec fn all_values_ok(ts: Seq<Seq<u8>>) -> bool {
    forall|j: int| 0 <= j < ts.len() ==> spec_number(ts[j]) is Some
}

/// The parsed micro-unit values of the data tokens.
pub open spec fn values_of(ts: Seq<Seq<u8>>) -> Seq<int> {
    Seq::new(
        ts.len(),
        |j: int|
            match spec_number(ts[j]) {
                Some(v) => v,
                None => 0,
            },
    )
}

/// Which count error a wrong number of data values earns: values that do
/// not fill whole rows are a column mismatch, whole rows of the wrong
/// number a row mismatch.
pub open spec fn count_err(n: int, cols: int) -> GridError {
    if cols > 0 && !(n % cols == 0) {
        GridError::ColumnCountMismatch
    } else {
        GridError::RowCountMismatch
    }
}

/// The data section behind the header: every token a number, and exactly
/// `rows * cols` of them.
pub open spec fn spec_parse_data(ts: Seq<Seq<u8>>, rows: int, cols: int, cs: int, nd: Option<int>)
    -> Result<(int, int, int, Option<int>, Seq<int>), GridError> {
    if !all_values_ok(ts) {
        Err(GridError::MalformedValue)
    } else if values_of(ts).len() == rows * cols {
        Ok((rows, cols, cs, nd, values_of(ts)))
    } else {
        Err(count_err(values_of(ts).len() as int, cols))
    }
}

/// The whole grammar: header fields in order, an optional no-data line,
/// then the data values. The result is the parsed dimensions, cell size,
/// optional sentinel and values, or the first error the text earns.
pub open spec fn spec_parse(text: Seq<u8>) -> Result<
    (int, int, int, Option<int>, Seq<int>),
    GridError,
> {
    let ts = tokens(text);
    if ts.len() < 10 {
        Err(GridError::MalformedHeader)
    } else if !(is_kw_ncols(ts[0]) && is_kw_nrows(ts[2]) && is_kw_xll(ts[4]) && is_kw_yll(ts[6])
        && is_kw_cellsize(ts[8])) {
        Err(GridError::MalformedHeader)
    } else {
        match (spec_count(ts[1]), spec_count(ts[3]), spec_number(ts[5]), spec_number(ts[7]),
        spec_number(ts[9])) {
            (Some(cols), Some(rows), Some(_x), Some(_y), Some(cs)) => {
                if ts.len() >= 11 && is_kw_nodata(ts[10]) {
                    if ts.len() >= 12 {
                        match spec_number(ts[11]) {
                            Some(nd) => spec_parse_data(ts.skip(12), rows, cols, cs, Some(nd)),
                            None => Err(GridError::MalformedHeader),
                        }
                    } else {
                        Err(GridError::MalformedHeader)
                    }
                } else {
                    spec_parse_data(ts.skip(10), rows, cols, cs, None)
                }
            },
            _ => Err(GridError::MalformedHeader),
        }
    }
}

/// What `spec_parse` returns on the text a well-formed grid came from.
pub open spec fn parse_model(g: Grid) -> Result<
    (int, int, int, Option<int>, Seq<int>),
    GridError,
> {
    Ok((g.rows as int, g.cols as int, g.cellsize as int, to_int_opt(g.nodata), to_ints(g.data@)))
}

/// Parses a whole Esri ASCII grid text into a `Grid`, returning exactly
/// what `spec_parse` says of the bytes.
#[verifier::loop_isolation(false)]
pub fn parse_grid(text: &Vec<u8>) -> (r: Result<Grid, GridError>)
    ensures
        match r {
            Ok(g) => g.wf() && spec_parse(text@) == parse_model(g),
            Err(e) => spec_parse(text@) == Err::<(int, int, int, Option<int>, Seq<int>), GridError>(
                e,
            ),
        },
{
    let toks: Vec<Vec<u8>> = tokenize(text);
    let ghost ts = tokens(text@);
    let total: usize = toks.len();
    if total < 10 {
        return Err(GridError::MalformedHeader);
    }
    if !(kw_ncols(&toks[0]) && kw_nrows(&toks[2]) && kw_xll(&toks[4]) && kw_yll(&toks[6])
        && kw_cellsize(&toks[8])) {
        return Err(GridError::MalformedHeader);
    }
    let cols: usize = match parse_count_tok(&toks[1]) {
        Some(c) => c,
        None => {
            return Err(GridError::MalformedHeader);
        },
    };
    let rows: usize = match parse_count_tok(&toks[3]) {
        Some(c) => c,
        None => {
            return Err(GridError::MalformedHeader);
        },
    };
    if parse_number_tok(&toks[5]).is_none() {
        return Err(GridError::MalformedHeader);
    }
    if parse_number_tok(&toks[7]).is_none() {
        return Err(GridError::MalformedHeader);
    }
    let cs: i64 = match parse_number_tok(&toks[9]) {
        Some(v) => v,
        None => {
            return Err(GridError::MalformedHeader);
        },
    };
    let mut nd: Option<i64> = None;
    let mut st: usize = 10;
    if total >= 11 && kw_nodata(&toks[10]) {
        if total < 12 {
            return Err(GridError::MalformedHeader);
        }
        match parse_number_tok(&toks[11]) {
            Some(v) => {
                nd = Some(v);
                st = 12;
            },
            None => {
                return Err(GridError::MalformedHeader);
            },
        }
    }
    let ghost data_ts = ts.skip(st as int);
    let mut vals: Vec<i64> = Vec::new();
    let mut idx: usize = st;
    while idx < total
        invariant
            st <= idx <= total,
            total == toks@.len(),
            views_of(toks@) == ts,
            data_ts == ts.skip(st as int),
            vals@.len() == idx - st,
            forall|m: int|
                0 <= m < vals@.len() ==> spec_number(data_ts[m]) == Some(vals@[m] as int),
        decreases total - idx,
    {
        match parse_number_tok(&toks[idx]) {
            Some(v) => {
                vals.push(v);
            },
            None => {
                proof {
                    assert(data_ts[idx - st] == ts[idx as int]);
                    assert(!all_values_ok(data_ts));
                }
                return Err(GridError::MalformedValue);
            },
        }
        idx = idx + 1;
    }
    proof {
        assert(all_values_ok(data_ts));
        assert(to_ints(vals@) =~= values_of(data_ts));
    }
    let nvals: usize = vals.len();
    let total_ok: bool = if cols == 0 || rows == 0 {
        nvals == 0
    } else {
        nvals % cols == 0 && nvals / cols == rows
    };
    if total_ok {
        proof {
            if cols != 0 && rows != 0 {
                vstd::arithmetic::div_mod::lemma_fundamental_div_mod(nvals as int, cols as int);
                assert(nvals as int == (rows as int) * (cols as int)) by (nonlinear_arith)
                    requires
                        nvals as int == (cols as int) * (nvals as int / cols as int) + (nvals as int
                            % cols as int),
                        nvals as int % cols as int == 0,
                        nvals as int / cols as int == rows as int,
                ;
            } else {
                assert((rows as int) * (cols as int) == 0) by (nonlinear_arith)
                    requires
                        rows == 0 || cols == 0,
                ;
            }
        }
        let g = Grid { rows, cols, cellsize: cs, nodata: nd, data: vals };
        return Ok(g);
    }
    proof {
        if cols != 0 && rows != 0 {
            if nvals as int == (rows as int) * (cols as int) {
                vstd::arithmetic::div_mod::lemma_fundamental_div_mod_converse_mod(
                    nvals as int,
                    cols as int,
                    rows as int,
                    0,
                );
                vstd::arithmetic::div_mod::lemma_fundamental_div_mod_converse_div(
                    nvals as int,
                    cols as int,
                    rows as int,
                    0,
                );
                assert((rows as int) * (cols as int) == (cols as int) * (rows as int) + 0)
                    by (nonlinear_arith);
            }
        } else {
            assert((rows as int) * (cols as int) == 0) by (nonlinear_arith)
                requires
                    rows == 0 || cols == 0,
            ;
        }
    }
    if cols > 0 && nvals % cols != 0 {
        Err(GridError::ColumnCountMismatch)
    } else {
        Err(GridError::RowCountMismatch)
    }
}

} // verus!
