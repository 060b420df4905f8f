//! Words and numbers: a command line split into words, and the decimal
//! numbers written in them.

use vstd::prelude::*;
use vstd::string::StringSliceAdditionalSpecFns;
use crate::query::lexer::{is_digit, digits_value};
use crate::store::bptree::key_bytes;

verus! {

broadcast use vstd::seq::group_seq_axioms;

/// Whether `c` is white space as Unicode's `White_Space` property has it,
/// which `char::is_whitespace` follows.
pub open spec fn is_white(c: char) -> bool {
    let u = c as u32;
    ||| 0x9 <= u <= 0xD
    ||| u == 0x20
    ||| u == 0x85
    ||| u == 0xA0
    ||| u == 0x1680
    ||| 0x2000 <= u <= 0x200A
    ||| u == 0x2028
    ||| u == 0x2029
    ||| u == 0x202F
    ||| u == 0x205F
    ||| u == 0x3000
}

/// The words of the text `s`: its longest runs of characters that are not
/// white space, in order.
pub open spec fn whitespace_words(s: Seq<char>) -> Seq<Seq<char>>
    decreases s.len(),
{
    if s.len() == 0 {
        seq![]
    } else if is_white(s.last()) {
        whitespace_words(s.drop_last())
    } else {
        let ws = whitespace_words(s.drop_last());
        if s.len() >= 2 && !is_white(s[s.len() - 2]) {
            ws.drop_last().push(ws.last().push(s.last()))
        } else {
            ws.push(seq![s.last()])
        }
    }
}

/// The words of `s`: the runs of characters between whitespace.
///
/// Trusted: calls `str::split_whitespace`, which splits the text at the
/// characters that `char::is_whitespace` accepts and leaves out the empty
/// pieces; the contract says the words are those runs.
#[verifier::external_body]
pub(crate) fn split_words(s: &str) -> (r: Vec<String>)
    ensures
        r@.map_values(|w: String| w@) == whitespace_words(s@),
{
    let mut out: Vec<String> = Vec::new();
    for w in s.split_whitespace() {
        out.push(w.to_string());
    }
    out
}

/// The bytes of each word.
pub open spec fn word_bytes(ws: Seq<String>) -> Seq<Seq<u8>> {
    ws.map_values(|w: String| key_bytes(w))
}

/// Whether two byte strings are equal.
pub fn bytes_eq(a: &[u8], b: &[u8]) -> (r: bool)
    ensures
        r == (a@ == b@),
{
    if a.len() != b.len() {
        return false;
    }
    let mut i: usize = 0;
    while i < a.len()
        invariant
            a@.len() == b@.len(),
            i <= a@.len(),
            forall|j: int| 0 <= j < i ==> a@[j] == b@[j],
        decreases a@.len() - i,
    {
        if a[i] != b[i] {
            return false;
        }
        i = i + 1;
    }
    assert(a@ =~= b@);
    true
}

/// Whether the word `w` is spelled exactly `k`.
pub fn word_is(w: &String, k: &str) -> (r: bool)
    ensures
        r == (key_bytes(*w) == k.spec_bytes()),
{
    bytes_eq(w.as_str().as_bytes(), k.as_bytes())
}

/// Every byte is a decimal digit.
pub open spec fn all_digits(d: Seq<u8>) -> bool {
    forall|j: int| 0 <= j < d.len() ==> is_digit(#[trigger] d[j])
}

/// The number that the digits `d` spell, if there is at least one, all are
/// digits, and it is at most `limit`.
pub open spec fn bounded_digits(d: Seq<u8>, limit: int) -> Option<nat> {
    if d.len() == 0 || !all_digits(d) || digits_value(d) > limit {
        None
    } else {
        Some(digits_value(d))
    }
}

/// The `isize` that `w` spells as `str::parse` reads it: an optional sign,
/// then one or more decimal digits, in range.
pub open spec fn isize_of(w: Seq<u8>) -> Option<isize> {
    if w.len() == 0 {
        None
    } else if w[0] == 45 {
        match bounded_digits(w.subrange(1, w.len() as int), isize::MAX + 1) {
            Some(v) => Some((-v) as isize),
            None => None,
        }
    } else {
        let d = if w[0] == 43 { w.subrange(1, w.len() as int) } else { w };
        match bounded_digits(d, isize::MAX as int) {
            Some(v) => Some(v as isize),
            None => None,
        }
    }
}

/// The `u8` that `w` spells as `str::parse` reads it: an optional `+`, then
/// one or more decimal digits, at most 255.
pub open spec fn u8_of(w: Seq<u8>) -> Option<u8> {
    let d = if w.len() > 0 && w[0] == 43 { w.subrange(1, w.len() as int) } else { w };
    match bounded_digits(d, 255) {
        Some(v) => Some(v as u8),
        None => None,
    }
}

/// The number that the digits `d[start..end]` spell, if there is at least
/// one, all are digits, and it is at most `limit`.
fn digits_at_most(d: &[u8], start: usize, end: usize, limit: u64) -> (r: Option<u64>)
    requires
        start <= end <= d@.len(),
        limit >= 9,
    ensures
        r == (match bounded_digits(d@.subrange(start as int, end as int), limit as int) {
            Some(v) => Some(v as u64),
            None => None::<u64>,
        }),
{
    let ghost w = d@.subrange(start as int, end as int);
    if start == end {
        return None;
    }
    let mut acc: u64 = 0;
    let mut i: usize = start;
    while i < end
        invariant
            start <= i <= end <= d@.len(),
            w == d@.subrange(start as int, end as int),
            all_digits(d@.subrange(start as int, i as int)),
            acc == digits_value(d@.subrange(start as int, i as int)),
            acc <= limit,
            limit >= 9,
        decreases end - i,
    {
        let b = d[i];
        let ghost pre = d@.subrange(start as int, i as int);
        assert(d@.subrange(start as int, i + 1).drop_last() =~= pre);
        assert(d@.subrange(start as int, i + 1).last() == b);
        if b < 48 || b > 57 {
            assert(!is_digit(w[i - start]));
            return None;
        }
        let dig = (b - 48) as u64;
        assert(digits_value(d@.subrange(start as int, i + 1)) == acc * 10 + dig);
        if acc > (limit - dig) / 10 {
            assert(acc * 10 + dig > limit) by (nonlinear_arith)
                requires
                    acc > (limit - dig) / 10,
                    dig <= 9,
                    dig <= limit || acc >= 1,
            ;
            proof {
                assert(w.subrange(0, i + 1 - start) =~= d@.subrange(start as int, i + 1));
                if all_digits(w) {
                    lemma_digits_monotone(w, i + 1 - start);
                    assert(digits_value(w) > limit);
                }
            }
            return None;
        }
        assert(acc * 10 + dig <= limit) by (nonlinear_arith)
            requires
                acc <= (limit - dig) / 10,
                dig <= 9,
                dig <= limit,
        ;
        acc = acc * 10 + dig;
        i = i + 1;
        assert(all_digits(d@.subrange(start as int, i as int))) by {
            assert forall|j: int| 0 <= j < i - start implies is_digit(#[trigger] d@.subrange(start as int, i as int)[j]) by {
                if j < i - 1 - start {
                    assert(d@.subrange(start as int, i as int)[j] == pre[j]);
                }
            }
        }
    }
    assert(d@.subrange(start as int, i as int) =~= w);
    Some(acc)
}

/// A longer run of digits spells at least as much as its prefix.
proof fn lemma_digits_monotone(w: Seq<u8>, i: int)
    requires
        0 <= i <= w.len(),
        all_digits(w),
    ensures
        digits_value(w) >= digits_value(w.subrange(0, i)),
    decreases w.len() - i,
{
    if i < w.len() {
        lemma_digits_monotone(w, i + 1);
        assert(w.subrange(0, i + 1).drop_last() =~= w.subrange(0, i));
        let v = digits_value(w.subrange(0, i));
        assert(v * 10 + (w[i] - 48) >= v) by (nonlinear_arith)
            requires
                v >= 0,
                w[i] >= 48,
        ;
    } else {
        assert(w.subrange(0, i) =~= w);
    }
}

/// The `isize` that `w` spells, as `str::parse` reads it.
pub fn parse_isize(w: &[u8]) -> (r: Option<isize>)
    ensures
        r == isize_of(w@),
{
    let n = w.len();
    if n == 0 {
        return None;
    }
    if w[0] == 45 {
        let limit = (isize::MAX as u64) + 1;
        match digits_at_most(w, 1, n, limit) {
            Some(v) => {
                if v == limit {
                    Some(isize::MIN)
                } else {
                    Some(-(v as isize))
                }
            },
            None => None,
        }
    } else {
        let start: usize = if w[0] == 43 { 1 } else { 0 };
        assert(w@.subrange(0, n as int) =~= w@);
        match digits_at_most(w, start, n, isize::MAX as u64) {
            Some(v) => Some(v as isize),
            None => None,
        }
    }
}

/// The `u8` that `w` spells, as `str::parse` reads it.
pub fn parse_u8(w: &[u8]) -> (r: Option<u8>)
    ensures
        r == u8_of(w@),
{
    let n = w.len();
    let start: usize = if n > 0 && w[0] == 43 { 1 } else { 0 };
    assert(w@.subrange(0, n as int) =~= w@);
    match digits_at_most(w, start, n, 255) {
        Some(v) => Some(v as u8),
        None => None,
    }
}

/// `[` or `]`.
pub open spec fn is_bracket(b: u8) -> bool {
    b == 91 || b == 93
}

/// Where the leading brackets of `w` end, looking from `i` on.
pub open spec fn lead_end(w: Seq<u8>, i: int) -> int
    decreases w.len() - i,
{
    if 0 <= i < w.len() && is_bracket(w[i]) { lead_end(w, i + 1) } else { i }
}

/// Where the trailing brackets of `w` start, looking down from `j` to `lo`.
pub open spec fn trail_start(w: Seq<u8>, lo: int, j: int) -> int
    decreases j - lo,
{
    if lo < j && j <= w.len() && is_bracket(w[j - 1]) { trail_start(w, lo, j - 1) } else { j }
}

/// `w` with its leading and trailing brackets cut, as `trim_matches` cuts.
pub open spec fn trim_brackets(w: Seq<u8>) -> Seq<u8> {
    let a = lead_end(w, 0);
    w.subrange(a, trail_start(w, a, w.len() as int))
}

/// The first comma of `t` at or after `i`, or its length.
pub open spec fn comma_at(t: Seq<u8>, i: int) -> int
    decreases t.len() - i,
{
    if 0 <= i < t.len() && t[i] != 44 { comma_at(t, i + 1) } else { i }
}

/// The bytes that the comma-separated numbers of `t` from `i` on spell, or
/// none if one of them is no byte.
pub open spec fn bytes_list(t: Seq<u8>, i: int) -> Option<Seq<u8>>
    decreases t.len() - i, 0int,
{
    if i < 0 || i > t.len() {
        None
    } else {
        let e = comma_at(t, i);
        match u8_of(t.subrange(i, e)) {
            None => None,
            Some(b) => if e >= t.len() { Some(seq![b]) } else {
                proof {
                    lemma_comma_at(t, i);
                }
                match bytes_list(t, e + 1) {
                    None => None,
                    Some(bs) => Some(seq![b] + bs),
                }
            },
        }
    }
}

/// The blob that `w` writes as `[b0,b1,...]`: brackets cut from both ends,
/// then each comma-separated part read as a byte.
pub open spec fn blob_of(w: Seq<u8>) -> Option<Seq<u8>> {
    bytes_list(trim_brackets(w), 0)
}

proof fn lemma_lead_end(w: Seq<u8>, i: int)
    requires
        0 <= i <= w.len(),
    ensures
        i <= lead_end(w, i) <= w.len(),
    decreases w.len() - i,
{
    if i < w.len() && is_bracket(w[i]) {
        lemma_lead_end(w, i + 1);
    }
}

proof fn lemma_trail_start(w: Seq<u8>, lo: int, j: int)
    requires
        0 <= lo <= j <= w.len(),
    ensures
        lo <= trail_start(w, lo, j) <= j,
    decreases j - lo,
{
    if lo < j && is_bracket(w[j - 1]) {
        lemma_trail_start(w, lo, j - 1);
    }
}

pub proof fn lemma_comma_at(t: Seq<u8>, i: int)
    requires
        0 <= i <= t.len(),
    ensures
        i <= comma_at(t, i) <= t.len(),
        comma_at(t, i) < t.len() ==> t[comma_at(t, i)] == 44,
    decreases t.len() - i,
{
    if i < t.len() && t[i] != 44 {
        lemma_comma_at(t, i + 1);
    }
}

/// The blob written as `[b0,b1,...]` in `w`, if every part is a byte.
pub fn parse_blob(w: &[u8]) -> (r: Option<Vec<u8>>)
    ensures
        match blob_of(w@) {
            Some(b) => r matches Some(v) && v@ == b,
            None => r is None,
        },
{
    let n = w.len();
    let mut a: usize = 0;
    while a < n && (w[a] == 91 || w[a] == 93)
        invariant
            a <= n == w@.len(),
            lead_end(w@, a as int) == lead_end(w@, 0),
        decreases n - a,
    {
        a = a + 1;
    }
    let mut z: usize = n;
    proof {
        lemma_lead_end(w@, 0);
    }
    while z > a && (w[z - 1] == 91 || w[z - 1] == 93)
        invariant
            a <= z <= n == w@.len(),
            a == lead_end(w@, 0),
            trail_start(w@, a as int, z as int) == trail_start(w@, a as int, n as int),
        decreases z - a,
    {
        z = z - 1;
    }
    let t = vstd::slice::slice_subrange(w, a, z);
    assert(t@ == trim_brackets(w@));
    let ghost tv = t@;
    let tn = t.len();
    let mut out: Vec<u8> = Vec::new();
    let mut i: usize = 0;
    loop
        invariant
            tv == t@,
            tv == trim_brackets(w@),
            tn == tv.len(),
            i <= tn,
            bytes_list(tv, 0) == match bytes_list(tv, i as int) {
                Some(bs) => Some(out@ + bs),
                None => None::<Seq<u8>>,
            },
        decreases tn - i,
    {
        let mut e = i;
        while e < tn && t[e] != 44
            invariant
                tv == t@,
                tn == tv.len(),
                i <= e <= tn,
                comma_at(tv, e as int) == comma_at(tv, i as int),
            decreases tn - e,
        {
            e = e + 1;
        }
        proof {
            lemma_comma_at(tv, i as int);
        }
        let part = vstd::slice::slice_subrange(t, i, e);
        match parse_u8(part) {
            None => {
                return None;
            },
            Some(b) => {
                let ghost before = out@;
                out.push(b);
                if e >= tn {
                    proof {
                        assert(before + seq![b] =~= out@);
                    }
                    return Some(out);
                }
                proof {
                    match bytes_list(tv, e + 1) {
                        Some(bs) => {
                            assert(before + (seq![b] + bs) =~= out@ + bs);
                        },
                        None => {},
                    }
                }
                i = e + 1;
            },
        }
    }
}

/// A word of decimal digits without a sign reads as the number the digits
/// spell, which is never negative; a `+` before it changes nothing, and a
/// `-` before it gives the negated number.
pub proof fn lemma_isize_of_digits(d: Seq<u8>)
    requires
        d.len() > 0,
        all_digits(d),
        digits_value(d) <= isize::MAX,
    ensures
        isize_of(d) == Some(digits_value(d) as isize),
        isize_of(d) matches Some(v) && v >= 0,
        isize_of(seq![43u8] + d) == isize_of(d),
        isize_of(seq![45u8] + d) == Some((-(digits_value(d) as int)) as isize),
{
    assert((seq![43u8] + d).subrange(1, d.len() as int + 1) =~= d);
    assert((seq![45u8] + d).subrange(1, d.len() as int + 1) =~= d);
    assert(d[0] != 43 && d[0] != 45) by {
        assert(is_digit(d[0]));
    }
}

/// Reading a word that does not start with `-` never gives a negative
/// number.
pub proof fn lemma_isize_of_unsigned_not_negative(w: Seq<u8>)
    requires
        w.len() > 0,
        w[0] != 45,
    ensures
        isize_of(w) matches Some(v) ==> v >= 0,
{
}

/// One more digit after a word of digits multiplies its number by ten and
/// adds the digit, and a single digit reads as itself.
pub proof fn lemma_isize_of_next_digit(d: Seq<u8>, c: u8)
    requires
        all_digits(d),
        is_digit(c),
        digits_value(d) * 10 + (c - 48) <= isize::MAX,
    ensures
        d.len() == 0 ==> isize_of(seq![c]) == Some((c - 48) as isize),
        d.len() > 0 ==> isize_of(d.push(c)) == Some((digits_value(d) * 10 + (c - 48)) as isize),
        d.len() > 0 ==> (isize_of(d) matches Some(v) ==> isize_of(d.push(c)) == Some((v * 10 + (c - 48)) as isize)),
{
    assert(d.push(c).drop_last() =~= d);
    assert(all_digits(d.push(c))) by {
        assert forall|j: int| 0 <= j < d.push(c).len() implies is_digit(#[trigger] d.push(c)[j]) by {
            if j < d.len() {
                assert(d.push(c)[j] == d[j]);
            }
        }
    }
    if d.len() == 0 {
        assert(seq![c] =~= d.push(c));
        assert(seq![c].drop_last() =~= Seq::<u8>::empty());
    } else {
        assert(is_digit(d[0]));
        assert(d.push(c)[0] == d[0]);
        assert(digits_value(d) <= isize::MAX);
    }
}

/// A byte written in decimal digits, with or without a `+`, reads as the
/// number the digits spell; a `-` before it makes it no byte.
pub proof fn lemma_u8_of_digits(d: Seq<u8>)
    requires
        d.len() > 0,
        all_digits(d),
        digits_value(d) <= 255,
    ensures
        u8_of(d) == Some(digits_value(d) as u8),
        u8_of(seq![43u8] + d) == Some(digits_value(d) as u8),
        u8_of(seq![45u8] + d) is None,
{
    assert((seq![43u8] + d).subrange(1, d.len() as int + 1) =~= d);
    assert(is_digit(d[0]));
    assert(!is_digit((seq![45u8] + d)[0]));
}

proof fn lemma_comma_at_digits(t: Seq<u8>, i: int, e: int)
    requires
        0 <= i <= e <= t.len(),
        forall|k: int| i <= k < e ==> is_digit(#[trigger] t[k]),
        e == t.len() || t[e] == 44,
    ensures
        comma_at(t, i) == e,
    decreases e - i,
{
    if i < e {
        assert(is_digit(t[i]));
        lemma_comma_at_digits(t, i + 1, e);
    }
}

/// Brackets around a text that neither starts nor ends with one are cut.
proof fn lemma_trim_one_pair(x: Seq<u8>)
    requires
        x.len() > 0,
        !is_bracket(x[0]),
        !is_bracket(x[x.len() - 1]),
    ensures
        trim_brackets(seq![91u8] + x + seq![93u8]) == x,
{
    let w = seq![91u8] + x + seq![93u8];
    assert(w[1] == x[0]);
    assert(lead_end(w, 1) == 1);
    assert(lead_end(w, 0) == 1);
    assert(w[w.len() - 2] == x[x.len() - 1]);
    assert(trail_start(w, 1, w.len() - 1) == w.len() - 1);
    assert(trail_start(w, 1, w.len() as int) == w.len() - 1);
    assert(w.subrange(1, w.len() - 1) =~= x);
}

/// A blob written as one decimal byte between brackets reads as that byte.
pub proof fn lemma_blob_of_one_byte(d: Seq<u8>)
    requires
        d.len() > 0,
        all_digits(d),
        digits_value(d) <= 255,
    ensures
        blob_of(seq![91u8] + d + seq![93u8]) == Some(seq![digits_value(d) as u8]),
{
    lemma_u8_of_digits(d);
    assert(is_digit(d[0]));
    assert(is_digit(d[d.len() - 1]));
    lemma_trim_one_pair(d);
    lemma_comma_at_digits(d, 0, d.len() as int);
    assert(d.subrange(0, d.len() as int) =~= d);
}

/// A blob written as two decimal bytes between brackets, separated by a
/// comma, reads as those two bytes in order.
#[verifier::spinoff_prover]
pub proof fn lemma_blob_of_two_bytes(d1: Seq<u8>, d2: Seq<u8>)
    requires
        d1.len() > 0,
        all_digits(d1),
        digits_value(d1) <= 255,
        d2.len() > 0,
        all_digits(d2),
        digits_value(d2) <= 255,
    ensures
        blob_of(seq![91u8] + d1 + seq![44u8] + d2 + seq![93u8]) == Some(seq![digits_value(d1) as u8, digits_value(d2) as u8]),
{
    lemma_u8_of_digits(d1);
    lemma_u8_of_digits(d2);
    let t = d1 + seq![44u8] + d2;
    assert(is_digit(d1[0]));
    assert(is_digit(d2[d2.len() - 1]));
    assert(t[0] == d1[0]);
    assert(t[t.len() - 1] == d2[d2.len() - 1]);
    lemma_trim_one_pair(t);
    assert(seq![91u8] + t + seq![93u8] =~= seq![91u8] + d1 + seq![44u8] + d2 + seq![93u8]);
    assert forall|k: int| 0 <= k < d1.len() implies is_digit(#[trigger] t[k]) by {
        assert(t[k] == d1[k]);
    }
    lemma_comma_at_digits(t, 0, d1.len() as int);
    assert(t.subrange(0, d1.len() as int) =~= d1);
    assert forall|k: int| d1.len() + 1 <= k < t.len() implies is_digit(#[trigger] t[k]) by {
        assert(t[k] == d2[k - d1.len() - 1]);
    }
    lemma_comma_at_digits(t, d1.len() as int + 1, t.len() as int);
    assert(t.subrange(d1.len() as int + 1, t.len() as int) =~= d2);
    assert(bytes_list(t, d1.len() as int + 1) == Some(seq![digits_value(d2) as u8]));
    assert(u8_of(t.subrange(0, d1.len() as int)) == Some(digits_value(d1) as u8));
    assert(bytes_list(t, 0) == Some(seq![digits_value(d1) as u8] + seq![digits_value(d2) as u8]));
    assert(seq![digits_value(d1) as u8] + seq![digits_value(d2) as u8] =~= seq![digits_value(d1) as u8, digits_value(d2) as u8]);
}

/// Every word is a nonempty run of characters that are not white space.
pub proof fn lemma_words_are_runs(s: Seq<char>)
    ensures
        forall|k: int| 0 <= k < whitespace_words(s).len() ==> #[trigger] whitespace_words(s)[k].len() > 0
            && forall|j: int| 0 <= j < whitespace_words(s)[k].len() ==> !is_white(#[trigger] whitespace_words(s)[k][j]),
        s.len() > 0 && !is_white(s.last()) ==> whitespace_words(s).len() > 0,
    decreases s.len(),
{
    if s.len() > 0 {
        lemma_words_are_runs(s.drop_last());
        let ws = whitespace_words(s.drop_last());
        if !is_white(s.last()) {
            if s.len() >= 2 && !is_white(s[s.len() - 2]) {
                assert(s.drop_last().last() == s[s.len() - 2]);
                let r = ws.drop_last().push(ws.last().push(s.last()));
                assert forall|k: int| 0 <= k < r.len() implies #[trigger] r[k].len() > 0
                    && forall|j: int| 0 <= j < r[k].len() ==> !is_white(#[trigger] r[k][j]) by {
                    if k < r.len() - 1 {
                        assert(r[k] == ws[k]);
                    } else {
                        assert(r[k] == ws[ws.len() - 1].push(s.last()));
                        assert forall|j: int| 0 <= j < r[k].len() implies !is_white(#[trigger] r[k][j]) by {
                            if j < ws[ws.len() - 1].len() {
                                assert(r[k][j] == ws[ws.len() - 1][j]);
                            }
                        }
                    }
                }
            } else {
                let r = ws.push(seq![s.last()]);
                assert forall|k: int| 0 <= k < r.len() implies #[trigger] r[k].len() > 0
                    && forall|j: int| 0 <= j < r[k].len() ==> !is_white(#[trigger] r[k][j]) by {
                    if k < r.len() - 1 {
                        assert(r[k] == ws[k]);
                    }
                }
            }
        }
    }
}

/// Splitting a text at a space gives the words before it and then the words
/// after it.
pub proof fn lemma_words_split_at_space(a: Seq<char>, b: Seq<char>)
    ensures
        whitespace_words(a + seq![' '] + b) == whitespace_words(a) + whitespace_words(b),
    decreases b.len(),
{
    let x = a + seq![' '] + b;
    assert(is_white(' '));
    if b.len() == 0 {
        assert(x.drop_last() =~= a);
        assert(whitespace_words(b) =~= Seq::<Seq<char>>::empty());
        assert(whitespace_words(a) + whitespace_words(b) =~= whitespace_words(a));
    } else {
        let b1 = b.drop_last();
        let c = b.last();
        lemma_words_split_at_space(a, b1);
        assert(x.drop_last() =~= a + seq![' '] + b1);
        assert(x.last() == c);
        let wa = whitespace_words(a);
        let wb1 = whitespace_words(b1);
        if !is_white(c) {
            if b1.len() > 0 && !is_white(b1.last()) {
                lemma_words_are_runs(b1);
                assert(x[x.len() - 2] == b1.last());
                assert(b[b.len() - 2] == b1.last());
                assert((wa + wb1).drop_last() =~= wa + wb1.drop_last());
                assert((wa + wb1).last() == wb1.last());
                assert(wa + wb1.drop_last().push(wb1.last().push(c)) =~= (wa + wb1).drop_last().push((wa + wb1).last().push(c)));
            } else {
                assert(x[x.len() - 2] == if b1.len() > 0 { b1.last() } else { ' ' });
                if b1.len() > 0 {
                    assert(b[b.len() - 2] == b1.last());
                }
                assert(wa + wb1.push(seq![c]) =~= (wa + wb1).push(seq![c]));
            }
        }
    }
}

/// Space, tab, line feed, vertical tab, form feed, carriage return, next
/// line, no-break space and the ideographic space separate words; letters,
/// digits and punctuation do not.
pub proof fn lemma_white_space_table(c: char)
    ensures
        is_white(' ') && is_white('\t') && is_white('\n') && is_white('\u{0B}') && is_white('\u{0C}') && is_white('\r'),
        is_white('\u{85}') && is_white('\u{A0}') && is_white('\u{3000}'),
        ('a' <= c <= 'z' || 'A' <= c <= 'Z' || '0' <= c <= '9' || c == '_' || c == '[' || c == ']' || c == ',' || c == '-'
            || c == '+' || c == '.') ==> !is_white(c),
{
}

} // verus!
