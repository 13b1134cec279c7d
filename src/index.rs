//! Reading an item id that a caller typed or picked from a menu line.

use vstd::prelude::*;
use crate::history::HistoryError;
use crate::text::{chars_of, is_white_space, trim_start, white_space};

verus! {

/// The leading characters of `s` up to its first white space.
pub open spec fn word(s: Seq<char>) -> Seq<char>
    decreases s.len(),
{
    if s.len() == 0 || is_white_space(s[0]) {
        seq![]
    } else {
        seq![s[0]] + word(s.drop_first())
    }
}

pub open spec fn is_digit(c: char) -> bool {
    '0' <= c <= '9'
}

/// The number that a string of decimal digits denotes.
pub open spec fn digits_value(d: Seq<char>) -> nat
    decreases d.len(),
{
    if d.len() == 0 {
        0
    } else {
        digits_value(d.drop_last()) * 10 + (d.last() as nat - '0' as nat) as nat
    }
}

/// A word without its optional leading `+`.
pub open spec fn unsigned_digits(w: Seq<char>) -> Seq<char> {
    if w.len() > 0 && w[0] == '+' {
        w.drop_first()
    } else {
        w
    }
}

/// The number that `d` denotes, where it is a non-empty string of decimal
/// digits.
pub open spec fn index_of_digits(d: Seq<char>) -> Option<nat> {
    if d.len() > 0 && forall|i: int| 0 <= i < d.len() ==> is_digit(#[trigger] d[i]) {
        Some(digits_value(d))
    } else {
        None
    }
}

/// The number that the first word of `s` denotes: decimal digits after an
/// optional `+`.
pub open spec fn index_in_text(s: Seq<char>) -> Option<nat> {
    index_of_digits(unsigned_digits(word(trim_start(s))))
}

proof fn lemma_digits_value_grows(d: Seq<char>, m: int)
    requires
        0 <= m <= d.len(),
        forall|i: int| 0 <= i < d.len() ==> is_digit(#[trigger] d[i]),
    ensures
        digits_value(d.take(m)) <= digits_value(d),
    decreases d.len() - m,
{
    if m < d.len() {
        lemma_digits_value_grows(d, m + 1);
        assert(d.take(m + 1).drop_last() =~= d.take(m));
    } else {
        assert(d.take(m) =~= d);
    }
}

/// The number that `v[k..j]` denotes, where it is a string of decimal
/// digits whose value fits in `usize`.
fn parse_digits(v: &Vec<char>, k: usize, j: usize) -> (r: Option<usize>)
    requires
        k <= j <= v@.len(),
    ensures
        match r {
            Some(x) => index_of_digits(v@.subrange(k as int, j as int)) == Some(x as nat),
            None => !(index_of_digits(v@.subrange(k as int, j as int)) matches Some(y) && y
                <= usize::MAX),
        },
{
    let ghost d = v@.subrange(k as int, j as int);
    if k == j {
        return None;
    }
    let mut value: usize = 0;
    let mut m: usize = k;
    assert(d.take(0) =~= Seq::<char>::empty());
    while m < j
        invariant
            k <= m <= j <= v@.len(),
            d == v@.subrange(k as int, j as int),
            d.len() > 0,
            forall|q: int| 0 <= q < m - k ==> is_digit(#[trigger] d[q]),
            value == digits_value(d.take(m - k)),
        decreases j - m,
    {
        let c = v[m];
        if !('0' <= c && c <= '9') {
            assert(!is_digit(d[m - k]));
            return None;
        }
        let next: u128 = (value as u128) * 10 + ((c as u32) - ('0' as u32)) as u128;
        assert(d.take(m - k + 1).drop_last() =~= d.take(m - k));
        assert(next == digits_value(d.take(m - k + 1)));
        if next > usize::MAX as u128 {
            proof {
                if forall|q: int| 0 <= q < d.len() ==> is_digit(#[trigger] d[q]) {
                    lemma_digits_value_grows(d, m - k + 1);
                }
            }
            return None;
        }
        value = next as usize;
        m += 1;
    }
    assert(d.take(j - k) =~= d);
    Some(value)
}

/// Reads an item id from the start of `input`: its first word, decimal
/// digits after an optional `+`, within the range of `usize`.
pub fn parse_index(input: &str) -> (r: Result<usize, HistoryError>)
    ensures
        match r {
            Ok(n) => index_in_text(input@) == Some(n as nat),
            Err(e) => e == HistoryError::InvalidIndex && !(index_in_text(input@) matches Some(v)
                && v <= usize::MAX),
        },
{
    let v = chars_of(input);
    let ghost s = v@;
    let n = v.len();
    let mut i: usize = 0;
    assert(s.subrange(0, n as int) =~= s);
    while i < n && white_space(v[i])
        invariant
            i <= n == s.len(),
            s == v@,
            trim_start(s) == trim_start(s.subrange(i as int, n as int)),
        decreases n - i,
    {
        assert(s.subrange(i as int, n as int).drop_first() =~= s.subrange(i + 1, n as int));
        i += 1;
    }
    let ghost t = s.subrange(i as int, n as int);
    assert(trim_start(s) == t) by {
        if i == n {
            assert(t.len() == 0);
        }
    }
    let mut j: usize = i;
    assert(s.subrange(i as int, i as int) + t =~= t);
    while j < n && !white_space(v[j])
        invariant
            i <= j <= n == s.len(),
            s == v@,
            t == s.subrange(i as int, n as int),
            word(t) == s.subrange(i as int, j as int) + word(s.subrange(j as int, n as int)),
        decreases n - j,
    {
        assert(s.subrange(j as int, n as int).drop_first() =~= s.subrange(j + 1, n as int));
        assert(s.subrange(i as int, j + 1) =~= s.subrange(i as int, j as int) + seq![s[j as int]]);
        j += 1;
    }
    let ghost w = s.subrange(i as int, j as int);
    assert(word(t) == w) by {
        assert(word(s.subrange(j as int, n as int)) == Seq::<char>::empty());
        assert(w + Seq::<char>::empty() =~= w);
    }
    let mut k: usize = i;
    if k < j && v[k] == '+' {
        k += 1;
    }
    assert(s.subrange(k as int, j as int) =~= unsigned_digits(w));
    match parse_digits(&v, k, j) {
        Some(x) => Ok(x),
        None => Err(HistoryError::InvalidIndex),
    }
}

} // verus!
