//! Character-level helpers: decimal rendering, human-readable sizes,
//! trimming, width limits and path joining.

use vstd::prelude::*;

verus! {

/// Relies on `String::push`: appends one character.
#[verifier::external_body]
pub(crate) fn push_char(s: &mut String, c: char)
    ensures
        final(s)@ == old(s)@.push(c),
{
    s.push(c)
}

/// The character of a decimal digit.
pub open spec fn digit_char(d: nat) -> char {
    ((d + 48) as u8) as char
}

/// The decimal rendering of `n`, without sign or leading zeros.
pub open spec fn decimal(n: nat) -> Seq<char>
    decreases n,
{
    if n < 10 {
        seq![digit_char(n)]
    } else {
        decimal(n / 10).push(digit_char(n % 10))
    }
}

/// Appends the decimal rendering of `n` to `s`.
pub fn push_decimal(s: &mut String, n: usize)
    ensures
        final(s)@ == old(s)@ + decimal(n as nat),
    decreases n,
{
    if n >= 10 {
        push_decimal(s, n / 10);
    }
    let d: u8 = (n % 10) as u8;
    push_char(s, (d + 48u8) as char);
    proof {
        if n >= 10 {
            assert(decimal(n as nat) == decimal((n / 10) as nat).push(digit_char((n % 10) as nat)));
        }
    }
    assert(final(s)@ =~= old(s)@ + decimal(n as nat));
}

/// Appends every character of `t` to `s`.
pub fn push_str(s: &mut String, t: &str)
    ensures
        final(s)@ == old(s)@ + t@,
{
    s.append(t);
}

/// `size / unit` in tenths, rounded to the nearest tenth with ties to even,
/// as `{:.1}` formats the quotient.
pub open spec fn rounded_tenths(size: nat, unit: nat) -> nat
    recommends
        unit > 0,
{
    let q = size * 10 / unit;
    let r = size * 10 % unit;
    if 2 * r > unit || (2 * r == unit && q % 2 == 1) {
        q + 1
    } else {
        q
    }
}

/// `size / unit` with one decimal place, followed by `suffix`.
pub open spec fn scaled_text(size: nat, unit: nat, suffix: Seq<char>) -> Seq<char> {
    let t = rounded_tenths(size, unit);
    decimal(t / 10) + seq!['.', digit_char(t % 10)] + suffix
}

pub open spec fn kib() -> nat {
    1024
}

pub open spec fn mib() -> nat {
    1024 * 1024
}

pub open spec fn gib() -> nat {
    1024 * 1024 * 1024
}

/// A byte count in base-1024 units: whole bytes below 1 KiB, otherwise one
/// decimal place in the largest of KiB, MiB, GiB that the size reaches.
pub open spec fn size_text(size: nat) -> Seq<char> {
    if size < kib() {
        decimal(size) + seq![' ', 'B']
    } else if size < mib() {
        scaled_text(size, kib(), seq![' ', 'K', 'i', 'B'])
    } else if size < gib() {
        scaled_text(size, mib(), seq![' ', 'M', 'i', 'B'])
    } else {
        scaled_text(size, gib(), seq![' ', 'G', 'i', 'B'])
    }
}

fn push_scaled(s: &mut String, size: usize, unit: u128)
    requires
        0 < unit <= 1024 * 1024 * 1024,
    ensures
        final(s)@ == old(s)@ + decimal(rounded_tenths(size as nat, unit as nat) / 10) + seq![
            '.',
            digit_char(rounded_tenths(size as nat, unit as nat) % 10),
        ],
{
    let x: u128 = (size as u128) * 10;
    let q: u128 = x / unit;
    let r: u128 = x % unit;
    let t: u128 = if 2 * r > unit || (2 * r == unit && q % 2 == 1) {
        q + 1
    } else {
        q
    };
    assert(t == rounded_tenths(size as nat, unit as nat));
    assert(t / 10 <= usize::MAX) by {
        assert(q <= x);
        assert(x / 10 == size);
    }
    let ghost s0 = s@;
    push_decimal(s, (t / 10) as usize);
    push_char(s, '.');
    let d: u8 = (t % 10) as u8;
    push_char(s, (d + 48u8) as char);
    assert(final(s)@ =~= s0 + decimal(t as nat / 10) + seq!['.', digit_char(t as nat % 10)]);
}

/// Renders a byte count in base-1024 units.
pub fn size_to_string(size: usize) -> (r: String)
    ensures
        r@ == size_text(size as nat),
{
    let mut s = String::new();
    if size < 1024 {
        push_decimal(&mut s, size);
        push_char(&mut s, ' ');
        push_char(&mut s, 'B');
        assert(s@ =~= size_text(size as nat));
    } else {
        let (unit, c): (u128, char) = if size < 1024 * 1024 {
            (1024, 'K')
        } else if size < 1024 * 1024 * 1024 {
            (1024 * 1024, 'M')
        } else {
            (1024 * 1024 * 1024, 'G')
        };
        push_scaled(&mut s, size, unit);
        push_char(&mut s, ' ');
        push_char(&mut s, c);
        push_char(&mut s, 'i');
        push_char(&mut s, 'B');
        assert(s@ =~= size_text(size as nat));
    }
    s
}

/// `text` cut to `limit` characters, with "..." appended when it was cut.
pub open spec fn limited(text: Seq<char>, limit: nat) -> Seq<char> {
    if text.len() <= limit {
        text
    } else {
        text.take(limit as int) + seq!['.', '.', '.']
    }
}

/// Caps `text` at `limit` characters, marking a cut with an ellipsis.
pub fn text_with_limit(text: &str, limit: usize) -> (r: String)
    ensures
        r@ == limited(text@, limit as nat),
{
    let n = text.unicode_len();
    if n <= limit {
        return String::from_str(text);
    }
    let mut r = String::from_str(text.substring_char(0, limit));
    proof {
        reveal_strlit("...");
    }
    r.append("...");
    assert(r@ =~= limited(text@, limit as nat));
    r
}

/// Unicode White_Space, the set that `char::is_whitespace` tests.
pub open spec fn is_white_space(c: char) -> bool {
    let u = c as u32;
    (0x9 <= u <= 0xd) || u == 0x20 || u == 0x85 || u == 0xa0 || u == 0x1680 || (0x2000 <= u
        <= 0x200a) || u == 0x2028 || u == 0x2029 || u == 0x202f || u == 0x205f || u == 0x3000
}

pub(crate) fn white_space(c: char) -> (r: bool)
    ensures
        r == is_white_space(c),
{
    let u = c as u32;
    (0x9 <= u && u <= 0xd) || u == 0x20 || u == 0x85 || u == 0xa0 || u == 0x1680 || (0x2000 <= u
        && u <= 0x200a) || u == 0x2028 || u == 0x2029 || u == 0x202f || u == 0x205f || u == 0x3000
}

/// `s` without its leading white space.
pub open spec fn trim_start(s: Seq<char>) -> Seq<char>
    decreases s.len(),
{
    if s.len() > 0 && is_white_space(s[0]) {
        trim_start(s.drop_first())
    } else {
        s
    }
}

/// `s` without its trailing white space.
pub open spec fn trim_end(s: Seq<char>) -> Seq<char>
    decreases s.len(),
{
    if s.len() > 0 && is_white_space(s.last()) {
        trim_end(s.drop_last())
    } else {
        s
    }
}

/// `s` without leading and trailing white space.
pub open spec fn trimmed(s: Seq<char>) -> Seq<char> {
    trim_end(trim_start(s))
}

/// The visible marker that stands for a line break in a preview.
pub open spec fn line_break_marker() -> Seq<char> {
    seq!['\u{21b5}', ' ']
}

/// `s` with each line feed replaced by the line-break marker.
pub open spec fn mark_line_breaks(s: Seq<char>) -> Seq<char>
    decreases s.len(),
{
    if s.len() == 0 {
        seq![]
    } else {
        mark_line_breaks(s.drop_last()) + if s.last() == '\n' {
            line_break_marker()
        } else {
            seq![s.last()]
        }
    }
}

/// The first `n` characters of `s`, or all of them where it is shorter.
pub open spec fn take_at_most(s: Seq<char>, n: nat) -> Seq<char> {
    if s.len() <= n {
        s
    } else {
        s.take(n as int)
    }
}

/// The characters of `s`, one by one.
pub(crate) fn chars_of(s: &str) -> (r: Vec<char>)
    ensures
        r@ == s@,
{
    let n = s.unicode_len();
    let mut v: Vec<char> = Vec::new();
    let mut i: usize = 0;
    while i < n
        invariant
            n == s@.len(),
            i <= n,
            v@ == s@.take(i as int),
        decreases n - i,
    {
        v.push(s.get_char(i));
        i += 1;
        assert(v@ =~= s@.take(i as int));
    }
    assert(v@ =~= s@);
    v
}

/// At most `n` leading characters of `s`, trimmed, with line breaks marked.
pub fn summary_text(s: &str, n: usize) -> (r: String)
    ensures
        r@ == mark_line_breaks(trimmed(take_at_most(s@, n as nat))),
{
    let len = s.unicode_len();
    let head = s.substring_char(0, if len <= n { len } else { n });
    let v = chars_of(head);
    let ghost h = v@;
    assert(h =~= take_at_most(s@, n as nat));
    let mut i: usize = 0;
    assert(h.subrange(0, h.len() as int) =~= h);
    while i < v.len() && white_space(v[i])
        invariant
            i <= v.len(),
            h == v@,
            trim_start(h) == trim_start(h.subrange(i as int, h.len() as int)),
        decreases v.len() - i,
    {
        assert(h.subrange(i as int, h.len() as int).drop_first() =~= h.subrange(
            i + 1,
            h.len() as int,
        ));
        i += 1;
    }
    let ghost front = h.subrange(i as int, h.len() as int);
    assert(trim_start(h) == front) by {
        if i < v.len() {
        } else {
            assert(front.len() == 0);
        }
    }
    let mut j: usize = v.len();
    while j > i && white_space(v[j - 1])
        invariant
            i <= j <= v.len(),
            h == v@,
            front == h.subrange(i as int, h.len() as int),
            trim_end(front) == trim_end(h.subrange(i as int, j as int)),
        decreases j,
    {
        assert(h.subrange(i as int, j as int).drop_last() =~= h.subrange(i as int, j - 1));
        j -= 1;
    }
    let ghost t = h.subrange(i as int, j as int);
    assert(trimmed(h) == t) by {
        if j > i {
        } else {
            assert(t.len() == 0);
        }
    }
    let mut r = String::new();
    let mut k: usize = i;
    assert(t.take(0) =~= Seq::<char>::empty());
    while k < j
        invariant
            i <= k <= j <= v.len(),
            h == v@,
            t == h.subrange(i as int, j as int),
            r@ == mark_line_breaks(t.take(k - i)),
        decreases j - k,
    {
        let c = v[k];
        if c == '\n' {
            push_char(&mut r, '\u{21b5}');
            push_char(&mut r, ' ');
        } else {
            push_char(&mut r, c);
        }
        k += 1;
        assert(t.take(k - i).drop_last() =~= t.take(k - i - 1));
        assert(r@ =~= mark_line_breaks(t.take(k - i)));
    }
    assert(t.take(j - i) =~= t);
    r
}

/// `rel` joined onto `base` as a Unix path: a rooted `rel` replaces `base`;
/// otherwise a separator goes between them unless `base` is empty or ends
/// in one.
pub open spec fn joined(base: Seq<char>, rel: Seq<char>) -> Seq<char> {
    if rel.len() > 0 && rel[0] == '/' {
        rel
    } else if base.len() == 0 || base.last() == '/' {
        base + rel
    } else {
        base.push('/') + rel
    }
}

/// Joins `rel` onto `base` as a Unix path.
pub fn join_path(base: &str, rel: &str) -> (r: String)
    ensures
        r@ == joined(base@, rel@),
{
    let bn = base.unicode_len();
    let rn = rel.unicode_len();
    if rn > 0 && rel.get_char(0) == '/' {
        return String::from_str(rel);
    }
    let mut r = String::from_str(base);
    if bn > 0 && base.get_char(bn - 1) != '/' {
        push_char(&mut r, '/');
    }
    r.append(rel);
    r
}

} // verus!
