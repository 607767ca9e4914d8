//! Character-level helpers shared by the parsers and emitters.

use vstd::prelude::*;

verus! {

broadcast use vstd::string::group_string_axioms;

/// The ASCII digit for a value below ten.
pub open spec fn digit_char(d: nat) -> char {
    if d == 0 { '0' } else if d == 1 { '1' } else if d == 2 { '2' } else if d == 3 { '3' }
    else if d == 4 { '4' } else if d == 5 { '5' } else if d == 6 { '6' } else if d == 7 { '7' }
    else if d == 8 { '8' } else { '9' }
}

/// Shortest base-ten spelling of `n`.
pub open spec fn decimal(n: nat) -> Seq<char>
    decreases n,
{
    if n < 10 {
        seq![digit_char(n)]
    } else {
        decimal(n / 10).push(digit_char(n % 10))
    }
}

/// Appends one character with `String::push`.
#[verifier::external_body]
pub(crate) fn push_char(s: &mut String, c: char)
    ensures
        final(s)@ == old(s)@.push(c),
{
    s.push(c);
}

/// The characters of a text, in order.
pub fn chars_of(s: &str) -> (v: Vec<char>)
    ensures
        v@ == s@,
{
    let mut v: Vec<char> = Vec::new();
    for c in it: s.chars()
        invariant
            v@ == it.seq().take(it.index()),
            it.seq() == s@,
    {
        v.push(c);
    }
    v
}


/// A `String` holding exactly the given characters.
pub fn string_of(chars: &[char]) -> (s: String)
    ensures
        s@ == chars@,
{
    let mut s = String::new();
    let mut i: usize = 0;
    while i < chars.len()
        invariant
            i <= chars@.len(),
            s@ == chars@.take(i as int),
        decreases chars@.len() - i,
    {
        push_char(&mut s, chars[i]);
        i += 1;
        assert(s@ =~= chars@.take(i as int));
    }
    assert(chars@.take(i as int) =~= chars@);
    s
}

/// Whether a string reads exactly `lit`.
pub fn str_is(s: &String, lit: &str) -> (b: bool)
    ensures
        b == (s@ == lit@),
{
    let t = lit.to_owned();
    *s == t
}

/// Appends a text.
pub(crate) fn push_str(s: &mut String, t: &str)
    ensures
        final(s)@ == old(s)@ + t@,
{
    s.append(t);
}

pub fn digit(d: u64) -> (c: char)
    requires
        d < 10,
    ensures
        c == digit_char(d as nat),
{
    if d == 0 { '0' } else if d == 1 { '1' } else if d == 2 { '2' } else if d == 3 { '3' }
    else if d == 4 { '4' } else if d == 5 { '5' } else if d == 6 { '6' } else if d == 7 { '7' }
    else if d == 8 { '8' } else { '9' }
}

/// Appends the decimal spelling of `n`.
pub fn push_decimal(s: &mut String, n: u64)
    ensures
        final(s)@ == old(s)@ + decimal(n as nat),
    decreases n,
{
    if n < 10 {
        push_char(s, digit(n));
    } else {
        push_decimal(s, n / 10);
        push_char(s, digit(n % 10));
        assert(decimal(n as nat) == decimal((n / 10) as nat).push(digit_char((n % 10) as nat)));
    }
}

/// `k` copies of `c`.
pub open spec fn repeat_char(c: char, k: nat) -> Seq<char>
    decreases k,
{
    if k == 0 { Seq::empty() } else { repeat_char(c, (k - 1) as nat).push(c) }
}

/// The decimal spelling of `n`, left-padded with zeros to at least `width`
/// characters.
pub open spec fn zero_padded(n: nat, width: nat) -> Seq<char> {
    let d = decimal(n);
    if d.len() >= width { d } else { repeat_char('0', (width - d.len()) as nat) + d }
}

/// `10` to the power `w`.
pub open spec fn pow10(w: nat) -> nat
    decreases w,
{
    if w == 0 { 1 } else { 10 * pow10((w - 1) as nat) }
}

/// The last `w` decimal digits of `n`, most significant first.
pub open spec fn fixed_digits(n: nat, w: nat) -> Seq<char>
    decreases w,
{
    if w == 0 { Seq::empty() } else { fixed_digits(n / 10, (w - 1) as nat).push(digit_char(n % 10)) }
}

/// The digit characters are `'0'` to `'9'` in order.
pub proof fn lemma_digit_char_value(d: nat)
    requires
        d < 10,
    ensures
        digit_char(d) as u32 == 48 + d,
{
}

pub proof fn lemma_fixed_digits_len(n: nat, w: nat)
    ensures
        fixed_digits(n, w).len() == w,
    decreases w,
{
    if w > 0 {
        lemma_fixed_digits_len(n / 10, (w - 1) as nat);
    }
}

proof fn lemma_fixed_zeros(k: nat)
    ensures
        fixed_digits(0, k) == repeat_char('0', k),
    decreases k,
{
    if k > 0 {
        lemma_fixed_zeros((k - 1) as nat);
    }
}

/// A number below `10^w` has at most `w` digits.
pub proof fn lemma_decimal_len(n: nat, w: nat)
    requires
        1 <= w,
        n < pow10(w),
    ensures
        1 <= decimal(n).len() <= w,
    decreases w,
{
    if n >= 10 {
        assert(w > 1) by {
            reveal_with_fuel(pow10, 2);
        }
        assert(n / 10 < pow10((w - 1) as nat));
        lemma_decimal_len(n / 10, (w - 1) as nat);
    }
}

/// Below `10^w`, padding to `w` digits writes exactly the last `w` digits.
pub proof fn lemma_zero_padded_fixed(n: nat, w: nat)
    requires
        1 <= w,
        n < pow10(w),
    ensures
        zero_padded(n, w) == fixed_digits(n, w),
    decreases w,
{
    if n < 10 {
        assert(decimal(n) == seq![digit_char(n)]);
        lemma_fixed_zeros((w - 1) as nat);
        assert(n / 10 == 0 && n % 10 == n);
        assert(zero_padded(n, w) =~= fixed_digits(n, w));
    } else {
        assert(w > 1) by {
            reveal_with_fuel(pow10, 2);
        }
        let m = n / 10;
        assert(m < pow10((w - 1) as nat));
        lemma_zero_padded_fixed(m, (w - 1) as nat);
        lemma_decimal_len(m, (w - 1) as nat);
        let x = digit_char(n % 10);
        let d = decimal(m);
        assert(decimal(n) == d.push(x));
        if d.len() < w - 1 {
            let z = repeat_char('0', (w - 1 - d.len()) as nat);
            assert(z + d.push(x) =~= (z + d).push(x));
        }
        assert(zero_padded(n, w) =~= fixed_digits(n, w));
    }
}

/// Appends `n` left-padded with zeros to at least `width` digits.
pub fn push_zero_padded(s: &mut String, n: u64, width: usize)
    ensures
        final(s)@ == old(s)@ + zero_padded(n as nat, width as nat),
{
    let mut d = String::new();
    push_decimal(&mut d, n);
    assert(d@ =~= decimal(n as nat));
    let k = d.as_str().unicode_len();
    if k < width {
        let mut i: usize = k;
        while i < width
            invariant
                k <= i <= width,
                s@ == old(s)@ + repeat_char('0', (i - k) as nat),
            decreases width - i,
        {
            push_char(s, '0');
            i += 1;
            assert(repeat_char('0', (i - k) as nat) == repeat_char('0', (i - 1 - k) as nat).push('0'));
        }
    }
    s.append(d.as_str());
    assert(s@ =~= old(s)@ + zero_padded(n as nat, width as nat));
}

/// `char::is_whitespace`: the characters with the Unicode `White_Space`
/// property.
pub open spec fn is_white_space(c: char) -> bool {
    ||| '\u{9}' <= c <= '\u{d}'
    ||| c == ' '
    ||| c == '\u{85}'
    ||| c == '\u{a0}'
    ||| c == '\u{1680}'
    ||| '\u{2000}' <= c <= '\u{200a}'
    ||| c == '\u{2028}'
    ||| c == '\u{2029}'
    ||| c == '\u{202f}'
    ||| c == '\u{205f}'
    ||| c == '\u{3000}'
}

pub fn white_space(c: char) -> (b: bool)
    ensures
        b == is_white_space(c),
{
    ('\u{9}' <= c && c <= '\u{d}') || c == ' ' || c == '\u{85}' || c == '\u{a0}' || c == '\u{1680}'
        || ('\u{2000}' <= c && c <= '\u{200a}') || c == '\u{2028}' || c == '\u{2029}' || c
        == '\u{202f}' || c == '\u{205f}' || c == '\u{3000}'
}

/// `s` without leading white space.
pub open spec fn trim_start(s: Seq<char>) -> Seq<char>
    decreases s.len(),
{
    if s.len() > 0 && is_white_space(s[0]) { trim_start(s.drop_first()) } else { s }
}

/// `s` without trailing white space.
pub open spec fn trim_end(s: Seq<char>) -> Seq<char>
    decreases s.len(),
{
    if s.len() > 0 && is_white_space(s.last()) { trim_end(s.drop_last()) } else { s }
}

/// `str::trim`: `s` without leading and trailing white space.
pub open spec fn trim(s: Seq<char>) -> Seq<char> {
    trim_end(trim_start(s))
}

/// The characters of `s` between the first and after the last one that is
/// not white space.
pub fn trimmed(s: &[char]) -> (t: Vec<char>)
    ensures
        t@ == trim(s@),
{
    let n = s.len();
    let mut i: usize = 0;
    assert(s@.subrange(0, n as int) =~= s@);
    while i < n && white_space(s[i])
        invariant
            i <= n == s@.len(),
            trim_start(s@) == trim_start(s@.subrange(i as int, n as int)),
        decreases n - i,
    {
        assert(s@.subrange(i as int, n as int).drop_first() =~= s@.subrange(i + 1, n as int));
        i += 1;
    }
    assert(trim_start(s@) == s@.subrange(i as int, n as int));
    let mut j: usize = n;
    while j > i && white_space(s[j - 1])
        invariant
            i <= j <= n == s@.len(),
            trim(s@) == trim_end(s@.subrange(i as int, j as int)),
        decreases j,
    {
        assert(s@.subrange(i as int, j as int).drop_last() =~= s@.subrange(i as int, j - 1));
        j -= 1;
    }
    let mut t: Vec<char> = Vec::new();
    let mut k: usize = i;
    while k < j
        invariant
            i <= k <= j <= n == s@.len(),
            t@ == s@.subrange(i as int, k as int),
        decreases j - k,
    {
        t.push(s[k]);
        k += 1;
        assert(t@ =~= s@.subrange(i as int, k as int));
    }
    t
}

/// Number of occurrences of `c` in `s`.
pub open spec fn count_char(s: Seq<char>, c: char) -> nat
    decreases s.len(),
{
    if s.len() == 0 {
        0
    } else {
        count_char(s.drop_last(), c) + if s.last() == c { 1nat } else { 0nat }
    }
}

/// Number of occurrences of `c` among the first `end` characters of `s`.
pub fn count_char_upto(s: &[char], c: char, end: usize) -> (k: usize)
    requires
        end <= s@.len(),
    ensures
        k == count_char(s@.take(end as int), c),
{
    let mut k: usize = 0;
    let mut i: usize = 0;
    while i < end
        invariant
            i <= end <= s@.len(),
            k == count_char(s@.take(i as int), c),
            k <= i,
        decreases end - i,
    {
        assert(s@.take(i + 1).drop_last() =~= s@.take(i as int));
        if s[i] == c {
            k += 1;
        }
        i += 1;
    }
    k
}

/// The lowercase hexadecimal digit for a value below sixteen.
pub open spec fn hex_digit(d: nat) -> char {
    if d < 10 { digit_char(d) } else if d == 10 { 'a' } else if d == 11 { 'b' }
    else if d == 12 { 'c' } else if d == 13 { 'd' } else if d == 14 { 'e' } else { 'f' }
}

/// Lowercase hexadecimal spelling of a byte string, two digits per byte,
/// high nibble first.
pub open spec fn lower_hex(b: Seq<u8>) -> Seq<char>
    decreases b.len(),
{
    if b.len() == 0 {
        Seq::empty()
    } else {
        lower_hex(b.drop_last()).push(hex_digit((b.last() / 16) as nat)).push(
            hex_digit((b.last() % 16) as nat),
        )
    }
}

fn hex(d: u8) -> (c: char)
    requires
        d < 16,
    ensures
        c == hex_digit(d as nat),
{
    if d < 10 {
        digit(d as u64)
    } else if d == 10 { 'a' } else if d == 11 { 'b' } else if d == 12 { 'c' } else if d == 13 { 'd' }
    else if d == 14 { 'e' } else { 'f' }
}

/// The lowercase hexadecimal spelling of `b`.
pub fn to_lower_hex(b: &[u8]) -> (s: String)
    ensures
        s@ == lower_hex(b@),
        s@.len() == 2 * b@.len(),
{
    let mut s = String::new();
    let mut i: usize = 0;
    while i < b.len()
        invariant
            i <= b@.len(),
            s@ == lower_hex(b@.take(i as int)),
            s@.len() == 2 * i,
        decreases b@.len() - i,
    {
        assert(b@.take(i + 1).drop_last() =~= b@.take(i as int));
        let x = b[i];
        push_char(&mut s, hex(x / 16));
        push_char(&mut s, hex(x % 16));
        i += 1;
    }
    assert(b@.take(i as int) =~= b@);
    s
}

} // verus!

verus! {

/// Decodes UTF-8 with `std::str::from_utf8`. Trusted: the bytes are
/// accepted exactly when they are valid UTF-8, and then decode to
/// `decode_utf8` of them.
#[verifier::external_body]
pub(crate) fn utf8_decode(b: &[u8]) -> (res: Option<&str>)
    ensures
        res is Some <==> vstd::utf8::valid_utf8(b@),
        res matches Some(s) ==> s@ == vstd::utf8::decode_utf8(b@),
{
    std::str::from_utf8(b).ok()
}

} // verus!
