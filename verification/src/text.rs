use vstd::prelude::*;
use vstd::utf8::{encode_scalar, encode_utf8};

verus! {

/// Appends one character to a string.
///
/// Wraps `String::push`, whose documentation says it appends the given `char`
/// to the end of the string; vstd gives it no specification.
#[verifier::external_body]
pub(crate) fn push_char(s: &mut String, c: char)
    ensures
        final(s)@ == old(s)@.push(c),
{
    s.push(c);
}

/// The ASCII digit of a value below ten.
pub open spec fn digit_char(d: nat) -> char {
    (d + 48) as char
}

/// The decimal notation of a natural number, without leading zeros.
pub open spec fn decimal(n: nat) -> Seq<char>
    decreases n,
{
    if n < 10 {
        seq![digit_char(n)]
    } else {
        decimal(n / 10) + seq![digit_char(n % 10)]
    }
}

fn digit(d: u8) -> (c: char)
    requires
        d < 10,
    ensures
        c == digit_char(d as nat),
{
    (d + 48) as char
}

/// Appends the decimal notation of `n`.
pub(crate) fn push_decimal(s: &mut String, n: u8)
    ensures
        final(s)@ == old(s)@ + decimal(n as nat),
{
    let ghost start = s@;
    if n >= 100 {
        push_char(s, digit(n / 100));
        push_char(s, digit((n / 10) % 10));
        push_char(s, digit(n % 10));
        assert(decimal((n / 100) as nat) == seq![digit_char((n / 100) as nat)]);
        assert((n / 10) / 10 == n / 100);
        assert(decimal((n / 10) as nat) == decimal((n / 100) as nat) + seq![digit_char(((n / 10) % 10) as nat)]);
        assert(decimal(n as nat) == decimal((n / 10) as nat) + seq![digit_char((n % 10) as nat)]);
        assert(s@ =~= start + decimal(n as nat));
    } else if n >= 10 {
        push_char(s, digit(n / 10));
        push_char(s, digit(n % 10));
        assert(decimal((n / 10) as nat) == seq![digit_char((n / 10) as nat)]);
        assert(decimal(n as nat) == decimal((n / 10) as nat) + seq![digit_char((n % 10) as nat)]);
        assert(s@ =~= start + decimal(n as nat));
    } else {
        push_char(s, digit(n));
        assert(s@ =~= start + decimal(n as nat));
    }
}

/// The byte position at which the `k`-th character of `s` starts in its UTF-8 encoding.
pub open spec fn byte_offset(s: Seq<char>, k: int) -> int {
    encode_utf8(s.take(k)).len() as int
}

/// Encoding one more character appends its encoding.
pub proof fn lemma_encode_push(a: Seq<char>, c: char)
    ensures
        encode_utf8(a.push(c)) == encode_utf8(a) + encode_scalar(c as u32),
    decreases a.len(),
{
    if a.len() == 0 {
        assert(a.push(c).drop_first() =~= Seq::<char>::empty());
        assert(encode_utf8(Seq::<char>::empty()) == Seq::<u8>::empty());
        assert(encode_utf8(a.push(c)) =~= encode_scalar(c as u32));
        assert(encode_utf8(a) == Seq::<u8>::empty());
        assert(encode_utf8(a) + encode_scalar(c as u32) =~= encode_scalar(c as u32));
    } else {
        lemma_encode_push(a.drop_first(), c);
        assert(a.push(c).drop_first() =~= a.drop_first().push(c));
        assert(a.push(c)[0] == a[0]);
        assert(encode_utf8(a.push(c)) =~= encode_utf8(a) + encode_scalar(c as u32));
    }
}

/// The width of a character's UTF-8 encoding is between one and four bytes.
pub proof fn lemma_scalar_width(c: char)
    ensures
        1 <= encode_scalar(c as u32).len() <= 4,
{
}

/// Each character starts right after the bytes of the one before it.
pub proof fn lemma_offset_step(s: Seq<char>, k: int)
    requires
        0 <= k < s.len(),
    ensures
        byte_offset(s, k + 1) == byte_offset(s, k) + encode_scalar(s[k] as u32).len(),
        byte_offset(s, k) < byte_offset(s, k + 1),
{
    assert(s.take(k + 1) =~= s.take(k).push(s[k]));
    lemma_encode_push(s.take(k), s[k]);
    lemma_scalar_width(s[k]);
}

/// Later characters start later.
pub proof fn lemma_offset_order(s: Seq<char>, k: int, m: int)
    requires
        0 <= k <= m <= s.len(),
    ensures
        byte_offset(s, k) <= byte_offset(s, m),
        k < m ==> byte_offset(s, k) < byte_offset(s, m),
    decreases m - k,
{
    if k < m {
        lemma_offset_order(s, k, m - 1);
        lemma_offset_step(s, m - 1);
    }
}

/// The first character starts at byte 0.
pub proof fn lemma_offset_zero(s: Seq<char>)
    ensures
        byte_offset(s, 0) == 0,
{
    assert(s.take(0) =~= Seq::<char>::empty());
}

/// The number of bytes in the UTF-8 encoding of `c`.
pub(crate) fn utf8_width(c: char) -> (n: usize)
    ensures
        n == encode_scalar(c as u32).len(),
{
    let v = c as u32;
    if v <= 0x7F {
        1
    } else if v <= 0x7FF {
        2
    } else if v <= 0xFFFF {
        3
    } else {
        4
    }
}

} // verus!
