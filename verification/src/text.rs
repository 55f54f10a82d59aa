//! Text: building strings piece by piece, and bytes that spell text.
use crate::decimal::{dec_digits, dec_int};
use vstd::prelude::*;
use vstd::utf8::{decode_utf8, valid_utf8};

verus! {

/// `String::push` appends one character.
pub assume_specification[ String::push ](s: &mut String, c: char)
    ensures
        final(s)@ == old(s)@.push(c),
;

/// `String::push_str` appends a string slice.
pub assume_specification[ String::push_str ](s: &mut String, t: &str)
    ensures
        final(s)@ == old(s)@ + t@,
;

/// The error of `String::from_utf8`.
#[verifier::external_type_specification]
#[verifier::external_body]
pub struct ExFromUtf8Error(std::string::FromUtf8Error);

/// `String::from_utf8` accepts exactly the valid UTF-8 byte strings and gives
/// the characters that they encode.
pub assume_specification[ String::from_utf8 ](v: Vec<u8>) -> (r: Result<
    String,
    std::string::FromUtf8Error,
>)
    ensures
        r is Ok <==> valid_utf8(v@),
        r is Ok ==> r->Ok_0@ == decode_utf8(v@),
;

/// Each byte as the character with that code.
pub open spec fn as_chars(b: Seq<u8>) -> Seq<char> {
    Seq::new(b.len(), |i: int| b[i] as char)
}

/// A natural number in decimal.
pub open spec fn number_text(n: nat) -> Seq<char> {
    as_chars(dec_digits(n))
}

/// An integer in decimal.
pub open spec fn int_text(n: int) -> Seq<char> {
    as_chars(dec_int(n))
}

/// Appends a natural number in decimal.
pub fn push_number(s: &mut String, n: u64)
    ensures
        final(s)@ == old(s)@ + number_text(n as nat),
    decreases n,
{
    if n >= 10 {
        push_number(s, n / 10);
    }
    let d: u8 = 48 + (n % 10) as u8;
    s.push(d as char);
    assert(s@ =~= old(s)@ + number_text(n as nat));
}

/// Appends an integer in decimal.
pub fn push_int(s: &mut String, n: i64)
    ensures
        final(s)@ == old(s)@ + int_text(n as int),
{
    if n < 0 {
        s.push('-');
        let magnitude: u64 = if n == i64::MIN {
            0x8000_0000_0000_0000u64
        } else {
            (-n) as u64
        };
        push_number(s, magnitude);
        assert(s@ =~= old(s)@ + int_text(n as int));
    } else {
        push_number(s, n as u64);
    }
}

/// A string with the characters of `t`.
pub fn text(t: &str) -> (r: String)
    ensures
        r@ == t@,
{
    t.to_owned()
}

/// The character of a hexadecimal digit, in lower case.
pub open spec fn hex_char(n: u8) -> char {
    if n < 10 {
        (48 + n) as char
    } else {
        (87 + n) as char
    }
}

/// Two hexadecimal digits per byte.
pub open spec fn hex_text(b: Seq<u8>) -> Seq<char> {
    Seq::new(2 * b.len(), |i: int| if i % 2 == 0 { hex_char(b[i / 2] / 16) } else { hex_char(b[i / 2] % 16) })
}

/// The lower-case character of a hexadecimal digit.
pub fn nybble(n: u8) -> (r: char)
    requires
        n < 16,
    ensures
        r == hex_char(n),
{
    if n < 10 {
        (48 + n) as char
    } else {
        (87 + n) as char
    }
}

/// Appends two lower-case hexadecimal digits per byte.
pub fn push_hex(s: &mut String, b: &[u8])
    ensures
        final(s)@ == old(s)@ + hex_text(b@),
{
    let mut i: usize = 0;
    assert(s@ =~= old(s)@ + hex_text(b@.take(0)));
    while i < b.len()
        invariant
            i <= b@.len(),
            s@ == old(s)@ + hex_text(b@.take(i as int)),
        decreases b@.len() - i,
    {
        s.push(nybble(b[i] / 16));
        s.push(nybble(b[i] % 16));
        assert(s@ =~= old(s)@ + hex_text(b@.take(i + 1)));
        i = i + 1;
    }
    assert(b@.take(i as int) =~= b@);
}

/// Two lower-case hexadecimal digits per byte.
pub fn hex_encode(b: &[u8]) -> (r: String)
    ensures
        r@ == hex_text(b@),
{
    let mut s = String::new();
    push_hex(&mut s, b);
    assert(s@ =~= hex_text(b@));
    s
}

proof fn lemma_hex_at(b: Seq<u8>, i: int)
    requires
        0 <= i < b.len(),
    ensures
        hex_text(b)[2 * i] == hex_char(b[i] / 16),
        hex_text(b)[2 * i + 1] == hex_char(b[i] % 16),
{
    let even: int = 2 * i;
    let odd: int = 2 * i + 1;
    assert(even / 2 == i && odd / 2 == i && even % 2 == 0 && odd % 2 == 1);
}

/// Hexadecimal text is ASCII.
pub proof fn lemma_hex_ascii(b: Seq<u8>, i: int)
    requires
        0 <= i < hex_text(b).len(),
    ensures
        '0' <= hex_text(b)[i] <= 'f',
{
    let n = if i % 2 == 0 { b[i / 2] / 16 } else { b[i / 2] % 16 };
    assert(n < 16);
    assert(hex_text(b)[i] == hex_char(n as u8));
}

/// Hexadecimal text is one to one.
pub proof fn law_hex_injective(a: Seq<u8>, b: Seq<u8>)
    requires
        hex_text(a) == hex_text(b),
    ensures
        a == b,
{
    assert(hex_text(a).len() == 2 * a.len());
    assert(hex_text(b).len() == 2 * b.len());
    assert forall|i: int| 0 <= i < a.len() implies a[i] == b[i] by {
        lemma_hex_at(a, i);
        lemma_hex_at(b, i);
        assert(hex_char(a[i] / 16) == hex_char(b[i] / 16));
        assert(hex_char(a[i] % 16) == hex_char(b[i] % 16));
    }
    assert(a =~= b);
}

} // verus!
