//! Content hashes.

use vstd::prelude::*;

verus! {

/// The BLAKE3 hash of some bytes.
pub uninterp spec fn blake3_bytes(bytes: Seq<u8>) -> Seq<u8>;

/// Hashes bytes with `blake3::hash`, whose result has 32 bytes. Which bytes is left to the
/// hash function.
#[verifier::external_body]
fn hash_with_blake3(bytes: &[u8]) -> (r: Vec<u8>)
    ensures
        r@ == blake3_bytes(bytes@),
        r@.len() == 32,
{
    blake3::hash(bytes).as_bytes().to_vec()
}

/// A hexadecimal digit, in lower case.
pub open spec fn hex_digit(n: int) -> char {
    if n < 10 {
        (48 + n) as char
    } else {
        (87 + n) as char
    }
}

/// Bytes in hexadecimal, two digits each.
pub open spec fn hex(bytes: Seq<u8>) -> Seq<char>
    decreases bytes.len(),
{
    if bytes.len() == 0 {
        seq![]
    } else {
        hex(bytes.drop_last()) + seq![
            hex_digit((bytes.last() / 16) as int),
            hex_digit((bytes.last() % 16) as int),
        ]
    }
}

/// Whether a text is made of hexadecimal digits in lower case.
pub open spec fn is_hex(text: Seq<char>) -> bool {
    forall|i: int|
        0 <= i < text.len() ==> '0' <= #[trigger] text[i] <= '9' || 'a' <= text[i] <= 'f'
}

/// A hexadecimal digit, in lower case.
fn digit_of(n: u8) -> (r: char)
    requires
        n < 16,
    ensures
        r == hex_digit(n as int),
        '0' <= r <= '9' || 'a' <= r <= 'f',
{
    if n < 10 {
        (48 + n) as char
    } else {
        (87 + n) as char
    }
}

/// Bytes in hexadecimal.
fn hex_text(bytes: &Vec<u8>) -> (r: String)
    ensures
        r@ == hex(bytes@),
        r@.len() == 2 * bytes@.len(),
        is_hex(r@),
{
    let mut out = String::new();
    let mut i: usize = 0;
    while i < bytes.len()
        invariant
            i <= bytes@.len(),
            out@ == hex(bytes@.take(i as int)),
            out@.len() == 2 * i,
            is_hex(out@),
        decreases bytes@.len() - i,
    {
        let ghost before = out@;
        out.push(digit_of(bytes[i] / 16));
        out.push(digit_of(bytes[i] % 16));
        assert(bytes@.take(i + 1).drop_last() =~= bytes@.take(i as int));
        assert(out@ =~= hex(bytes@.take(i + 1)));
        i += 1;
    }
    assert(bytes@.take(bytes@.len() as int) =~= bytes@);
    out
}

/// The hash of some bytes, in hexadecimal.
pub open spec fn blake3_hex(bytes: Seq<u8>) -> Seq<char> {
    hex(blake3_bytes(bytes))
}

/// The hash of a text in UTF-8, in hexadecimal.
pub open spec fn text_hash(text: Seq<char>) -> Seq<char> {
    blake3_hex(vstd::utf8::encode_utf8(text))
}

/// The hash of a text in UTF-8, in hexadecimal.
pub fn hash_text(text: &str) -> (r: String)
    ensures
        r@ == text_hash(text@),
        r@.len() == 64,
        is_hex(r@),
{
    hex_text(&hash_with_blake3(text.as_bytes()))
}

/// The hash of some bytes, in hexadecimal.
pub fn hash_bytes(bytes: &[u8]) -> (r: String)
    ensures
        r@ == blake3_hex(bytes@),
        r@.len() == 64,
        is_hex(r@),
{
    hex_text(&hash_with_blake3(bytes))
}

/// The hash of some bytes.
pub fn raw_hash(bytes: &[u8]) -> (r: Vec<u8>)
    ensures
        r@ == blake3_bytes(bytes@),
        r@.len() == 32,
{
    hash_with_blake3(bytes)
}

} // verus!
