//! Lowercase hexadecimal rendering of byte strings, and the shape of a
//! well-formed digest: exactly 64 lowercase hexadecimal characters.

use vstd::prelude::*;

verus! {

/// True of a byte that is a lowercase hexadecimal digit
/// (ASCII `0` to `9` or `a` to `f`).
pub open spec fn is_hex_byte(b: u8) -> bool {
    (0x30 <= b && b <= 0x39) || (0x61 <= b && b <= 0x66)
}

/// A well-formed digest rendering: exactly 64 lowercase hexadecimal bytes.
pub open spec fn valid_digest(d: Seq<u8>) -> bool {
    d.len() == 64 && (forall|i: int| 0 <= i < 64 ==> is_hex_byte(#[trigger] d[i]))
}

/// The lowercase hexadecimal digit for a value below 16.
pub open spec fn hex_digit(n: u8) -> u8
    recommends
        n < 16,
{
    if n < 10 {
        (0x30 + n) as u8
    } else {
        (0x57 + n) as u8
    }
}

/// The lowercase hexadecimal rendering of a byte string: two digits per
/// byte, most significant digit first.
pub open spec fn hex_of(bytes: Seq<u8>) -> Seq<u8> {
    Seq::new(
        bytes.len() * 2,
        |i: int|
            if i % 2 == 0 {
                hex_digit(bytes[i / 2] / 16)
            } else {
                hex_digit(bytes[i / 2] % 16)
            },
    )
}

/// The hexadecimal rendering of a 32-byte string is a well-formed digest.
pub proof fn lemma_hex_of_valid(bytes: Seq<u8>)
    requires
        bytes.len() == 32,
    ensures
        valid_digest(hex_of(bytes)),
{
    assert forall|i: int| 0 <= i < 64 implies is_hex_byte(#[trigger] hex_of(bytes)[i]) by {
        assert(bytes[i / 2] / 16 < 16);
        assert(bytes[i / 2] % 16 < 16);
    }
}

/// Decides whether a byte is a lowercase hexadecimal digit.
pub fn hex_byte(b: u8) -> (r: bool)
    ensures
        r == is_hex_byte(b),
{
    (0x30 <= b && b <= 0x39) || (0x61 <= b && b <= 0x66)
}

fn hex_digit_exec(n: u8) -> (r: u8)
    requires
        n < 16,
    ensures
        r == hex_digit(n),
{
    if n < 10 {
        0x30 + n
    } else {
        0x57 + n
    }
}

/// Renders a byte string as lowercase hexadecimal text, two digits per
/// byte, most significant digit first.
pub fn to_hex(data: &[u8]) -> (r: Vec<u8>)
    requires
        data@.len() * 2 <= usize::MAX,
    ensures
        r@ == hex_of(data@),
{
    let mut out: Vec<u8> = Vec::new();
    let mut i: usize = 0;
    while i < data.len()
        invariant
            i <= data@.len(),
            data@.len() * 2 <= usize::MAX,
            out@ == hex_of(data@.take(i as int)),
        decreases data@.len() - i,
    {
        let b = data[i];
        out.push(hex_digit_exec(b / 16));
        out.push(hex_digit_exec(b % 16));
        i = i + 1;
        proof {
            assert(out@ =~= hex_of(data@.take(i as int)));
        }
    }
    proof {
        assert(data@.take(data@.len() as int) =~= data@);
    }
    out
}

} // verus!
