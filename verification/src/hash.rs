//! The four-digit hash from which the name of a line is made.
use crate::text::{digit, digit_char};
use vstd::prelude::*;

verus! {

/// The 32-bit xxHash of `input` under `seed`.
pub uninterp spec fn xxh32_digest(input: Seq<u8>, seed: u32) -> u32;

/// `xxhash_rust::xxh32::xxh32` returns a number that its two arguments alone determine: the one
/// that `xxh32_digest` names. Nothing is said of which number it is.
pub assume_specification[ xxhash_rust::xxh32::xxh32 ](input: &[u8], seed: u32) -> (digest: u32)
    ensures
        digest == xxh32_digest(input@, seed),
;

/// `n` as four hexadecimal digits.
pub open spec fn four_digits(n: int) -> Seq<char> {
    seq![digit(n / 4096), digit(n / 256 % 16), digit(n / 16 % 16), digit(n % 16)]
}

/// The hash of `input`: the lower half of its digest under seed 0, as four hexadecimal digits.
pub open spec fn short_hash(input: Seq<u8>) -> Seq<char> {
    four_digits(xxh32_digest(input, 0) as int % 0x10000)
}

/// Writes the lower half of `digest` as four hexadecimal digits.
pub fn lower_half_hex(digest: u32) -> (hex: String)
    ensures
        hex@ == four_digits(digest as int % 0x10000),
{
    let n: u32 = digest & 0xffff;
    assert(n == digest % 0x10000) by (bit_vector)
        requires
            n == digest & 0xffff,
    ;
    let mut hex: String = String::new();
    hex.push(digit_char((n / 4096) as usize));
    hex.push(digit_char((n / 256 % 16) as usize));
    hex.push(digit_char((n / 16 % 16) as usize));
    hex.push(digit_char((n % 16) as usize));
    assert(hex@ =~= four_digits(n as int));
    hex
}

/// Hashes `input` to four hexadecimal digits.
pub fn four_char_hash(input: &[u8]) -> (hash: String)
    ensures
        hash@ == short_hash(input@),
{
    lower_half_hex(xxhash_rust::xxh32::xxh32(input, 0))
}

/// Whether `c` is a hexadecimal digit in lower case.
pub open spec fn hex_digit(c: char) -> bool {
    '0' <= c <= '9' || 'a' <= c <= 'f'
}

/// A hash has four characters, each a hexadecimal digit in lower case.
pub proof fn law_hash_is_four_hex_digits(input: Seq<u8>)
    ensures
        short_hash(input).len() == 4,
        forall|i: int| 0 <= i < 4 ==> hex_digit(#[trigger] short_hash(input)[i]),
{
    reveal_strlit("0123456789abcdef");
}

/// The value of a hexadecimal digit in lower case.
pub open spec fn hex_value(c: char) -> int {
    if c <= '9' {
        c as int - '0' as int
    } else {
        c as int - 'a' as int + 10
    }
}

/// A hash, read as a hexadecimal number, is the lower half of the 32-bit digest of its input under
/// the seed 0.
pub proof fn law_hash_is_the_lower_half_of_the_digest(input: Seq<u8>)
    ensures
        hex_value(short_hash(input)[0]) * 4096 + hex_value(short_hash(input)[1]) * 256 + hex_value(
            short_hash(input)[2],
        ) * 16 + hex_value(short_hash(input)[3]) == xxh32_digest(input, 0) as int % 0x10000,
{
    reveal_strlit("0123456789abcdef");
    assert forall|d: int| 0 <= d < 16 implies hex_value(#[trigger] digit(d)) == d by {
        assert(d == 0 || d == 1 || d == 2 || d == 3 || d == 4 || d == 5 || d == 6 || d == 7 || d == 8 || d == 9 || d
            == 10 || d == 11 || d == 12 || d == 13 || d == 14 || d == 15);
    }
    let n = xxh32_digest(input, 0) as int % 0x10000;
    assert(0 <= n < 0x10000);
}

} // verus!
