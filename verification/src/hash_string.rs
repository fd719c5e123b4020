//! String hash callbacks: the classic multiply-by-33 hash over a string's
//! bytes, with a case-insensitive variant.

use crate::compare_string::lower_byte;
use vstd::prelude::*;
use vstd::string::StringSliceAdditionalSpecFns;

verus! {

/// The multiply-by-33 hash of the first `n` bytes of `s`, in wrapping
/// 32-bit arithmetic, seeded with 5381.
pub open spec fn string_hash_upto(s: Seq<u8>, n: int) -> u32
    decreases n,
{
    if n <= 0 {
        5381u32
    } else {
        ((33 * string_hash_upto(s, n - 1) + s[n - 1]) % 0x1_0000_0000) as u32
    }
}

/// As `string_hash_upto`, folding each byte to ASCII lower case first.
pub open spec fn string_nocase_hash_upto(s: Seq<u8>, n: int) -> u32
    decreases n,
{
    if n <= 0 {
        5381u32
    } else {
        ((33 * string_nocase_hash_upto(s, n - 1) + lower_byte(s[n - 1])) % 0x1_0000_0000) as u32
    }
}

/// The multiply-by-33 hash of the string's bytes.
pub fn string_hash(string: &str) -> (r: u32)
    ensures
        r == string_hash_upto(string.spec_bytes(), string.spec_bytes().len() as int),
{
    let bytes = string.as_bytes();
    let mut result: u32 = 5381;
    let mut i: usize = 0;
    while i < bytes.len()
        invariant
            bytes@ == string.spec_bytes(),
            i <= bytes@.len(),
            result == string_hash_upto(bytes@, i as int),
        decreases bytes@.len() - i,
    {
        result = result.wrapping_mul(33).wrapping_add(bytes[i] as u32);
        i = i + 1;
    }
    result
}

/// The multiply-by-33 hash of the string's bytes, folded to lower case, so
/// that two strings differing only in ASCII case hash alike.
pub fn string_nocase_hash(string: &str) -> (r: u32)
    ensures
        r == string_nocase_hash_upto(string.spec_bytes(), string.spec_bytes().len() as int),
{
    let bytes = string.as_bytes();
    let mut result: u32 = 5381;
    let mut i: usize = 0;
    while i < bytes.len()
        invariant
            bytes@ == string.spec_bytes(),
            i <= bytes@.len(),
            result == string_nocase_hash_upto(bytes@, i as int),
        decreases bytes@.len() - i,
    {
        let b = bytes[i];
        let low: u8 = if 65 <= b && b <= 90 {
            b + 32
        } else {
            b
        };
        result = result.wrapping_mul(33).wrapping_add(low as u32);
        i = i + 1;
    }
    result
}

} // verus!
