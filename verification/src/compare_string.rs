//! Comparison and equality callbacks for strings, byte-wise, with
//! case-insensitive variants that fold ASCII letters to lower case.

use vstd::prelude::*;
use vstd::string::StringSliceAdditionalSpecFns;

verus! {

/// The ASCII lower-case fold of one byte.
pub open spec fn lower_byte(b: u8) -> u8 {
    if 65 <= b <= 90 {
        (b + 32) as u8
    } else {
        b
    }
}

/// Byte-wise three-way comparison of two byte sequences from position `i`
/// on: the first position where they differ decides, a shorter sequence
/// comes first.
pub open spec fn lex_cmp_from(a: Seq<u8>, b: Seq<u8>, i: int) -> int
    decreases a.len() - i, b.len() - i,
{
    if i >= a.len() && i >= b.len() {
        0
    } else if i >= a.len() {
        -1
    } else if i >= b.len() {
        1
    } else if a[i] < b[i] {
        -1
    } else if a[i] > b[i] {
        1
    } else {
        lex_cmp_from(a, b, i + 1)
    }
}

/// As `lex_cmp_from`, after folding both sides to lower case.
pub open spec fn nocase_cmp_from(a: Seq<u8>, b: Seq<u8>, i: int) -> int
    decreases a.len() - i, b.len() - i,
{
    if i >= a.len() && i >= b.len() {
        0
    } else if i >= a.len() {
        -1
    } else if i >= b.len() {
        1
    } else if lower_byte(a[i]) < lower_byte(b[i]) {
        -1
    } else if lower_byte(a[i]) > lower_byte(b[i]) {
        1
    } else {
        nocase_cmp_from(a, b, i + 1)
    }
}

/// Byte-wise comparison of two strings: negative, zero or positive as
/// `string1` comes before, equal to or after `string2`.
pub fn string_compare(string1: &str, string2: &str) -> (r: i32)
    ensures
        r == lex_cmp_from(string1.spec_bytes(), string2.spec_bytes(), 0),
{
    let a = string1.as_bytes();
    let b = string2.as_bytes();
    let mut i: usize = 0;
    loop
        invariant
            a@ == string1.spec_bytes(),
            b@ == string2.spec_bytes(),
            i <= a@.len() || i <= b@.len(),
            lex_cmp_from(a@, b@, 0) == lex_cmp_from(a@, b@, i as int),
        decreases a@.len() + b@.len() - i,
    {
        if i >= a.len() && i >= b.len() {
            return 0;
        } else if i >= a.len() {
            return -1;
        } else if i >= b.len() {
            return 1;
        } else if a[i] < b[i] {
            return -1;
        } else if a[i] > b[i] {
            return 1;
        }
        i = i + 1;
    }
}

/// Whether two strings hold the same bytes.
pub fn string_equal(string1: &str, string2: &str) -> (r: bool)
    ensures
        r <==> string1.spec_bytes() == string2.spec_bytes(),
{
    let r = string_compare(string1, string2);
    proof {
        let a = string1.spec_bytes();
        let b = string2.spec_bytes();
        lemma_lex_cmp_zero(a, b, 0);
        if lex_cmp_from(a, b, 0) == 0 {
            assert(a =~= b);
        }
    }
    r == 0
}

/// A zero byte-wise comparison from `i` means the tails from `i` agree.
proof fn lemma_lex_cmp_zero(a: Seq<u8>, b: Seq<u8>, i: int)
    requires
        0 <= i,
        i <= a.len(),
        i <= b.len(),
    ensures
        lex_cmp_from(a, b, i) == 0 <==> (a.len() == b.len() && forall|j: int|
            i <= j < a.len() ==> a[j] == b[j]),
    decreases a.len() + b.len() - i,
{
    if i >= a.len() && i >= b.len() {
    } else if i >= a.len() || i >= b.len() {
    } else if a[i] == b[i] {
        lemma_lex_cmp_zero(a, b, i + 1);
        if lex_cmp_from(a, b, i) == 0 {
            assert forall|j: int| i <= j < a.len() implies a[j] == b[j] by {
                if j != i {
                    assert(i + 1 <= j < a.len());
                }
            }
        }
    }
}

/// Byte-wise comparison of two strings, folding ASCII letters to lower
/// case first.
pub fn string_nocase_compare(string1: &str, string2: &str) -> (r: i32)
    ensures
        r == nocase_cmp_from(string1.spec_bytes(), string2.spec_bytes(), 0),
{
    let a = string1.as_bytes();
    let b = string2.as_bytes();
    let mut i: usize = 0;
    loop
        invariant
            a@ == string1.spec_bytes(),
            b@ == string2.spec_bytes(),
            i <= a@.len() || i <= b@.len(),
            nocase_cmp_from(a@, b@, 0) == nocase_cmp_from(a@, b@, i as int),
        decreases a@.len() + b@.len() - i,
    {
        if i >= a.len() && i >= b.len() {
            return 0;
        } else if i >= a.len() {
            return -1;
        } else if i >= b.len() {
            return 1;
        }
        let ca = lower_byte_exec(a[i]);
        let cb = lower_byte_exec(b[i]);
        if ca < cb {
            return -1;
        } else if ca > cb {
            return 1;
        }
        i = i + 1;
    }
}

/// Whether two strings hold the same bytes up to ASCII case.
pub fn string_nocase_equal(string1: &str, string2: &str) -> (r: bool)
    ensures
        r <==> nocase_cmp_from(string1.spec_bytes(), string2.spec_bytes(), 0) == 0,
{
    string_nocase_compare(string1, string2) == 0
}

/// Folds one ASCII letter to lower case.
fn lower_byte_exec(b: u8) -> (r: u8)
    ensures
        r == lower_byte(b),
{
    if 65 <= b && b <= 90 {
        b + 32
    } else {
        b
    }
}

} // verus!
