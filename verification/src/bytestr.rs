//! Small helpers on byte strings.
//!
//! Paths, command tokens and variable values are byte strings (`Vec<u8>`);
//! all contracts speak of their views (`Seq<u8>`).

use vstd::prelude::*;

verus! {

/// Forward slash, the separator of relative paths.
pub const SLASH: u8 = 47;

/// Backslash, the separator of host paths on some platforms.
pub const BACKSLASH: u8 = 92;

/// Compares two byte strings for equality.
pub fn bytes_eq(a: &[u8], b: &[u8]) -> (r: bool)
    ensures
        r == (a@ == b@),
{
    if a.len() != b.len() {
        assert(a@ != b@);
        return false;
    }
    let mut i: usize = 0;
    while i < a.len()
        invariant
            i <= a.len(),
            a.len() == b.len(),
            forall|j: int| 0 <= j < i ==> a@[j] == b@[j],
        decreases a.len() - i,
    {
        if a[i] != b[i] {
            assert(a@ != b@);
            return false;
        }
        i += 1;
    }
    assert(a@ =~= b@);
    true
}

/// One byte with backslashes turned into forward slashes.
pub open spec fn to_forward(b: u8) -> u8 {
    if b == BACKSLASH {
        SLASH
    } else {
        b
    }
}

/// One byte with forward slashes turned into backslashes.
pub open spec fn to_backward(b: u8) -> u8 {
    if b == SLASH {
        BACKSLASH
    } else {
        b
    }
}

/// Replaces every backslash with a forward slash.
pub fn forward_slashes(a: &[u8]) -> (r: Vec<u8>)
    ensures
        r@ == a@.map_values(|b: u8| to_forward(b)),
{
    let mut out: Vec<u8> = Vec::new();
    let mut i: usize = 0;
    while i < a.len()
        invariant
            i <= a.len(),
            out@ =~= a@.take(i as int).map_values(|b: u8| to_forward(b)),
        decreases a.len() - i,
    {
        let b = a[i];
        if b == BACKSLASH {
            out.push(SLASH);
        } else {
            out.push(b);
        }
        assert(a@.take(i + 1) =~= a@.take(i as int).push(a@[i as int]));
        i += 1;
    }
    assert(a@.take(a@.len() as int) =~= a@);
    out
}

/// Replaces every forward slash with a backslash.
pub fn backward_slashes(a: &[u8]) -> (r: Vec<u8>)
    ensures
        r@ == a@.map_values(|b: u8| to_backward(b)),
{
    let mut out: Vec<u8> = Vec::new();
    let mut i: usize = 0;
    while i < a.len()
        invariant
            i <= a.len(),
            out@ =~= a@.take(i as int).map_values(|b: u8| to_backward(b)),
        decreases a.len() - i,
    {
        let b = a[i];
        if b == SLASH {
            out.push(BACKSLASH);
        } else {
            out.push(b);
        }
        assert(a@.take(i + 1) =~= a@.take(i as int).push(a@[i as int]));
        i += 1;
    }
    assert(a@.take(a@.len() as int) =~= a@);
    out
}

/// Copies a byte slice into an owned byte string.
pub fn copy_bytes(a: &[u8]) -> (r: Vec<u8>)
    ensures
        r@ == a@,
{
    vstd::slice::slice_to_vec(a)
}

} // verus!
