use vstd::prelude::*;

use crate::mask::{lt_flags, mask_of};

verus! {

// Lane-wise `<` on `wide` vectors, read back as a bitmask.
//
// Each function loads the two arrays into the named `wide` vector type, compares them
// lane by lane with the vector's `simd_lt`, and converts the resulting mask with
// `to_bitmask`. The `wide` documentation says that `simd_lt` gives a mask whose lane `i`
// is true exactly when `a[i] < b[i]`, and that `to_bitmask` sets bit `i` for each true
// lane, lane 0 in the least significant bit, with all remaining bits `0`. That is what
// each contract states; nothing of it is proved here.

/// `wide::i32x8::simd_lt` of `a` and `b`, through `to_bitmask`: bit `i` is set exactly when
/// `a[i] < b[i]`, and no bit above lane 7 is set.
#[verifier::external_body]
pub(crate) fn lt_mask_i32x8(a: [i32; 8], b: [i32; 8]) -> (r: u32)
    ensures
        r as nat == mask_of(lt_flags(a@, b@)),
{
    wide::i32x8::new(a).simd_lt(wide::i32x8::new(b)).to_bitmask()
}

/// `wide::u32x8::simd_lt` of `a` and `b`, through `to_bitmask`: bit `i` is set exactly when
/// `a[i] < b[i]`, and no bit above lane 7 is set.
#[verifier::external_body]
pub(crate) fn lt_mask_u32x8(a: [u32; 8], b: [u32; 8]) -> (r: u32)
    ensures
        r as nat == mask_of(lt_flags(a@, b@)),
{
    wide::u32x8::new(a).simd_lt(wide::u32x8::new(b)).to_bitmask()
}

/// `wide::i64x4::simd_lt` of `a` and `b`, through `to_bitmask`: bit `i` is set exactly when
/// `a[i] < b[i]`, and no bit above lane 3 is set.
#[verifier::external_body]
pub(crate) fn lt_mask_i64x4(a: [i64; 4], b: [i64; 4]) -> (r: u32)
    ensures
        r as nat == mask_of(lt_flags(a@, b@)),
{
    wide::i64x4::new(a).simd_lt(wide::i64x4::new(b)).to_bitmask()
}

/// `wide::u64x4::simd_lt` of `a` and `b`, through `to_bitmask`: bit `i` is set exactly when
/// `a[i] < b[i]`, and no bit above lane 3 is set.
#[verifier::external_body]
pub(crate) fn lt_mask_u64x4(a: [u64; 4], b: [u64; 4]) -> (r: u32)
    ensures
        r as nat == mask_of(lt_flags(a@, b@)),
{
    wide::u64x4::new(a).simd_lt(wide::u64x4::new(b)).to_bitmask()
}

/// `wide::i32x16::simd_lt` of `a` and `b`, through `to_bitmask`: bit `i` is set exactly when
/// `a[i] < b[i]`, and no bit above lane 15 is set.
#[verifier::external_body]
pub(crate) fn lt_mask_i32x16(a: [i32; 16], b: [i32; 16]) -> (r: u32)
    ensures
        r as nat == mask_of(lt_flags(a@, b@)),
{
    wide::i32x16::new(a).simd_lt(wide::i32x16::new(b)).to_bitmask()
}

/// `wide::u32x16::simd_lt` of `a` and `b`, through `to_bitmask`: bit `i` is set exactly when
/// `a[i] < b[i]`, and no bit above lane 15 is set.
#[verifier::external_body]
pub(crate) fn lt_mask_u32x16(a: [u32; 16], b: [u32; 16]) -> (r: u32)
    ensures
        r as nat == mask_of(lt_flags(a@, b@)),
{
    wide::u32x16::new(a).simd_lt(wide::u32x16::new(b)).to_bitmask()
}

/// `wide::i64x8::simd_lt` of `a` and `b`, through `to_bitmask`: bit `i` is set exactly when
/// `a[i] < b[i]`, and no bit above lane 7 is set.
#[verifier::external_body]
pub(crate) fn lt_mask_i64x8(a: [i64; 8], b: [i64; 8]) -> (r: u32)
    ensures
        r as nat == mask_of(lt_flags(a@, b@)),
{
    wide::i64x8::new(a).simd_lt(wide::i64x8::new(b)).to_bitmask()
}

/// `wide::u64x8::simd_lt` of `a` and `b`, through `to_bitmask`: bit `i` is set exactly when
/// `a[i] < b[i]`, and no bit above lane 7 is set.
#[verifier::external_body]
pub(crate) fn lt_mask_u64x8(a: [u64; 8], b: [u64; 8]) -> (r: u32)
    ensures
        r as nat == mask_of(lt_flags(a@, b@)),
{
    wide::u64x8::new(a).simd_lt(wide::u64x8::new(b)).to_bitmask()
}

/// `wide::i32x4::simd_lt` of `a` and `b`, through `to_bitmask`: bit `i` is set exactly when
/// `a[i] < b[i]`, and no bit above lane 3 is set.
#[verifier::external_body]
pub(crate) fn lt_mask_i32x4(a: [i32; 4], b: [i32; 4]) -> (r: u32)
    ensures
        r as nat == mask_of(lt_flags(a@, b@)),
{
    wide::i32x4::new(a).simd_lt(wide::i32x4::new(b)).to_bitmask()
}

/// `wide::u32x4::simd_lt` of `a` and `b`, through `to_bitmask`: bit `i` is set exactly when
/// `a[i] < b[i]`, and no bit above lane 3 is set.
#[verifier::external_body]
pub(crate) fn lt_mask_u32x4(a: [u32; 4], b: [u32; 4]) -> (r: u32)
    ensures
        r as nat == mask_of(lt_flags(a@, b@)),
{
    wide::u32x4::new(a).simd_lt(wide::u32x4::new(b)).to_bitmask()
}

/// `wide::i64x2::simd_lt` of `a` and `b`, through `to_bitmask`: bit `i` is set exactly when
/// `a[i] < b[i]`, and no bit above lane 1 is set.
#[verifier::external_body]
pub(crate) fn lt_mask_i64x2(a: [i64; 2], b: [i64; 2]) -> (r: u32)
    ensures
        r as nat == mask_of(lt_flags(a@, b@)),
{
    wide::i64x2::new(a).simd_lt(wide::i64x2::new(b)).to_bitmask()
}

/// `wide::u64x2::simd_lt` of `a` and `b`, through `to_bitmask`: bit `i` is set exactly when
/// `a[i] < b[i]`, and no bit above lane 1 is set.
#[verifier::external_body]
pub(crate) fn lt_mask_u64x2(a: [u64; 2], b: [u64; 2]) -> (r: u32)
    ensures
        r as nat == mask_of(lt_flags(a@, b@)),
{
    wide::u64x2::new(a).simd_lt(wide::u64x2::new(b)).to_bitmask()
}

} // verus!
