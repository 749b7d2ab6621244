//! Plain-value vectors and matrices.
//!
//! Every component is held as the IEEE-754 bit pattern of an `f32`, so the
//! library itself never computes with floating point: products, compositions
//! and projections are delegated to glam, and contracts speak of their results
//! through the names declared here.
use vstd::prelude::*;

verus! {

/// Bit pattern of `1.0f32`.
pub const ONE_BITS: u32 = 0x3F80_0000;

/// A 3-component vector (`x, y, z`).
#[derive(Clone, Copy, Debug, PartialEq)]
pub struct Vec3 {
    pub bits: [u32; 3],
}

/// A 4-component vector (`x, y, z, w`), used for colors.
#[derive(Clone, Copy, Debug, PartialEq)]
pub struct Vec4 {
    pub bits: [u32; 4],
}

/// A rotation quaternion (`x, y, z, w`).
#[derive(Clone, Copy, Debug, PartialEq)]
pub struct Quat {
    pub bits: [u32; 4],
}

/// A 4x4 matrix in column-major order.
#[derive(Clone, Copy, Debug, PartialEq)]
pub struct Mat4 {
    pub cols: [u32; 16],
}

/// Bit pattern of the one NaN that the library keeps.
pub const CANONICAL_NAN: u32 = 0x7FC0_0000;

/// `b` with any NaN replaced by `CANONICAL_NAN`. The sign and payload of a
/// NaN that floating-point arithmetic produces are not specified, so only
/// canonical bits are compared.
pub open spec fn canon_bits(b: u32) -> u32 {
    if b & 0x7F80_0000 == 0x7F80_0000 && b & 0x007F_FFFF != 0 {
        CANONICAL_NAN
    } else {
        b
    }
}

/// `m` with every NaN entry made canonical.
pub open spec fn canon(m: Mat4) -> Mat4 {
    Mat4 {
        cols: [
            canon_bits(m.cols[0]), canon_bits(m.cols[1]), canon_bits(m.cols[2]), canon_bits(m.cols[3]),
            canon_bits(m.cols[4]), canon_bits(m.cols[5]), canon_bits(m.cols[6]), canon_bits(m.cols[7]),
            canon_bits(m.cols[8]), canon_bits(m.cols[9]), canon_bits(m.cols[10]), canon_bits(m.cols[11]),
            canon_bits(m.cols[12]), canon_bits(m.cols[13]), canon_bits(m.cols[14]), canon_bits(m.cols[15]),
        ],
    }
}

/// The matrix that scales, then rotates, then translates, NaNs canonical.
pub uninterp spec fn trs_matrix(scale: Vec3, rotation: Quat, translation: Vec3) -> Mat4;

/// The matrix product `a * b`, NaNs canonical.
pub uninterp spec fn mat_product(a: Mat4, b: Mat4) -> Mat4;

/// The inverse of `a`, NaNs canonical.
pub uninterp spec fn mat_inverse(a: Mat4) -> Mat4;

fn canonical_bits(b: u32) -> (r: u32)
    ensures
        r == canon_bits(b),
{
    if b & 0x7F80_0000 == 0x7F80_0000 && b & 0x007F_FFFF != 0 {
        CANONICAL_NAN
    } else {
        b
    }
}

/// `m` with every NaN entry made canonical.
pub fn canonical(m: Mat4) -> (r: Mat4)
    ensures
        r == canon(m),
{
    let c = m.cols;
    Mat4 {
        cols: [
            canonical_bits(c[0]), canonical_bits(c[1]), canonical_bits(c[2]), canonical_bits(c[3]),
            canonical_bits(c[4]), canonical_bits(c[5]), canonical_bits(c[6]), canonical_bits(c[7]),
            canonical_bits(c[8]), canonical_bits(c[9]), canonical_bits(c[10]), canonical_bits(c[11]),
            canonical_bits(c[12]), canonical_bits(c[13]), canonical_bits(c[14]), canonical_bits(c[15]),
        ],
    }
}

pub open spec fn identity_cols() -> Seq<u32> {
    seq![
        ONE_BITS, 0, 0, 0,
        0, ONE_BITS, 0, 0,
        0, 0, ONE_BITS, 0,
        0, 0, 0, ONE_BITS,
    ]
}

impl Vec3 {
    pub fn zero() -> (r: Vec3)
        ensures
            r.bits@ == seq![0u32, 0, 0],
    {
        Vec3 { bits: [0, 0, 0] }
    }

    pub fn one() -> (r: Vec3)
        ensures
            r.bits@ == seq![ONE_BITS, ONE_BITS, ONE_BITS],
    {
        Vec3 { bits: [ONE_BITS, ONE_BITS, ONE_BITS] }
    }
}

impl Quat {
    pub fn identity() -> (r: Quat)
        ensures
            r.bits@ == seq![0u32, 0, 0, ONE_BITS],
    {
        Quat { bits: [0, 0, 0, ONE_BITS] }
    }
}

impl Mat4 {
    pub fn identity() -> (r: Mat4)
        ensures
            r.cols@ == identity_cols(),
    {
        Mat4 {
            cols: [
                ONE_BITS, 0, 0, 0,
                0, ONE_BITS, 0, 0,
                0, 0, ONE_BITS, 0,
                0, 0, 0, ONE_BITS,
            ],
        }
    }
}

/// The matrix that scales, then rotates, then translates.
pub(crate) fn compose_trs(scale: Vec3, rotation: Quat, translation: Vec3) -> (r: Mat4)
    ensures
        r == trs_matrix(scale, rotation, translation),
{
    canonical(glam_trs(scale, rotation, translation))
}

/// The product `a * b`.
pub(crate) fn mul_mat4(a: &Mat4, b: &Mat4) -> (r: Mat4)
    ensures
        r == mat_product(*a, *b),
{
    canonical(glam_mul(a, b))
}

/// The inverse of `a`.
pub(crate) fn inverse_mat4(a: &Mat4) -> (r: Mat4)
    ensures
        r == mat_inverse(*a),
{
    canonical(glam_inverse(a))
}

/// Relies on glam::Mat4::from_scale_rotation_translation, which builds
/// `T * R * S` with plain multiplies and adds (the `scalar-math` build runs
/// the same code on every machine); bytemuck::cast only reinterprets the bit
/// patterns. Up to the bits of a NaN, the result depends on the arguments only.
#[verifier::external_body]
fn glam_trs(scale: Vec3, rotation: Quat, translation: Vec3) -> (r: Mat4)
    ensures
        canon(r) == trs_matrix(scale, rotation, translation),
{
    let m = glam::Mat4::from_scale_rotation_translation(
        bytemuck::cast(scale.bits),
        bytemuck::cast(rotation.bits),
        bytemuck::cast(translation.bits),
    );
    Mat4 { cols: bytemuck::cast(m) }
}

/// Relies on glam::Mat4::mul_mat4 for the product `a * b` (separate
/// multiplies and adds in the `scalar-math` build). Up to the bits of a NaN,
/// the result depends on the arguments only.
#[verifier::external_body]
fn glam_mul(a: &Mat4, b: &Mat4) -> (r: Mat4)
    ensures
        canon(r) == mat_product(*a, *b),
{
    let x: glam::Mat4 = bytemuck::cast(a.cols);
    let y: glam::Mat4 = bytemuck::cast(b.cols);
    Mat4 { cols: bytemuck::cast(x.mul_mat4(&y)) }
}

/// Relies on glam::Mat4::inverse (the scalar cofactor inverse in the
/// `scalar-math` build). Up to the bits of a NaN, the result depends on the
/// argument only.
#[verifier::external_body]
fn glam_inverse(a: &Mat4) -> (r: Mat4)
    ensures
        canon(r) == mat_inverse(*a),
{
    let x: glam::Mat4 = bytemuck::cast(a.cols);
    Mat4 { cols: bytemuck::cast(x.inverse()) }
}

/// The entries that every left-handed perspective projection has: zeros off
/// the scaling terms, and 1 where depth is copied into `w`.
pub open spec fn perspective_shape(m: Mat4) -> bool {
    &&& m.cols[1] == 0 && m.cols[2] == 0 && m.cols[3] == 0
    &&& m.cols[4] == 0 && m.cols[6] == 0 && m.cols[7] == 0
    &&& m.cols[8] == 0 && m.cols[9] == 0 && m.cols[11] == ONE_BITS
    &&& m.cols[12] == 0 && m.cols[13] == 0 && m.cols[15] == 0
}

/// Relies on glam::Mat4::perspective_lh for the left-handed projection with
/// a `[0, 1]` depth range; the arguments are `f32` bit patterns. The scaling
/// terms go through `f32::sin_cos`, whose precision std leaves unspecified,
/// so only the constant entries (`0.0` and `1.0` in glam's source) are stated.
#[verifier::external_body]
pub(crate) fn perspective_lh(fov_y: u32, aspect: u32, near: u32, far: u32) -> (r: Mat4)
    ensures
        perspective_shape(r),
{
    let m = glam::Mat4::perspective_lh(
        bytemuck::cast(fov_y),
        bytemuck::cast(aspect),
        bytemuck::cast(near),
        bytemuck::cast(far),
    );
    Mat4 { cols: bytemuck::cast(m) }
}

} // verus!
