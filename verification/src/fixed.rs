//! Saturating signed fixed-point arithmetic, with three-component vectors and
//! three-by-three matrices built on it. One whole unit is `FX_ONE`; every
//! stored scalar is kept in `[-FX_LIM, FX_LIM]` by clipping, so no operation
//! overflows and no operation panics.

use vstd::prelude::*;

verus! {

/// One whole unit in fixed-point representation.
pub const FX_ONE: i64 = 1_000_000;

/// Largest magnitude a fixed-point scalar may take; results are clipped to it.
pub const FX_LIM: i64 = 1_000_000_000_000_000;

/// Magnitude of a mathematical integer.
pub open spec fn fx_abs(x: int) -> int {
    if x < 0 {
        -x
    } else {
        x
    }
}

/// A value forced into the representable range `[-FX_LIM, FX_LIM]`.
pub open spec fn clipped(x: int) -> int {
    if x > FX_LIM as int {
        FX_LIM as int
    } else if x < -(FX_LIM as int) {
        -(FX_LIM as int)
    } else {
        x
    }
}

/// Fixed-point product: clip both factors, divide the product of magnitudes by
/// `FX_ONE` (truncating toward zero), reapply the sign, clip.
pub open spec fn fx_mul_s(a: int, b: int) -> int {
    let aa = clipped(a);
    let bb = clipped(b);
    let p = fx_abs(aa) * fx_abs(bb) / (FX_ONE as int);
    if (aa < 0) != (bb < 0) {
        clipped(-p)
    } else {
        clipped(p)
    }
}

/// Fixed-point sum: clip both terms, add, clip.
pub open spec fn fx_add_s(a: int, b: int) -> int {
    clipped(clipped(a) + clipped(b))
}

/// Fixed-point difference: clip both terms, subtract, clip.
pub open spec fn fx_sub_s(a: int, b: int) -> int {
    clipped(clipped(a) - clipped(b))
}

pub fn clip(a: i64) -> (r: i64)
    ensures
        r as int == clipped(a as int),
{
    if a > FX_LIM {
        FX_LIM
    } else if a < -FX_LIM {
        -FX_LIM
    } else {
        a
    }
}

pub fn fx_mul(a: i64, b: i64) -> (r: i64)
    ensures
        r as int == fx_mul_s(a as int, b as int),
{
    let aa = clip(a);
    let bb = clip(b);
    let neg = (aa < 0) != (bb < 0);
    let ma: u64 = if aa < 0 {
        (-aa) as u64
    } else {
        aa as u64
    };
    let mb: u64 = if bb < 0 {
        (-bb) as u64
    } else {
        bb as u64
    };
    assert((ma as u128) * (mb as u128) == (ma as int) * (mb as int) <= (FX_LIM as int) * (
    FX_LIM as int)) by (nonlinear_arith)
        requires
            ma <= FX_LIM as u64,
            mb <= FX_LIM as u64,
    ;
    let p: u128 = (ma as u128) * (mb as u128) / 1_000_000u128;
    let pc: u64 = if p > FX_LIM as u128 {
        FX_LIM as u64
    } else {
        p as u64
    };
    if neg {
        -(pc as i64)
    } else {
        pc as i64
    }
}

pub fn fx_add(a: i64, b: i64) -> (r: i64)
    ensures
        r as int == fx_add_s(a as int, b as int),
{
    let aa = clip(a);
    let bb = clip(b);
    clip(aa + bb)
}

pub fn fx_sub(a: i64, b: i64) -> (r: i64)
    ensures
        r as int == fx_sub_s(a as int, b as int),
{
    let aa = clip(a);
    let bb = clip(b);
    clip(aa - bb)
}

/// A point or displacement in space, in fixed-point coordinates.
#[derive(Clone, Copy, Debug, PartialEq, Eq, Structural)]
pub struct Vec3 {
    pub x: i64,
    pub y: i64,
    pub z: i64,
}

/// A linear transform (rotation-like) in fixed-point, row-major: `mRC` is the
/// entry at row `R`, column `C`.
#[derive(Clone, Copy, Debug, PartialEq, Eq, Structural)]
pub struct Mat3 {
    pub m00: i64,
    pub m01: i64,
    pub m02: i64,
    pub m10: i64,
    pub m11: i64,
    pub m12: i64,
    pub m20: i64,
    pub m21: i64,
    pub m22: i64,
}

pub open spec fn vec_add_s(a: Vec3, b: Vec3) -> Vec3 {
    Vec3 {
        x: fx_add_s(a.x as int, b.x as int) as i64,
        y: fx_add_s(a.y as int, b.y as int) as i64,
        z: fx_add_s(a.z as int, b.z as int) as i64,
    }
}

/// One entry of a matrix product: the row `(x1 x2 x3)` against the column
/// `(y1 y2 y3)`.
pub open spec fn mm_entry_s(x1: int, y1: int, x2: int, y2: int, x3: int, y3: int) -> int {
    fx_add_s(fx_add_s(fx_mul_s(x1, y1), fx_mul_s(x2, y2)), fx_mul_s(x3, y3))
}

pub open spec fn mat_mul_s(a: Mat3, b: Mat3) -> Mat3 {
    Mat3 {
        m00: mm_entry_s(a.m00 as int, b.m00 as int, a.m01 as int, b.m10 as int, a.m02 as int, b.m20 as int) as i64,
        m01: mm_entry_s(a.m00 as int, b.m01 as int, a.m01 as int, b.m11 as int, a.m02 as int, b.m21 as int) as i64,
        m02: mm_entry_s(a.m00 as int, b.m02 as int, a.m01 as int, b.m12 as int, a.m02 as int, b.m22 as int) as i64,
        m10: mm_entry_s(a.m10 as int, b.m00 as int, a.m11 as int, b.m10 as int, a.m12 as int, b.m20 as int) as i64,
        m11: mm_entry_s(a.m10 as int, b.m01 as int, a.m11 as int, b.m11 as int, a.m12 as int, b.m21 as int) as i64,
        m12: mm_entry_s(a.m10 as int, b.m02 as int, a.m11 as int, b.m12 as int, a.m12 as int, b.m22 as int) as i64,
        m20: mm_entry_s(a.m20 as int, b.m00 as int, a.m21 as int, b.m10 as int, a.m22 as int, b.m20 as int) as i64,
        m21: mm_entry_s(a.m20 as int, b.m01 as int, a.m21 as int, b.m11 as int, a.m22 as int, b.m21 as int) as i64,
        m22: mm_entry_s(a.m20 as int, b.m02 as int, a.m21 as int, b.m12 as int, a.m22 as int, b.m22 as int) as i64,
    }
}

/// The image of the vector `(0, len, 0)` under `m`: the middle column scaled
/// by `len`.
pub open spec fn mat_apply_y_s(m: Mat3, len: int) -> Vec3 {
    Vec3 {
        x: fx_mul_s(m.m01 as int, len) as i64,
        y: fx_mul_s(m.m11 as int, len) as i64,
        z: fx_mul_s(m.m21 as int, len) as i64,
    }
}

pub open spec fn mat_identity_s() -> Mat3 {
    Mat3 { m00: FX_ONE, m01: 0, m02: 0, m10: 0, m11: FX_ONE, m12: 0, m20: 0, m21: 0, m22: FX_ONE }
}

/// Cosine of an angle `t` given in fixed-point radians, `|t| <= FX_ONE`, by
/// the quadratic approximation `1 - t^2 / 2`.
pub open spec fn fx_cos_s(t: int) -> int {
    FX_ONE as int - (fx_abs(t) * fx_abs(t) / (FX_ONE as int)) / 2
}

/// Sine of an angle `t` given in fixed-point radians, `|t| <= FX_ONE`, by the
/// cubic approximation `t - t^3 / 6`.
pub open spec fn fx_sin_s(t: int) -> int {
    let m = fx_abs(t);
    let s = m - (m * m * m) / (6 * FX_ONE * FX_ONE);
    if t < 0 {
        -s
    } else {
        s
    }
}

/// The rotation about the third axis by the fixed-point angle `t`.
pub open spec fn rot_z_s(t: int) -> Mat3 {
    Mat3 {
        m00: fx_cos_s(t) as i64,
        m01: -fx_sin_s(t) as i64,
        m02: 0,
        m10: fx_sin_s(t) as i64,
        m11: fx_cos_s(t) as i64,
        m12: 0,
        m20: 0,
        m21: 0,
        m22: FX_ONE,
    }
}

pub fn vec_add(a: Vec3, b: Vec3) -> (r: Vec3)
    ensures
        r == vec_add_s(a, b),
{
    Vec3 { x: fx_add(a.x, b.x), y: fx_add(a.y, b.y), z: fx_add(a.z, b.z) }
}

fn mm_entry(x1: i64, y1: i64, x2: i64, y2: i64, x3: i64, y3: i64) -> (r: i64)
    ensures
        r as int == mm_entry_s(x1 as int, y1 as int, x2 as int, y2 as int, x3 as int, y3 as int),
{
    fx_add(fx_add(fx_mul(x1, y1), fx_mul(x2, y2)), fx_mul(x3, y3))
}

pub fn mat_mul(a: &Mat3, b: &Mat3) -> (r: Mat3)
    ensures
        r == mat_mul_s(*a, *b),
{
    Mat3 {
        m00: mm_entry(a.m00, b.m00, a.m01, b.m10, a.m02, b.m20),
        m01: mm_entry(a.m00, b.m01, a.m01, b.m11, a.m02, b.m21),
        m02: mm_entry(a.m00, b.m02, a.m01, b.m12, a.m02, b.m22),
        m10: mm_entry(a.m10, b.m00, a.m11, b.m10, a.m12, b.m20),
        m11: mm_entry(a.m10, b.m01, a.m11, b.m11, a.m12, b.m21),
        m12: mm_entry(a.m10, b.m02, a.m11, b.m12, a.m12, b.m22),
        m20: mm_entry(a.m20, b.m00, a.m21, b.m10, a.m22, b.m20),
        m21: mm_entry(a.m20, b.m01, a.m21, b.m11, a.m22, b.m21),
        m22: mm_entry(a.m20, b.m02, a.m21, b.m12, a.m22, b.m22),
    }
}

pub fn mat_apply_y(m: &Mat3, len: i64) -> (r: Vec3)
    ensures
        r == mat_apply_y_s(*m, len as int),
{
    Vec3 { x: fx_mul(m.m01, len), y: fx_mul(m.m11, len), z: fx_mul(m.m21, len) }
}

pub fn mat_identity() -> (r: Mat3)
    ensures
        r == mat_identity_s(),
{
    Mat3 { m00: FX_ONE, m01: 0, m02: 0, m10: 0, m11: FX_ONE, m12: 0, m20: 0, m21: 0, m22: FX_ONE }
}

/// Every entry of the matrix is within the representable range.
pub open spec fn mat_bounded(m: Mat3) -> bool {
    &&& -FX_LIM <= m.m00 <= FX_LIM
    &&& -FX_LIM <= m.m01 <= FX_LIM
    &&& -FX_LIM <= m.m02 <= FX_LIM
    &&& -FX_LIM <= m.m10 <= FX_LIM
    &&& -FX_LIM <= m.m11 <= FX_LIM
    &&& -FX_LIM <= m.m12 <= FX_LIM
    &&& -FX_LIM <= m.m20 <= FX_LIM
    &&& -FX_LIM <= m.m21 <= FX_LIM
    &&& -FX_LIM <= m.m22 <= FX_LIM
}

/// Multiplying by one whole unit only clips.
pub proof fn lemma_fx_mul_one(b: int)
    ensures
        fx_mul_s(FX_ONE as int, b) == clipped(b),
{
    let bb = clipped(b);
    vstd::arithmetic::div_mod::lemma_div_multiples_vanish(fx_abs(bb), 1_000_000);
}

/// Multiplying by zero gives zero.
pub proof fn lemma_fx_mul_zero(b: int)
    ensures
        fx_mul_s(0, b) == 0,
{
    let bb = clipped(b);
    assert(fx_abs(0) * fx_abs(bb) == 0) by (nonlinear_arith);
    vstd::arithmetic::div_mod::lemma_div_of0(1_000_000);
}

/// The identity matrix is neutral on the left: composing it with a transform
/// whose entries are representable gives that transform back, exactly. A
/// segment continued under an identity transformation keeps its orientation.
pub proof fn lemma_mat_mul_identity_left(m: Mat3)
    requires
        mat_bounded(m),
    ensures
        mat_mul_s(mat_identity_s(), m) == m,
{
    lemma_fx_mul_zero(m.m00 as int);
    lemma_fx_mul_zero(m.m01 as int);
    lemma_fx_mul_zero(m.m02 as int);
    lemma_fx_mul_zero(m.m10 as int);
    lemma_fx_mul_zero(m.m11 as int);
    lemma_fx_mul_zero(m.m12 as int);
    lemma_fx_mul_zero(m.m20 as int);
    lemma_fx_mul_zero(m.m21 as int);
    lemma_fx_mul_zero(m.m22 as int);
    lemma_fx_mul_one(m.m00 as int);
    lemma_fx_mul_one(m.m01 as int);
    lemma_fx_mul_one(m.m02 as int);
    lemma_fx_mul_one(m.m10 as int);
    lemma_fx_mul_one(m.m11 as int);
    lemma_fx_mul_one(m.m12 as int);
    lemma_fx_mul_one(m.m20 as int);
    lemma_fx_mul_one(m.m21 as int);
    lemma_fx_mul_one(m.m22 as int);
}

pub fn rot_z(t: i64) -> (r: Mat3)
    requires
        -FX_ONE <= t <= FX_ONE,
    ensures
        r == rot_z_s(t as int),
{
    let m: u64 = if t < 0 {
        (-t) as u64
    } else {
        t as u64
    };
    assert(m * m <= 1_000_000_000_000u64 && m * m * m <= 1_000_000_000_000_000_000u64 && m * m * m
        <= 6_000_000_000_000u64 * m) by (nonlinear_arith)
        requires
            m <= 1_000_000u64,
    ;
    let m2: u64 = m * m;
    let c: i64 = FX_ONE - ((m2 / 1_000_000u64) / 2) as i64;
    let m3: u64 = m2 * m;
    let cube_term: u64 = m3 / 6_000_000_000_000u64;
    assert(cube_term <= m) by (nonlinear_arith)
        requires
            m3 <= 6_000_000_000_000u64 * m,
            cube_term == m3 / 6_000_000_000_000u64,
    ;
    let s_mag: u64 = m - cube_term;
    let s: i64 = if t < 0 {
        -(s_mag as i64)
    } else {
        s_mag as i64
    };
    assert(s as int == fx_sin_s(t as int));
    assert(c as int == fx_cos_s(t as int));
    Mat3 { m00: c, m01: -s, m02: 0, m10: s, m11: c, m12: 0, m20: 0, m21: 0, m22: FX_ONE }
}

} // verus!
