//! The colour-distance predicate that decides whether two RGB samples
//! belong to the same region.

use vstd::prelude::*;

verus! {

/// One RGB sample, one byte per channel.
#[derive(Clone, Copy, PartialEq, Eq, Structural, Debug)]
pub struct Rgb {
    pub r: u8,
    pub g: u8,
    pub b: u8,
}

/// Signed difference of two channel values.
pub open spec fn delta(a: u8, b: u8) -> int {
    a as int - b as int
}

/// The weighted squared colour distance between two samples, scaled by 512.
///
/// With `dr`, `dg`, `db` the channel differences and `m = dr / 2`, the
/// distance is `sqrt(((512 + m)*dr^2)/256 + 4*dg^2 + ((767 - m)*db^2)/256)`.
/// Multiplying the radicand by 512 clears both divisions exactly, which
/// leaves the integer value below.
pub open spec fn scaled_dist_sq(p: Rgb, q: Rgb) -> int {
    let dr = delta(p.r, q.r);
    let dg = delta(p.g, q.g);
    let db = delta(p.b, q.b);
    (1024 + dr) * dr * dr + 2048 * dg * dg + (1534 - dr) * db * db
}

/// Two samples join one region when their distance is below 50, that is,
/// when the 512-scaled squared distance is below `512 * 50^2 = 1280000`.
pub open spec fn same_region(p: Rgb, q: Rgb) -> bool {
    scaled_dist_sq(p, q) < 1280000
}

/// Decides whether two samples are similar enough to share a region.
pub fn compare(p: &Rgb, q: &Rgb) -> (res: bool)
    ensures
        res == same_region(*p, *q),
{
    let dr: i64 = p.r as i64 - q.r as i64;
    let dg: i64 = p.g as i64 - q.g as i64;
    let db: i64 = p.b as i64 - q.b as i64;
    assert((1024 + dr) * dr * dr <= 1279 * 65025 && 0 <= (1024 + dr) * dr * dr
        && -1279 * 255 <= (1024 + dr) * dr <= 1279 * 255) by (nonlinear_arith)
        requires
            -255 <= dr <= 255,
    ;
    assert(2048 * dg * dg <= 2048 * 65025 && 0 <= 2048 * dg * dg
        && -2048 * 255 <= 2048 * dg <= 2048 * 255) by (nonlinear_arith)
        requires
            -255 <= dg <= 255,
    ;
    assert((1534 - dr) * db * db <= 1789 * 65025 && 0 <= (1534 - dr) * db * db
        && -1789 * 255 <= (1534 - dr) * db <= 1789 * 255) by (nonlinear_arith)
        requires
            -255 <= dr <= 255 && -255 <= db <= 255,
    ;
    let d: i64 = (1024 + dr) * dr * dr + 2048 * dg * dg + (1534 - dr) * db * db;
    d < 1280000
}

/// The predicate is symmetric whenever the odd part of the formula
/// vanishes: swapping the arguments negates the channel differences, which
/// changes the 512-scaled squared distance by `2*dr*(dr^2 - db^2)`. When
/// that product is zero — in particular whenever the red channels agree, or
/// the red and blue differences agree in magnitude — both orders give the
/// same distance and the same decision.
pub proof fn lemma_same_region_symmetric(p: Rgb, q: Rgb)
    requires
        delta(p.r, q.r) * (delta(p.r, q.r) * delta(p.r, q.r) - delta(p.b, q.b) * delta(p.b, q.b))
            == 0,
    ensures
        scaled_dist_sq(p, q) == scaled_dist_sq(q, p),
        same_region(p, q) == same_region(q, p),
{
    let dr = delta(p.r, q.r);
    let dg = delta(p.g, q.g);
    let db = delta(p.b, q.b);
    assert(delta(q.r, p.r) == -dr && delta(q.g, p.g) == -dg && delta(q.b, p.b) == -db);
    assert((1024 + dr) * dr * dr + 2048 * dg * dg + (1534 - dr) * db * db == (1024 + (-dr)) * (-dr)
        * (-dr) + 2048 * (-dg) * (-dg) + (1534 - (-dr)) * (-db) * (-db)) by (nonlinear_arith)
        requires
            dr * (dr * dr - db * db) == 0,
    ;
}

} // verus!
