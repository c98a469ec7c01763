//! Fits a data bounding box to a display aspect ratio.
//!
//! The box is widened or heightened symmetrically about its center until
//! its aspect ratio matches the display's, so the data is neither cropped
//! nor distorted. Coordinates are micro-units; the aspect ratio is given
//! in micro-units as well (`1.0` is `1_000_000`).

use vstd::arithmetic::div_mod::{lemma_div_is_ordered, lemma_div_multiples_vanish};
use vstd::prelude::*;

verus! {

/// The fitted box `(left, right, bottom, top)`: where the data is wider
/// than the display (width to height above `aspect` micro-units per
/// unit), the vertical extent grows to the height the display needs for
/// that width; otherwise the horizontal extent grows likewise. Either
/// way the growth is split evenly between the two sides, rounding the
/// total growth down.
pub open spec fn fit_spec(left: int, right: int, bottom: int, top: int, aspect: int) -> (
    int,
    int,
    int,
    int,
) {
    let w = right - left;
    let h = top - bottom;
    if w * 1_000_000 > h * aspect {
        let grow = ((w * 1_000_000) / aspect - h) / 2;
        (left, right, bottom - grow, top + grow)
    } else {
        let grow = ((h * aspect) / 1_000_000 - w) / 2;
        (left - grow, right + grow, bottom, top)
    }
}

/// Expands the box symmetrically along one axis until its aspect ratio
/// matches `display_aspect`, preserving the box center on both axes. The
/// box must be non-degenerate — in particular it must not be the
/// sentinel result an empty trajectory's bounding-box scan gives — and
/// the fitted box must fit the coordinate range.
pub fn fit(left: i64, right: i64, bottom: i64, top: i64, display_aspect: i64) -> (r: (
    i64,
    i64,
    i64,
    i64,
))
    requires
        left < right,
        bottom < top,
        display_aspect > 0,
        i64::MIN <= fit_spec(left as int, right as int, bottom as int, top as int, display_aspect as int).0,
        fit_spec(left as int, right as int, bottom as int, top as int, display_aspect as int).1 <= i64::MAX,
        i64::MIN <= fit_spec(left as int, right as int, bottom as int, top as int, display_aspect as int).2,
        fit_spec(left as int, right as int, bottom as int, top as int, display_aspect as int).3 <= i64::MAX,
    ensures
        (r.0 as int, r.1 as int, r.2 as int, r.3 as int) == fit_spec(
            left as int,
            right as int,
            bottom as int,
            top as int,
            display_aspect as int,
        ),
        r.0 as int + r.1 as int == left + right,
        r.2 as int + r.3 as int == bottom + top,
        r.0 <= left && right <= r.1 && r.2 <= bottom && top <= r.3,
        (r.0 == left && r.1 == right) || (r.2 == bottom && r.3 == top),
{
    let w: u128 = (right as i128 - left as i128) as u128;
    let h: u128 = (top as i128 - bottom as i128) as u128;
    let a: u128 = display_aspect as u128;
    if w * 1_000_000 > h * a {
        let target_h: u128 = w * 1_000_000 / a;
        proof {
            let wi = w as int;
            let hi = h as int;
            let ai = a as int;
            assert(hi * ai < wi * 1_000_000);
            lemma_div_is_ordered(hi * ai, wi * 1_000_000, ai);
            lemma_div_multiples_vanish(hi, ai);
            assert(ai * hi == hi * ai) by (nonlinear_arith);
            assert(target_h as int == (wi * 1_000_000) / ai);
            assert(hi <= target_h as int);
        }
        let grow: u128 = (target_h - h) / 2;
        let nb: i128 = bottom as i128 - grow as i128;
        let nt: i128 = top as i128 + grow as i128;
        (left, right, nb as i64, nt as i64)
    } else {
        let target_w: u128 = h * a / 1_000_000;
        proof {
            let wi = w as int;
            let hi = h as int;
            let ai = a as int;
            assert(wi * 1_000_000 <= hi * ai);
            lemma_div_is_ordered(wi * 1_000_000, hi * ai, 1_000_000);
            lemma_div_multiples_vanish(wi, 1_000_000);
            assert(1_000_000 * wi == wi * 1_000_000) by (nonlinear_arith);
            assert(target_w as int == (hi * ai) / 1_000_000);
            assert(wi <= target_w as int);
        }
        let grow: u128 = (target_w - w) / 2;
        let nl: i128 = left as i128 - grow as i128;
        let nr: i128 = right as i128 + grow as i128;
        (nl as i64, nr as i64, bottom, top)
    }
}

} // verus!
