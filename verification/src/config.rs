//! The persisted ROI record: a normalized box plus a display name.

use vstd::prelude::*;
use crate::fixed::{ceil_div, ceil_div_spec, coord_ok, dim_ok, floor_div, floor_div_spec, UNIT};

verus! {

/// Mathematical value of a record: exact fixed-point coordinates and the
/// name's bytes.
#[verifier::ext_equal]
pub struct JsonConfigV {
    pub x1: int,
    pub y1: int,
    pub x2: int,
    pub y2: int,
    pub name: Seq<u8>,
}

impl JsonConfigV {
    /// Every coordinate is small enough to be stored.
    pub open spec fn wf(self) -> bool {
        coord_ok(self.x1) && coord_ok(self.y1) && coord_ok(self.x2) && coord_ok(self.y2)
    }

    /// The rectangle-ordering invariant: the min corner lies at or before
    /// the max corner on both axes.
    pub open spec fn ordered(self) -> bool {
        self.x1 <= self.x2 && self.y1 <= self.y2
    }
}

/// One ROI record. Coordinates are normalized box space as raw fixed-point
/// values: `[0, 1]` maps to `[0, UNIT]`, origin top left, y growing
/// downward. The name is kept as UTF-8 bytes; the host owns text handling.
pub struct JsonConfig {
    pub x1: i64,
    pub y1: i64,
    pub x2: i64,
    pub y2: i64,
    pub name: Vec<u8>,
}

impl View for JsonConfig {
    type V = JsonConfigV;

    open spec fn view(&self) -> JsonConfigV {
        JsonConfigV {
            x1: self.x1 as int,
            y1: self.y1 as int,
            x2: self.x2 as int,
            y2: self.y2 as int,
            name: self.name@,
        }
    }
}

/// Display x of a normalized x, rounding down: `floor(x * w)` in pixels.
pub open spec fn abs_x_lo(x: int, w: int) -> int {
    floor_div_spec(x * w, UNIT as int)
}

/// Display x of a normalized x, rounding up: `ceil(x * w)` in pixels.
pub open spec fn abs_x_hi(x: int, w: int) -> int {
    ceil_div_spec(x * w, UNIT as int)
}

/// Display y of a normalized y, rounding up: `ceil(-(y * h))` in pixels.
/// The y axis is negated in display space.
pub open spec fn abs_y_hi(y: int, h: int) -> int {
    ceil_div_spec(-(y * h), UNIT as int)
}

/// Display y of a normalized y, rounding down: `floor(-(y * h))` in pixels.
pub open spec fn abs_y_lo(y: int, h: int) -> int {
    floor_div_spec(-(y * h), UNIT as int)
}

/// The product of a stored coordinate and an accepted dimension stays
/// well inside `i64`.
pub proof fn lemma_coord_times_dim(x: int, d: int)
    requires
        coord_ok(x),
        dim_ok(d),
    ensures
        -4_000_000_000_000_000_000 <= x * d <= 4_000_000_000_000_000_000,
{
    assert(-4_000_000_000_000_000_000 <= x * d <= 4_000_000_000_000_000_000) by (nonlinear_arith)
        requires
            -4_000_000_000_000 <= x <= 4_000_000_000_000,
            1 <= d <= 1_000_000,
    ;
}

impl JsonConfig {
    /// Absolute display corners `(x1, y1, x2, y2)` of this box, in whole
    /// pixels. The min edges round outward-down and the max edges
    /// outward-up, so the drawn rectangle never shrinks below its true
    /// sub-pixel extent. `y` is negated: the image's top row maps to
    /// `y = 0`, the bottom row to `y = -height`.
    pub fn get_abs_plot_coords(&self, width: usize, height: usize) -> (r: (i64, i64, i64, i64))
        requires
            self@.wf(),
            dim_ok(width as int),
            dim_ok(height as int),
        ensures
            r.0 == abs_x_lo(self@.x1, width as int),
            r.1 == abs_y_hi(self@.y1, height as int),
            r.2 == abs_x_hi(self@.x2, width as int),
            r.3 == abs_y_lo(self@.y2, height as int),
    {
        proof {
            lemma_coord_times_dim(self@.x1, width as int);
            lemma_coord_times_dim(self@.y1, height as int);
            lemma_coord_times_dim(self@.x2, width as int);
            lemma_coord_times_dim(self@.y2, height as int);
        }
        let ax1 = floor_div(self.x1 * (width as i64), UNIT);
        let ay1 = ceil_div(-(self.y1 * (height as i64)), UNIT);
        let ax2 = ceil_div(self.x2 * (width as i64), UNIT);
        let ay2 = floor_div(-(self.y2 * (height as i64)), UNIT);
        (ax1, ay1, ax2, ay2)
    }

    /// Center of the box in normalized space, each axis rounded down to
    /// the fixed-point grid.
    pub fn get_center(&self) -> (c: (i64, i64))
        requires
            self@.wf(),
        ensures
            c.0 == floor_div_spec(self@.x1 + self@.x2, 2),
            c.1 == floor_div_spec(self@.y1 + self@.y2, 2),
    {
        let cx = floor_div(self.x1 + self.x2, 2);
        let cy = floor_div(self.y1 + self.y2, 2);
        (cx, cy)
    }
}

} // verus!
