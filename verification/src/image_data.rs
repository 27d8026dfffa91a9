//! The loaded image's dimensions and view bounds, and the corner-specific
//! inverse mapping from absolute display space back to normalized space.

use vstd::prelude::*;
use crate::config::{JsonConfig, JsonConfigV};
use crate::fixed::{
    ceil_div, ceil_div_spec, clamp, clamp_spec, coord_ok, dim_ok, floor_div, floor_div_spec,
    lemma_ceil_div_range, lemma_floor_div_range, COORD_LIMIT, UNIT,
};

verus! {

/// The visible rectangle in absolute display space, as raw fixed-point
/// values. Display y is inverted, so the top edge is `y_max` and the
/// bottom edge `y_min`.
pub struct ViewBounds {
    pub x_min: i64,
    pub y_max: i64,
    pub x_max: i64,
    pub y_min: i64,
}

impl ViewBounds {
    /// Every edge is small enough to compute with.
    pub open spec fn wf(self) -> bool {
        coord_ok(self.x_min as int) && coord_ok(self.y_max as int) && coord_ok(self.x_max as int)
            && coord_ok(self.y_min as int)
    }
}

/// Dimensions of the decoded image, in pixels, plus the view bounds the
/// host recomputes every frame. The pixel data itself never reaches this
/// crate.
pub struct ImageData {
    pub width: usize,
    pub height: usize,
    pub bounds: ViewBounds,
}

/// An inverse-mapping input: anywhere inside the view, with headroom for
/// the inset arithmetic of `new_roi_box`.
pub open spec fn abs_input_ok(a: int) -> bool {
    -2 * (COORD_LIMIT as int) <= a <= 2 * (COORD_LIMIT as int)
}

/// Normalized x of a display x for the min edge: `floor` of the pixel,
/// then the fraction over `w`, rounded down to the fixed-point grid and
/// clamped to `[0, 1]`.
pub open spec fn rel_x1_spec(a: int, w: int) -> int {
    clamp_spec(
        floor_div_spec(floor_div_spec(a, UNIT as int) * (UNIT as int), w),
        0,
        UNIT as int,
    )
}

/// Normalized y of a display y for the min edge: `ceil` of the negated
/// pixel, then the fraction over `h`, rounded up and clamped to `[0, 1]`.
pub open spec fn rel_y1_spec(a: int, h: int) -> int {
    clamp_spec(
        ceil_div_spec(ceil_div_spec(-a, UNIT as int) * (UNIT as int), h),
        0,
        UNIT as int,
    )
}

/// Normalized x of a display x for the max edge: `ceil` of the pixel,
/// then the fraction over `w`, rounded up and clamped to `[0, 1]`.
pub open spec fn rel_x2_spec(a: int, w: int) -> int {
    clamp_spec(
        ceil_div_spec(ceil_div_spec(a, UNIT as int) * (UNIT as int), w),
        0,
        UNIT as int,
    )
}

/// Normalized y of a display y for the max edge: `floor` of the negated
/// pixel, then the fraction over `h`, rounded down and clamped to `[0, 1]`.
pub open spec fn rel_y2_spec(a: int, h: int) -> int {
    clamp_spec(
        floor_div_spec(floor_div_spec(-a, UNIT as int) * (UNIT as int), h),
        0,
        UNIT as int,
    )
}

impl ImageData {
    /// The mapper only works on a loaded image of accepted size.
    pub open spec fn dims_ok(self) -> bool {
        dim_ok(self.width as int) && dim_ok(self.height as int)
    }

    /// Inverse mapping of a display x to the normalized min edge.
    pub fn get_rel_config_coord_x1(&self, x1: i64) -> (r: i64)
        requires
            self.dims_ok(),
            abs_input_ok(x1 as int),
        ensures
            r == rel_x1_spec(x1 as int, self.width as int),
            0 <= r <= UNIT,
    {
        let k = floor_div(x1, UNIT);
        proof {
            lemma_floor_div_range(x1 as int, UNIT as int, -8_000_000, 8_000_000);
        }
        let r = floor_div(k * UNIT, self.width as i64);
        clamp(r, 0, UNIT)
    }

    /// Inverse mapping of a display y to the normalized min edge.
    pub fn get_rel_config_coord_y1(&self, y1: i64) -> (r: i64)
        requires
            self.dims_ok(),
            abs_input_ok(y1 as int),
        ensures
            r == rel_y1_spec(y1 as int, self.height as int),
            0 <= r <= UNIT,
    {
        let m = ceil_div(-y1, UNIT);
        proof {
            lemma_ceil_div_range(-(y1 as int), UNIT as int, -8_000_000, 8_000_000);
        }
        let r = ceil_div(m * UNIT, self.height as i64);
        clamp(r, 0, UNIT)
    }

    /// Inverse mapping of a display x to the normalized max edge.
    pub fn get_rel_config_coord_x2(&self, x2: i64) -> (r: i64)
        requires
            self.dims_ok(),
            abs_input_ok(x2 as int),
        ensures
            r == rel_x2_spec(x2 as int, self.width as int),
            0 <= r <= UNIT,
    {
        let m = ceil_div(x2, UNIT);
        proof {
            lemma_ceil_div_range(x2 as int, UNIT as int, -8_000_000, 8_000_000);
        }
        let r = ceil_div(m * UNIT, self.width as i64);
        clamp(r, 0, UNIT)
    }

    /// Inverse mapping of a display y to the normalized max edge.
    pub fn get_rel_config_coord_y2(&self, y2: i64) -> (r: i64)
        requires
            self.dims_ok(),
            abs_input_ok(y2 as int),
        ensures
            r == rel_y2_spec(y2 as int, self.height as int),
            0 <= r <= UNIT,
    {
        let k = floor_div(-y2, UNIT);
        proof {
            lemma_floor_div_range(-(y2 as int), UNIT as int, -8_000_000, 8_000_000);
        }
        let r = floor_div(k * UNIT, self.height as i64);
        clamp(r, 0, UNIT)
    }

    /// Inverse mapping of a whole display rectangle, given by any two
    /// opposite corners: the coordinates are paired up so the min edges
    /// take the smaller value on each axis (larger for display y, which
    /// is inverted).
    pub fn get_rel_config_coords(&self, x1: i64, y1: i64, x2: i64, y2: i64) -> (r: (
        i64,
        i64,
        i64,
        i64,
    ))
        requires
            self.dims_ok(),
            abs_input_ok(x1 as int),
            abs_input_ok(y1 as int),
            abs_input_ok(x2 as int),
            abs_input_ok(y2 as int),
        ensures
            r.0 == rel_x1_spec(if x1 <= x2 { x1 as int } else { x2 as int }, self.width as int),
            r.1 == rel_y1_spec(if y1 >= y2 { y1 as int } else { y2 as int }, self.height as int),
            r.2 == rel_x2_spec(if x1 <= x2 { x2 as int } else { x1 as int }, self.width as int),
            r.3 == rel_y2_spec(if y1 >= y2 { y2 as int } else { y1 as int }, self.height as int),
            0 <= r.0 <= UNIT && 0 <= r.1 <= UNIT && 0 <= r.2 <= UNIT && 0 <= r.3 <= UNIT,
    {
        let x_lo = if x1 <= x2 { x1 } else { x2 };
        let x_hi = if x1 <= x2 { x2 } else { x1 };
        let y_top = if y1 >= y2 { y1 } else { y2 };
        let y_bot = if y1 >= y2 { y2 } else { y1 };
        (
            self.get_rel_config_coord_x1(x_lo),
            self.get_rel_config_coord_y1(y_top),
            self.get_rel_config_coord_x2(x_hi),
            self.get_rel_config_coord_y2(y_bot),
        )
    }

    /// Build the default box for a "new ROI" request: the current view
    /// bounds inset by three tenths of their extent on every side (the
    /// inset rounded down to the fixed-point grid), mapped back to
    /// normalized space, with the default name.
    pub fn new_roi_box(&self) -> (r: JsonConfig)
        requires
            self.dims_ok(),
            self.bounds.wf(),
        ensures
            r@ == new_roi_spec(*self),
            r@.wf(),
    {
        let dx = self.bounds.x_max - self.bounds.x_min;
        let dy = self.bounds.y_max - self.bounds.y_min;
        let ix = floor_div(3 * dx, 10);
        let iy = floor_div(3 * dy, 10);
        proof {
            lemma_floor_div_range(3 * (dx as int), 10, -2_400_000_000_000, 2_400_000_000_000);
            lemma_floor_div_range(3 * (dy as int), 10, -2_400_000_000_000, 2_400_000_000_000);
        }
        let (x1, y1, x2, y2) = self.get_rel_config_coords(
            self.bounds.x_min + ix,
            self.bounds.y_max - iy,
            self.bounds.x_max - ix,
            self.bounds.y_min + iy,
        );
        let mut name: Vec<u8> = Vec::new();
        name.push(110);
        name.push(101);
        name.push(119);
        name.push(95);
        name.push(114);
        name.push(111);
        name.push(105);
        proof {
            assert(name@ =~= new_roi_name());
        }
        let r = JsonConfig { x1, y1, x2, y2, name };
        proof {
            assert(r@ =~= new_roi_spec(*self));
        }
        r
    }
}

/// The bytes of the default name given to a newly created ROI.
pub open spec fn new_roi_name() -> Seq<u8> {
    seq![110u8, 101u8, 119u8, 95u8, 114u8, 111u8, 105u8]
}

/// The box a "new ROI" request creates from the current view bounds:
/// each side inset by `floor(3 * extent / 10)`, opposite corners paired
/// up, then mapped to normalized space by the corner-specific inverses.
pub open spec fn new_roi_spec(img: ImageData) -> JsonConfigV {
    let dx = img.bounds.x_max - img.bounds.x_min;
    let dy = img.bounds.y_max - img.bounds.y_min;
    let ix = floor_div_spec(3 * dx, 10);
    let iy = floor_div_spec(3 * dy, 10);
    let xa = img.bounds.x_min + ix;
    let xb = img.bounds.x_max - ix;
    let ya = img.bounds.y_max - iy;
    let yb = img.bounds.y_min + iy;
    JsonConfigV {
        x1: rel_x1_spec(if xa <= xb { xa } else { xb }, img.width as int),
        y1: rel_y1_spec(if ya >= yb { ya } else { yb }, img.height as int),
        x2: rel_x2_spec(if xa <= xb { xb } else { xa }, img.width as int),
        y2: rel_y2_spec(if ya >= yb { yb } else { ya }, img.height as int),
        name: new_roi_name(),
    }
}

} // verus!
