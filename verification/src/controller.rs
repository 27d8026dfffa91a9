//! The interactive-editing state machine: selecting and removing boxes by
//! pointer position, and the corner-drag resize cycle. Every operation is
//! total; a missing selection or a miss is absorbed as a no-op.

use vstd::prelude::*;
use crate::config::{abs_x_hi, abs_x_lo, abs_y_hi, abs_y_lo, lemma_coord_times_dim, JsonConfigV};
use crate::config_data::{
    is_best_hit, no_hit, removal_reconciled, ConfigData, EditCoord,
};
use crate::fixed::{coord_ok, lemma_ceil_div_range, lemma_floor_div_range, UNIT};
use crate::image_data::{
    abs_input_ok, new_roi_spec, rel_x1_spec, rel_x2_spec, rel_y1_spec, rel_y2_spec, ImageData,
};

verus! {

/// How close, in raw display units, the pointer must be to a corner line
/// for a drag to grab it: ten display units.
pub const GRAB_DIST: i64 = 10 * UNIT;

/// The corner `drag_start` picks for a box with display corners
/// `(ax1, ay1, ax2, ay2)` and pointer `(px, py)` (all as raw display
/// values, the corners in whole pixels). Candidates are tried in the
/// fixed order `X1, Y1, X2, Y2`; each uses its single-axis distance, is
/// eligible under `GRAB_DIST`, and only a strictly smaller distance
/// replaces the best so far — so the first-listed corner wins exact ties.
pub open spec fn pick_corner_at(ax1: int, ay1: int, ax2: int, ay2: int, px: int, py: int)
    -> EditCoord {
    let t = GRAB_DIST as int;
    let none_val = 0x7fff_ffff_ffff_ffffint;
    let d1 = abs_diff(ax1 * (UNIT as int), px);
    let d2 = abs_diff(ay1 * (UNIT as int), py);
    let d3 = abs_diff(ax2 * (UNIT as int), px);
    let d4 = abs_diff(ay2 * (UNIT as int), py);
    let c1 = if d1 < t && d1 < none_val { EditCoord::X1 } else { EditCoord::NoCorner };
    let v1 = if d1 < t && d1 < none_val { d1 } else { none_val };
    let c2 = if d2 < t && d2 < v1 { EditCoord::Y1 } else { c1 };
    let v2 = if d2 < t && d2 < v1 { d2 } else { v1 };
    let c3 = if d3 < t && d3 < v2 { EditCoord::X2 } else { c2 };
    let v3 = if d3 < t && d3 < v2 { d3 } else { v2 };
    let c4 = if d4 < t && d4 < v3 { EditCoord::Y2 } else { c3 };
    c4
}

/// Absolute difference of two mathematical integers.
pub open spec fn abs_diff(a: int, b: int) -> int {
    if a >= b {
        a - b
    } else {
        b - a
    }
}

/// The corner `drag_start` picks for box `b` under image dimensions
/// `(w, h)` and pointer `(px, py)`.
pub open spec fn pick_corner(b: JsonConfigV, w: int, h: int, px: int, py: int) -> EditCoord {
    pick_corner_at(
        abs_x_lo(b.x1, w),
        abs_y_hi(b.y1, h),
        abs_x_hi(b.x2, w),
        abs_y_lo(b.y2, h),
        px,
        py,
    )
}

/// One `drag_update` step on a box: the dragged corner's axis is set to
/// the corner-specific inverse mapping of the pointer, clamped against
/// the opposite edge so the rectangle ordering is never violated on that
/// axis. Every other field is untouched.
pub open spec fn drag_step(b: JsonConfigV, c: EditCoord, px: int, py: int, w: int, h: int)
    -> JsonConfigV {
    match c {
        EditCoord::X1 => JsonConfigV {
            x1: if rel_x1_spec(px, w) <= b.x2 { rel_x1_spec(px, w) } else { b.x2 },
            ..b
        },
        EditCoord::Y1 => JsonConfigV {
            y1: if rel_y1_spec(py, h) <= b.y2 { rel_y1_spec(py, h) } else { b.y2 },
            ..b
        },
        EditCoord::X2 => JsonConfigV {
            x2: if rel_x2_spec(px, w) >= b.x1 { rel_x2_spec(px, w) } else { b.x1 },
            ..b
        },
        EditCoord::Y2 => JsonConfigV {
            y2: if rel_y2_spec(py, h) >= b.y1 { rel_y2_spec(py, h) } else { b.y1 },
            ..b
        },
        EditCoord::NoCorner => b,
    }
}

/// A pointer event from the host, in the shape the original update loop
/// delivers: clicks and secondary-button drag phases. The position
/// accompanying the event arrives separately, in absolute display space.
pub enum PointerEvent {
    SecondaryClick,
    MiddleClick,
    DragStarted,
    Dragged,
    DragStopped,
}

impl ConfigData {
    /// Select the hit-test winner at `(x, y)` in normalized space; any
    /// drag in progress is dropped. When no box contains the point the
    /// state is unchanged.
    pub fn select_nearest(&mut self, x: i64, y: i64)
        requires
            old(self).wf(),
            coord_ok(x as int),
            coord_ok(y as int),
        ensures
            final(self).config@ == old(self).config@,
            no_hit(old(self).config@, x as int, y as int) ==> final(self).edit_idx == old(self).edit_idx
                && final(self).edit_coord == old(self).edit_coord,
            forall|i: int|
                #[trigger] is_best_hit(old(self).config@, i, x as int, y as int) ==> final(self).edit_idx == Option::Some(i as usize) && final(self).edit_coord is NoCorner,
            final(self).wf(),
    {
        match self.find_relevant_roi_at_coord(x, y) {
            Option::Some(i) => {
                self.edit_idx = Option::Some(i);
                self.edit_coord = EditCoord::NoCorner;
                proof {
                    assert forall|j: int|
                        #[trigger] is_best_hit(old(self).config@, j, x as int, y as int)
                        implies j == i as int by {}
                }
            },
            Option::None => {},
        }
    }

    /// Remove the hit-test winner at `(x, y)` in normalized space,
    /// reconciling the selection as `safely_remove_roi` does. When no box
    /// contains the point the state is unchanged.
    pub fn remove_nearest(&mut self, x: i64, y: i64)
        requires
            old(self).wf(),
            coord_ok(x as int),
            coord_ok(y as int),
        ensures
            no_hit(old(self).config@, x as int, y as int) ==> final(self).config@ == old(self).config@
                && final(self).edit_idx == old(self).edit_idx
                && final(self).edit_coord == old(self).edit_coord,
            forall|i: int|
                #[trigger] is_best_hit(old(self).config@, i, x as int, y as int)
                    ==> removal_reconciled(*old(self), i, *final(self)),
            final(self).wf(),
    {
        match self.find_relevant_roi_at_coord(x, y) {
            Option::Some(i) => {
                self.safely_remove_roi(i);
            },
            Option::None => {},
        }
    }

    /// Begin a corner drag at display-space pointer `(px, py)`: when a box
    /// is selected, grab the corner `pick_corner` names (or none, leaving
    /// the box merely selected). Without a selection the state is
    /// unchanged.
    pub fn drag_start(&mut self, px: i64, py: i64, img: &ImageData)
        requires
            old(self).wf(),
            coord_ok(px as int),
            coord_ok(py as int),
            img.dims_ok(),
        ensures
            final(self).config@ == old(self).config@,
            final(self).edit_idx == old(self).edit_idx,
            old(self).edit_idx is None ==> final(self).edit_coord == old(self).edit_coord,
            match old(self).edit_idx {
                Option::Some(e) => final(self).edit_coord == pick_corner(
                    old(self).config@[e as int]@,
                    img.width as int,
                    img.height as int,
                    px as int,
                    py as int,
                ),
                Option::None => true,
            },
            final(self).wf(),
    {
        let e = match self.edit_idx {
            Option::Some(e) => e,
            Option::None => {
                return ;
            },
        };
        let c = &self.config[e];
        let (ax1, ay1, ax2, ay2) = c.get_abs_plot_coords(img.width, img.height);
        proof {
            lemma_coord_times_dim(c@.x1, img.width as int);
            lemma_coord_times_dim(c@.y1, img.height as int);
            lemma_coord_times_dim(c@.x2, img.width as int);
            lemma_coord_times_dim(c@.y2, img.height as int);
            lemma_floor_div_range(
                c@.x1 * img.width as int,
                UNIT as int,
                -4_000_000_000_000,
                4_000_000_000_000,
            );
            lemma_ceil_div_range(
                -(c@.y1 * img.height as int),
                UNIT as int,
                -4_000_000_000_000,
                4_000_000_000_000,
            );
            lemma_ceil_div_range(
                c@.x2 * img.width as int,
                UNIT as int,
                -4_000_000_000_000,
                4_000_000_000_000,
            );
            lemma_floor_div_range(
                -(c@.y2 * img.height as int),
                UNIT as int,
                -4_000_000_000_000,
                4_000_000_000_000,
            );
        }
        let mut best = EditCoord::NoCorner;
        let mut best_val: i64 = i64::MAX;
        let val = abs_diff_units(ax1, px);
        if val < GRAB_DIST && val < best_val {
            best = EditCoord::X1;
            best_val = val;
        }
        let val = abs_diff_units(ay1, py);
        if val < GRAB_DIST && val < best_val {
            best = EditCoord::Y1;
            best_val = val;
        }
        let val = abs_diff_units(ax2, px);
        if val < GRAB_DIST && val < best_val {
            best = EditCoord::X2;
            best_val = val;
        }
        let val = abs_diff_units(ay2, py);
        if val < GRAB_DIST && val < best_val {
            best = EditCoord::Y2;
        }
        self.edit_coord = best;
    }

    /// Move the grabbed corner to display-space pointer `(px, py)`: the
    /// selected box takes one `drag_step`. Without a grabbed corner the
    /// state is unchanged.
    pub fn drag_update(&mut self, px: i64, py: i64, img: &ImageData)
        requires
            old(self).wf(),
            abs_input_ok(px as int),
            abs_input_ok(py as int),
            img.dims_ok(),
        ensures
            final(self).config@.len() == old(self).config@.len(),
            final(self).edit_idx == old(self).edit_idx,
            final(self).edit_coord == old(self).edit_coord,
            match old(self).edit_idx {
                Option::Some(e) => {
                    &&& final(self).config@[e as int]@ == drag_step(
                        old(self).config@[e as int]@,
                        old(self).edit_coord,
                        px as int,
                        py as int,
                        img.width as int,
                        img.height as int,
                    )
                    &&& forall|j: int|
                        0 <= j < old(self).config@.len() && j != e ==> final(self).config@[j]
                            == old(self).config@[j]
                },
                Option::None => final(self).config@ == old(self).config@,
            },
            final(self).wf(),
    {
        let e = match self.edit_idx {
            Option::Some(e) => e,
            Option::None => {
                return ;
            },
        };
        match self.edit_coord {
            EditCoord::X1 => {
                let r = img.get_rel_config_coord_x1(px);
                let c = &mut self.config[e];
                c.x1 = if r <= c.x2 { r } else { c.x2 };
            },
            EditCoord::Y1 => {
                let r = img.get_rel_config_coord_y1(py);
                let c = &mut self.config[e];
                c.y1 = if r <= c.y2 { r } else { c.y2 };
            },
            EditCoord::X2 => {
                let r = img.get_rel_config_coord_x2(px);
                let c = &mut self.config[e];
                c.x2 = if r >= c.x1 { r } else { c.x1 };
            },
            EditCoord::Y2 => {
                let r = img.get_rel_config_coord_y2(py);
                let c = &mut self.config[e];
                c.y2 = if r >= c.y1 { r } else { c.y1 };
            },
            EditCoord::NoCorner => {},
        }
    }

    /// Append the default box for a "new ROI" request, placed inside the
    /// current view bounds; the selection is untouched.
    pub fn create_new_roi(&mut self, img: &ImageData)
        requires
            old(self).wf(),
            img.dims_ok(),
            img.bounds.wf(),
        ensures
            final(self).config@.len() == old(self).config@.len() + 1,
            final(self).config@[old(self).config@.len() as int]@ == new_roi_spec(*img),
            forall|j: int|
                0 <= j < old(self).config@.len() ==> final(self).config@[j] == old(self).config@[j],
            final(self).edit_idx == old(self).edit_idx,
            final(self).edit_coord == old(self).edit_coord,
            final(self).wf(),
    {
        let b = img.new_roi_box();
        self.add(b);
    }

    /// Select the box at `idx` directly (a click in the record list);
    /// any drag in progress is dropped. A no-op when `idx` is out of
    /// range.
    pub fn select(&mut self, idx: usize)
        requires
            old(self).wf(),
        ensures
            final(self).config@ == old(self).config@,
            idx < old(self).config@.len() ==> final(self).edit_idx == Option::Some(idx)
                && final(self).edit_coord is NoCorner,
            idx >= old(self).config@.len() ==> final(self).edit_idx == old(self).edit_idx
                && final(self).edit_coord == old(self).edit_coord,
            final(self).wf(),
    {
        if idx < self.config.len() {
            self.edit_idx = Option::Some(idx);
            self.edit_coord = EditCoord::NoCorner;
        }
    }

    /// Drop the selection and any drag in progress (the active record
    /// set went away).
    pub fn clear_selection(&mut self)
        requires
            old(self).wf(),
        ensures
            final(self).config@ == old(self).config@,
            final(self).edit_idx is None,
            final(self).edit_coord is NoCorner,
            final(self).wf(),
    {
        self.edit_idx = Option::None;
        self.edit_coord = EditCoord::NoCorner;
    }

    /// The explicit event interface: one pointer event per call, with
    /// the pointer position in absolute display space. Clicks are first
    /// mapped to normalized space through the min-edge inverses, as a
    /// single point has no min or max side; drags keep display space.
    /// A secondary click selects, a middle click removes, and the three
    /// drag phases drive the corner-drag cycle.
    pub fn handle_pointer_event(&mut self, ev: PointerEvent, px: i64, py: i64, img: &ImageData)
        requires
            old(self).wf(),
            coord_ok(px as int),
            coord_ok(py as int),
            img.dims_ok(),
        ensures
            final(self).wf(),
            ({
                let rx = rel_x1_spec(px as int, img.width as int);
                let ry = rel_y1_spec(py as int, img.height as int);
                match ev {
                    PointerEvent::SecondaryClick => {
                        &&& final(self).config@ == old(self).config@
                        &&& no_hit(old(self).config@, rx, ry) ==> final(self).edit_idx == old(self).edit_idx && final(self).edit_coord == old(self).edit_coord
                        &&& forall|i: int|
                            #[trigger] is_best_hit(old(self).config@, i, rx, ry) ==> final(self).edit_idx == Option::Some(i as usize) && final(self).edit_coord is NoCorner
                    },
                    PointerEvent::MiddleClick => {
                        &&& no_hit(old(self).config@, rx, ry) ==> final(self).config@ == old(self).config@ && final(self).edit_idx == old(self).edit_idx && final(self).edit_coord == old(self).edit_coord
                        &&& forall|i: int|
                            #[trigger] is_best_hit(old(self).config@, i, rx, ry)
                                ==> removal_reconciled(*old(self), i, *final(self))
                    },
                    PointerEvent::DragStarted => {
                        &&& final(self).config@ == old(self).config@
                        &&& final(self).edit_idx == old(self).edit_idx
                        &&& match old(self).edit_idx {
                            Option::Some(e) => final(self).edit_coord == pick_corner(
                                old(self).config@[e as int]@,
                                img.width as int,
                                img.height as int,
                                px as int,
                                py as int,
                            ),
                            Option::None => final(self).edit_coord == old(self).edit_coord,
                        }
                    },
                    PointerEvent::Dragged => {
                        &&& final(self).config@.len() == old(self).config@.len()
                        &&& final(self).edit_idx == old(self).edit_idx
                        &&& final(self).edit_coord == old(self).edit_coord
                        &&& match old(self).edit_idx {
                            Option::Some(e) => final(self).config@[e as int]@ == drag_step(
                                old(self).config@[e as int]@,
                                old(self).edit_coord,
                                px as int,
                                py as int,
                                img.width as int,
                                img.height as int,
                            ) && forall|j: int|
                                0 <= j < old(self).config@.len() && j != e ==> final(self).config@[j] == old(self).config@[j],
                            Option::None => final(self).config@ == old(self).config@,
                        }
                    },
                    PointerEvent::DragStopped => {
                        &&& final(self).config@ == old(self).config@
                        &&& final(self).edit_idx == old(self).edit_idx
                        &&& final(self).edit_coord is NoCorner
                    },
                }
            }),
    {
        match ev {
            PointerEvent::SecondaryClick => {
                let rx = img.get_rel_config_coord_x1(px);
                let ry = img.get_rel_config_coord_y1(py);
                self.select_nearest(rx, ry);
            },
            PointerEvent::MiddleClick => {
                let rx = img.get_rel_config_coord_x1(px);
                let ry = img.get_rel_config_coord_y1(py);
                self.remove_nearest(rx, ry);
            },
            PointerEvent::DragStarted => {
                self.drag_start(px, py, img);
            },
            PointerEvent::Dragged => {
                self.drag_update(px, py, img);
            },
            PointerEvent::DragStopped => {
                self.drag_stop();
            },
        }
    }

    /// End any drag in progress; the selection stays.
    pub fn drag_stop(&mut self)
        requires
            old(self).wf(),
        ensures
            final(self).config@ == old(self).config@,
            final(self).edit_idx == old(self).edit_idx,
            final(self).edit_coord is NoCorner,
            final(self).wf(),
    {
        self.edit_coord = EditCoord::NoCorner;
    }
}

/// Single-axis distance between a corner line at pixel `c` and a pointer
/// coordinate `p` (raw), in raw display units.
fn abs_diff_units(c: i64, p: i64) -> (r: i64)
    requires
        -4_000_000_000_000 <= c <= 4_000_000_000_000,
        coord_ok(p as int),
    ensures
        r == abs_diff(c * (UNIT as int), p as int),
{
    let scaled = c * UNIT;
    if scaled >= p {
        scaled - p
    } else {
        p - scaled
    }
}

} // verus!
