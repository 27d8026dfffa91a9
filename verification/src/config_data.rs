//! The ROI collection: an ordered sequence of records plus the selection
//! and edit-corner state, with hit testing and index-safe mutation.

use vstd::prelude::*;
use crate::config::{JsonConfig, JsonConfigV};
use crate::fixed::coord_ok;

verus! {

/// Which corner handle of the selected box, if any, is being dragged.
#[derive(Clone, Copy, PartialEq, Eq, Structural, Debug)]
pub enum EditCoord {
    X1,
    Y1,
    X2,
    Y2,
    NoCorner,
}

impl Default for EditCoord {
    /// No corner is being dragged at first.
    fn default() -> (r: Self)
        ensures
            r is NoCorner,
    {
        Self::NoCorner
    }
}

/// A point lies in a box when it is inside both closed x edges and inside
/// the y interval, whose max edge is exclusive: two vertically adjacent
/// boxes sharing an edge never both match.
pub open spec fn contains_pt(b: JsonConfigV, x: int, y: int) -> bool {
    b.x1 <= x <= b.x2 && b.y1 <= y < b.y2
}

/// Four times the squared Euclidean distance from the box's center to the
/// point. Scaling by four keeps the center on the integer grid, and both
/// scaling and squaring preserve the distance ordering.
pub open spec fn center_dist2(b: JsonConfigV, x: int, y: int) -> int {
    let dx = b.x1 + b.x2 - 2 * x;
    let dy = b.y1 + b.y2 - 2 * y;
    dx * dx + dy * dy
}

/// `contains_pt` at an index of a record sequence.
pub open spec fn hit_at(s: Seq<JsonConfig>, j: int, x: int, y: int) -> bool {
    contains_pt(s[j]@, x, y)
}

/// `center_dist2` at an index of a record sequence.
pub open spec fn dist2_at(s: Seq<JsonConfig>, j: int, x: int, y: int) -> int {
    center_dist2(s[j]@, x, y)
}

/// No box of the sequence contains the point.
pub open spec fn no_hit(s: Seq<JsonConfig>, x: int, y: int) -> bool {
    forall|j: int| 0 <= j < s.len() ==> !(#[trigger] hit_at(s, j, x, y))
}

/// `i` is the hit-test winner: it contains the point, every earlier
/// containing box is strictly farther from it, and no later containing
/// box is strictly closer.
pub open spec fn is_best_hit(s: Seq<JsonConfig>, i: int, x: int, y: int) -> bool {
    &&& 0 <= i < s.len()
    &&& hit_at(s, i, x, y)
    &&& forall|j: int|
        0 <= j < i && #[trigger] hit_at(s, j, x, y) ==> dist2_at(s, j, x, y) > dist2_at(s, i, x, y)
    &&& forall|j: int|
        i < j < s.len() && #[trigger] hit_at(s, j, x, y) ==> dist2_at(s, j, x, y) >= dist2_at(
            s,
            i,
            x,
            y,
        )
}

/// The square of a bounded value is nonnegative and bounded.
pub proof fn lemma_square_bound(v: int, m: int)
    requires
        -m <= v <= m,
        0 <= m,
    ensures
        0 <= v * v <= m * m,
{
    assert(0 <= v * v <= m * m) by (nonlinear_arith)
        requires
            -m <= v <= m,
            0 <= m,
    ;
}

/// The state change of removing the record at in-range index `idx`:
/// the sequence loses that element, a selection after the hole shifts
/// down by one, removing the selected box clears the selection, and any
/// in-progress drag is dropped whenever the selection moved or vanished.
pub open spec fn removal_reconciled(pre: ConfigData, idx: int, post: ConfigData) -> bool {
    &&& post.config@ == pre.config@.remove(idx)
    &&& match pre.edit_idx {
        Option::Some(e) => {
            &&& idx < e ==> post.edit_idx == Option::Some((e - 1) as usize)
                && post.edit_coord is NoCorner
            &&& idx == e ==> post.edit_idx is None && post.edit_coord is NoCorner
            &&& idx > e ==> post.edit_idx == pre.edit_idx && post.edit_coord == pre.edit_coord
        },
        Option::None => post.edit_idx is None && post.edit_coord == pre.edit_coord,
    }
}

/// The ROI collection. The order of `config` is the display z-order and
/// is preserved by every mutation. `edit_idx` selects at most one box for
/// editing; `edit_coord` names the corner being dragged, if any.
pub struct ConfigData {
    pub config: Vec<JsonConfig>,
    pub edit_idx: Option<usize>,
    pub edit_coord: EditCoord,
}

impl Default for ConfigData {
    /// An empty collection with nothing selected.
    fn default() -> (r: Self)
        ensures
            r.config@.len() == 0,
            r.edit_idx is None,
            r.edit_coord is NoCorner,
            r.wf(),
    {
        ConfigData { config: Vec::new(), edit_idx: Option::None, edit_coord: EditCoord::NoCorner }
    }
}

impl ConfigData {
    /// Well-formedness: every stored coordinate is in range, the selection
    /// index (if any) is in range, and a corner can only be dragged while
    /// a box is selected.
    pub open spec fn wf(self) -> bool {
        &&& forall|j: int|
            0 <= j < self.config@.len() ==> (#[trigger] self.config@[j])@.wf()
        &&& match self.edit_idx {
            Option::Some(e) => e < self.config@.len(),
            Option::None => true,
        }
        &&& self.edit_coord is NoCorner || self.edit_idx is Some
    }

    /// Replace the whole record sequence and clear the edit state. The
    /// incoming records are stored as they are; no ordering invariant is
    /// checked on load.
    pub fn load(&mut self, boxes: Vec<JsonConfig>)
        requires
            forall|j: int| 0 <= j < boxes@.len() ==> (#[trigger] boxes@[j])@.wf(),
        ensures
            final(self).config@ == boxes@,
            final(self).edit_idx is None,
            final(self).edit_coord is NoCorner,
            final(self).wf(),
    {
        self.config = boxes;
        self.edit_idx = Option::None;
        self.edit_coord = EditCoord::NoCorner;
    }

    /// Append a record; the selection is untouched.
    pub fn add(&mut self, b: JsonConfig)
        requires
            old(self).wf(),
            b@.wf(),
        ensures
            final(self).config@ == old(self).config@.push(b),
            final(self).edit_idx == old(self).edit_idx,
            final(self).edit_coord == old(self).edit_coord,
            final(self).wf(),
    {
        self.config.push(b);
    }

    /// Rename the record at `idx` in place; a no-op when `idx` is out of
    /// range.
    pub fn rename(&mut self, idx: usize, name: Vec<u8>)
        requires
            old(self).wf(),
        ensures
            idx < old(self).config@.len() ==> {
                &&& final(self).config@.len() == old(self).config@.len()
                &&& final(self).config@[idx as int]@ == JsonConfigV {
                    name: name@,
                    ..old(self).config@[idx as int]@
                }
                &&& forall|j: int|
                    0 <= j < final(self).config@.len() && j != idx ==> final(self).config@[j]
                        == old(self).config@[j]
            },
            idx >= old(self).config@.len() ==> final(self).config@ == old(self).config@,
            final(self).edit_idx == old(self).edit_idx,
            final(self).edit_coord == old(self).edit_coord,
            final(self).wf(),
    {
        if idx < self.config.len() {
            let c = &mut self.config[idx];
            c.name = name;
        }
    }

    /// Hit test in normalized space: among the boxes containing `(x, y)`,
    /// return the index whose center is Euclidean-closest to the point.
    /// A strictly closer later box wins; ties keep the first-encountered
    /// index. `None` when no box contains the point.
    pub fn find_relevant_roi_at_coord(&self, x: i64, y: i64) -> (r: Option<usize>)
        requires
            self.wf(),
            coord_ok(x as int),
            coord_ok(y as int),
        ensures
            match r {
                Option::Some(i) => is_best_hit(self.config@, i as int, x as int, y as int),
                Option::None => no_hit(self.config@, x as int, y as int),
            },
    {
        let mut best: Option<usize> = Option::None;
        let mut best_d: i128 = 0;
        let mut idx: usize = 0;
        while idx < self.config.len()
            invariant
                self.wf(),
                coord_ok(x as int),
                coord_ok(y as int),
                idx <= self.config@.len(),
                match best {
                    Option::Some(b) => {
                        &&& b < idx
                        &&& hit_at(self.config@, b as int, x as int, y as int)
                        &&& best_d == dist2_at(self.config@, b as int, x as int, y as int)
                        &&& forall|j: int|
                            0 <= j < b && #[trigger] hit_at(self.config@, j, x as int, y as int)
                                ==> dist2_at(self.config@, j, x as int, y as int) > best_d
                        &&& forall|j: int|
                            b < j < idx && #[trigger] hit_at(self.config@, j, x as int, y as int)
                                ==> dist2_at(self.config@, j, x as int, y as int) >= best_d
                    },
                    Option::None => forall|j: int|
                        0 <= j < idx ==> !(#[trigger] hit_at(self.config@, j, x as int, y as int)),
                },
            decreases self.config@.len() - idx,
        {
            let c = &self.config[idx];
            if c.x1 <= x && x <= c.x2 && c.y1 <= y && y < c.y2 {
                let dx = c.x1 as i128 + c.x2 as i128 - 2 * (x as i128);
                let dy = c.y1 as i128 + c.y2 as i128 - 2 * (y as i128);
                proof {
                    lemma_square_bound(dx as int, 16_000_000_000_000);
                    lemma_square_bound(dy as int, 16_000_000_000_000);
                }
                let d = dx * dx + dy * dy;
                let take = match best {
                    Option::None => true,
                    Option::Some(_) => d < best_d,
                };
                if take {
                    best = Option::Some(idx);
                    best_d = d;
                }
            }
            idx = idx + 1;
        }
        best
    }

    /// Remove the record at `idx` and reconcile the selection: a selection
    /// after the hole shifts down by one, removing the selected box clears
    /// the selection, and any in-progress drag is dropped in either case.
    /// A no-op when `idx` is out of range.
    pub fn safely_remove_roi(&mut self, idx: usize)
        requires
            old(self).wf(),
        ensures
            idx >= old(self).config@.len() ==> {
                &&& final(self).config@ == old(self).config@
                &&& final(self).edit_idx == old(self).edit_idx
                &&& final(self).edit_coord == old(self).edit_coord
            },
            idx < old(self).config@.len() ==> removal_reconciled(
                *old(self),
                idx as int,
                *final(self),
            ),
            final(self).wf(),
    {
        if idx >= self.config.len() {
            return ;
        }
        self.config.remove(idx);
        if let Option::Some(e) = self.edit_idx {
            if idx < e {
                self.edit_idx = Option::Some(e - 1);
                self.edit_coord = EditCoord::NoCorner;
            } else if idx == e {
                self.edit_idx = Option::None;
                self.edit_coord = EditCoord::NoCorner;
            }
        }
    }
}

} // verus!
