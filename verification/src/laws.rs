//! Crate-level laws: properties that relate several operations, stated
//! over the same spec functions the operations' contracts use.

use vstd::prelude::*;
use crate::config::{JsonConfig, JsonConfigV};
use crate::config_data::{is_best_hit, EditCoord};
use crate::controller::drag_step;
use crate::json::{deserialize, records_repr, records_wf, serialize, views};

verus! {

/// Round trip: parsing what `serialize` wrote yields a record set whose
/// values equal the original's, field by field, for any list of
/// storable records, the empty list included. The parser cannot reject
/// its own output, so this function never fails.
pub fn round_trip(configs: &Vec<JsonConfig>) -> (r: Vec<JsonConfig>)
    requires
        forall|i: int| 0 <= i < configs@.len() ==> (#[trigger] configs@[i])@.wf(),
    ensures
        views(r@) == views(configs@),
{
    let bytes = serialize(configs);
    proof {
        assert(records_wf(views(configs@))) by {
            assert(forall|i: int|
                0 <= i < configs@.len() ==> views(configs@)[i] == (#[trigger] configs@[i])@);
        }
    }
    match deserialize(&bytes) {
        Option::Some(v) => v,
        Option::None => {
            proof {
                assert(false);
            }
            vstd::pervasive::unreached()
        },
    }
}

/// Hit-test determinism: at most one index can be the hit-test winner
/// for a point, so the index `find_relevant_roi_at_coord` returns is
/// the only one satisfying its contract.
pub proof fn lemma_best_hit_unique(s: Seq<JsonConfig>, i: int, j: int, x: int, y: int)
    requires
        is_best_hit(s, i, x, y),
        is_best_hit(s, j, x, y),
    ensures
        i == j,
{
}

/// A whole drag history: fold `drag_step` over a sequence of events,
/// each naming the corner being dragged and the pointer position.
pub open spec fn apply_drags(
    b: JsonConfigV,
    events: Seq<(EditCoord, int, int)>,
    w: int,
    h: int,
) -> JsonConfigV
    decreases events.len(),
{
    if events.len() == 0 {
        b
    } else {
        apply_drags(
            drag_step(b, events[0].0, events[0].1, events[0].2, w, h),
            events.skip(1),
            w,
            h,
        )
    }
}

/// One `drag_step` keeps the rectangle ordering: the dragged corner is
/// clamped against its opposite edge, whatever the pointer position —
/// including positions far outside the image or across the opposite
/// edge — and the other axis is untouched.
pub proof fn lemma_drag_step_preserves_ordered(
    b: JsonConfigV,
    c: EditCoord,
    px: int,
    py: int,
    w: int,
    h: int,
)
    requires
        b.ordered(),
    ensures
        drag_step(b, c, px, py, w, h).ordered(),
{
}

/// Invariant preservation: a box that satisfies the rectangle ordering
/// keeps it after every prefix of any sequence of drag updates, on any
/// corners and at any pointer positions.
pub proof fn lemma_drags_preserve_ordered(
    b: JsonConfigV,
    events: Seq<(EditCoord, int, int)>,
    w: int,
    h: int,
)
    requires
        b.ordered(),
    ensures
        apply_drags(b, events, w, h).ordered(),
    decreases events.len(),
{
    if events.len() > 0 {
        lemma_drag_step_preserves_ordered(b, events[0].0, events[0].1, events[0].2, w, h);
        lemma_drags_preserve_ordered(
            drag_step(b, events[0].0, events[0].1, events[0].2, w, h),
            events.skip(1),
            w,
            h,
        );
    }
}

} // verus!
