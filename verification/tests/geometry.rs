use roi_core::config::JsonConfig;
use roi_core::config_data::{ConfigData, EditCoord};
use roi_core::controller::{PointerEvent, GRAB_DIST};
use roi_core::fixed::UNIT;
use roi_core::image_data::{ImageData, ViewBounds};

fn boxed(x1: i64, y1: i64, x2: i64, y2: i64, name: &str) -> JsonConfig {
    JsonConfig { x1, y1, x2, y2, name: name.as_bytes().to_vec() }
}

fn image(width: usize, height: usize) -> ImageData {
    ImageData {
        width,
        height,
        bounds: ViewBounds {
            x_min: 0,
            y_max: 0,
            x_max: (width as i64) * UNIT,
            y_min: -(height as i64) * UNIT,
        },
    }
}

#[test]
fn abs_coords_of_grid_aligned_box() {
    let b = boxed(200_000, 200_000, 800_000, 800_000, "b");
    assert_eq!(b.get_abs_plot_coords(100, 50), (20, -10, 80, -40));
}

#[test]
fn coordinate_round_trip_is_exact_on_grid() {
    let b = boxed(200_000, 200_000, 800_000, 800_000, "b");
    let (ax1, ay1, ax2, ay2) = b.get_abs_plot_coords(100, 50);
    let img = image(100, 50);
    assert_eq!(img.get_rel_config_coord_x1(ax1 * UNIT), 200_000);
    assert_eq!(img.get_rel_config_coord_y1(ay1 * UNIT), 200_000);
    assert_eq!(img.get_rel_config_coord_x2(ax2 * UNIT), 800_000);
    assert_eq!(img.get_rel_config_coord_y2(ay2 * UNIT), 800_000);
}

#[test]
fn abs_coords_round_outward_on_subpixel_box() {
    // 0.015 * 100 = 1.5: the min edge floors, the max edge ceils.
    let b = boxed(15_000, 15_000, 25_000, 25_000, "b");
    let (ax1, ay1, ax2, ay2) = b.get_abs_plot_coords(100, 100);
    assert_eq!((ax1, ay1, ax2, ay2), (1, -1, 3, -3));
}

#[test]
fn inverse_mapping_clamps_to_unit_interval() {
    let img = image(100, 50);
    assert_eq!(img.get_rel_config_coord_x1(-5 * UNIT), 0);
    assert_eq!(img.get_rel_config_coord_x2(200 * UNIT), UNIT);
    assert_eq!(img.get_rel_config_coord_y1(5 * UNIT), 0);
    assert_eq!(img.get_rel_config_coord_y2(-200 * UNIT), UNIT);
}

#[test]
fn rel_coords_pair_min_and_max() {
    let img = image(100, 100);
    // corners handed in reversed order are paired back
    let (x1, y1, x2, y2) = img.get_rel_config_coords(80 * UNIT, -80 * UNIT, 20 * UNIT, -20 * UNIT);
    assert_eq!((x1, y1, x2, y2), (200_000, 200_000, 800_000, 800_000));
}

#[test]
fn center_is_midpoint() {
    let b = boxed(200_000, 200_000, 800_000, 800_000, "b");
    assert_eq!(b.get_center(), (500_000, 500_000));
    let odd = boxed(0, 0, 1, 1, "odd");
    assert_eq!(odd.get_center(), (0, 0));
}

#[test]
fn hit_test_shared_edge_is_exclusive_below() {
    let mut cd = ConfigData::default();
    cd.config.push(boxed(0, 0, 500_000, 500_000, "a"));
    cd.config.push(boxed(500_000, 500_000, UNIT, UNIT, "b"));
    // on the shared corner only the lower box matches: a's y2 bound is
    // exclusive
    assert_eq!(cd.find_relevant_roi_at_coord(500_000, 500_000), Some(1));
    assert_eq!(cd.find_relevant_roi_at_coord(499_999, 499_999), Some(0));
}

#[test]
fn hit_test_prefers_closest_center_and_first_on_tie() {
    let mut cd = ConfigData::default();
    cd.config.push(boxed(0, 0, UNIT, UNIT, "outer"));
    cd.config.push(boxed(350_000, 350_000, 450_000, 450_000, "inner"));
    // the inner box's center (0.4, 0.4) is nearer to the query point
    // than the outer box's (0.5, 0.5)
    assert_eq!(cd.find_relevant_roi_at_coord(420_000, 420_000), Some(1));
    // two identical boxes: the first keeps the tie
    let mut tie = ConfigData::default();
    tie.config.push(boxed(0, 0, UNIT, UNIT, "first"));
    tie.config.push(boxed(0, 0, UNIT, UNIT, "second"));
    assert_eq!(tie.find_relevant_roi_at_coord(300_000, 300_000), Some(0));
}

#[test]
fn hit_test_misses_outside() {
    let mut cd = ConfigData::default();
    cd.config.push(boxed(0, 0, 500_000, 500_000, "a"));
    assert_eq!(cd.find_relevant_roi_at_coord(600_000, 100_000), None);
}

#[test]
fn safe_removal_reindexes_selection() {
    let mut cd = ConfigData::default();
    cd.config.push(boxed(0, 0, 1, 1, "a"));
    cd.config.push(boxed(0, 0, 1, 1, "b"));
    cd.config.push(boxed(0, 0, 1, 1, "c"));
    cd.edit_idx = Some(2);
    cd.edit_coord = EditCoord::X1;
    cd.safely_remove_roi(0);
    assert_eq!(cd.config.len(), 2);
    assert_eq!(cd.edit_idx, Some(1));
    assert_eq!(cd.edit_coord, EditCoord::NoCorner);
    cd.safely_remove_roi(1);
    assert_eq!(cd.config.len(), 1);
    assert_eq!(cd.edit_idx, None);
    assert_eq!(cd.edit_coord, EditCoord::NoCorner);
}

#[test]
fn removal_after_selection_leaves_it_alone() {
    let mut cd = ConfigData::default();
    cd.config.push(boxed(0, 0, 1, 1, "a"));
    cd.config.push(boxed(0, 0, 1, 1, "b"));
    cd.edit_idx = Some(0);
    cd.edit_coord = EditCoord::Y2;
    cd.safely_remove_roi(1);
    assert_eq!(cd.edit_idx, Some(0));
    assert_eq!(cd.edit_coord, EditCoord::Y2);
}

#[test]
fn removal_out_of_range_is_a_no_op() {
    let mut cd = ConfigData::default();
    cd.config.push(boxed(0, 0, 1, 1, "a"));
    cd.edit_idx = Some(0);
    cd.safely_remove_roi(7);
    assert_eq!(cd.config.len(), 1);
    assert_eq!(cd.edit_idx, Some(0));
}

#[test]
fn drag_tie_break_picks_x1_first() {
    let img = image(100, 100);
    let mut cd = ConfigData::default();
    // a box one pixel wide and tall: its four corner lines are all half
    // a display unit from the pointer at the pixel's center
    cd.config.push(boxed(0, 0, 10_000, 10_000, "b"));
    cd.edit_idx = Some(0);
    cd.drag_start(UNIT / 2, -UNIT / 2, &img);
    assert_eq!(cd.edit_coord, EditCoord::X1);
}

#[test]
fn drag_start_out_of_reach_grabs_nothing() {
    let img = image(100, 100);
    let mut cd = ConfigData::default();
    cd.config.push(boxed(0, 0, 500_000, 500_000, "b"));
    cd.edit_idx = Some(0);
    assert!(GRAB_DIST == 10 * UNIT);
    // pointer 20 display units right of the nearest corner line
    cd.drag_start(70 * UNIT, -25 * UNIT, &img);
    assert_eq!(cd.edit_coord, EditCoord::NoCorner);
}

#[test]
fn drag_start_grabs_nearest_corner() {
    let img = image(100, 100);
    let mut cd = ConfigData::default();
    cd.config.push(boxed(0, 0, 500_000, 500_000, "b"));
    cd.edit_idx = Some(0);
    // x2's line is at 50 px; pointer 3 units away from it, 25 from y2
    cd.drag_start(47 * UNIT, -25 * UNIT, &img);
    assert_eq!(cd.edit_coord, EditCoord::X2);
}

#[test]
fn drag_update_preserves_ordering_when_overshooting() {
    let img = image(100, 50);
    let mut cd = ConfigData::default();
    cd.config.push(boxed(200_000, 200_000, 800_000, 800_000, "b"));
    cd.edit_idx = Some(0);
    cd.edit_coord = EditCoord::X1;
    // drag the left edge far beyond the right edge
    cd.drag_update(200 * UNIT, 0, &img);
    assert!(cd.config[0].x1 <= cd.config[0].x2);
    assert_eq!(cd.config[0].x1, 800_000);
    cd.edit_coord = EditCoord::Y2;
    // drag the bottom edge above the top edge
    cd.drag_update(0, 0, &img);
    assert!(cd.config[0].y1 <= cd.config[0].y2);
    assert_eq!(cd.config[0].y2, 200_000);
    cd.edit_coord = EditCoord::X2;
    // overshoot far off the image: clamped to 1, ordering kept
    cd.drag_update(1_000_000 * UNIT, 0, &img);
    assert!(cd.config[0].x1 <= cd.config[0].x2);
    assert_eq!(cd.config[0].x2, UNIT);
}

#[test]
fn drag_update_moves_one_field_only() {
    let img = image(100, 50);
    let mut cd = ConfigData::default();
    cd.config.push(boxed(200_000, 200_000, 800_000, 800_000, "b"));
    cd.edit_idx = Some(0);
    cd.edit_coord = EditCoord::Y1;
    cd.drag_update(30 * UNIT, -15 * UNIT, &img);
    let c = &cd.config[0];
    // -15 px on a 50 px image maps to 0.3
    assert_eq!((c.x1, c.y1, c.x2, c.y2), (200_000, 300_000, 800_000, 800_000));
}

#[test]
fn drag_stop_keeps_selection() {
    let mut cd = ConfigData::default();
    cd.config.push(boxed(0, 0, 1, 1, "a"));
    cd.edit_idx = Some(0);
    cd.edit_coord = EditCoord::Y1;
    cd.drag_stop();
    assert_eq!(cd.edit_idx, Some(0));
    assert_eq!(cd.edit_coord, EditCoord::NoCorner);
}

#[test]
fn select_nearest_picks_hit_and_clears_corner() {
    let mut cd = ConfigData::default();
    cd.config.push(boxed(0, 0, 500_000, 500_000, "a"));
    cd.config.push(boxed(500_000, 500_000, UNIT, UNIT, "b"));
    cd.edit_idx = Some(0);
    cd.edit_coord = EditCoord::X2;
    cd.select_nearest(700_000, 700_000);
    assert_eq!(cd.edit_idx, Some(1));
    assert_eq!(cd.edit_coord, EditCoord::NoCorner);
    // a miss changes nothing
    cd.select_nearest(200_000, 700_000);
    assert_eq!(cd.edit_idx, Some(1));
}

#[test]
fn remove_nearest_removes_hit() {
    let mut cd = ConfigData::default();
    cd.config.push(boxed(0, 0, 500_000, 500_000, "a"));
    cd.config.push(boxed(500_000, 500_000, UNIT, UNIT, "b"));
    cd.remove_nearest(250_000, 250_000);
    assert_eq!(cd.config.len(), 1);
    assert_eq!(cd.config[0].name, b"b".to_vec());
    cd.remove_nearest(250_000, 250_000);
    assert_eq!(cd.config.len(), 1);
}

#[test]
fn create_new_roi_insets_view_bounds() {
    let img = image(100, 50);
    let mut cd = ConfigData::default();
    cd.create_new_roi(&img);
    assert_eq!(cd.config.len(), 1);
    let c = &cd.config[0];
    assert_eq!((c.x1, c.y1, c.x2, c.y2), (300_000, 300_000, 700_000, 700_000));
    assert_eq!(c.name, b"new_roi".to_vec());
}

#[test]
fn load_replaces_and_clears_selection() {
    let mut cd = ConfigData::default();
    cd.config.push(boxed(0, 0, 1, 1, "old"));
    cd.edit_idx = Some(0);
    cd.edit_coord = EditCoord::X1;
    cd.load(vec![boxed(0, 0, 2, 2, "n1"), boxed(0, 0, 3, 3, "n2")]);
    assert_eq!(cd.config.len(), 2);
    assert_eq!(cd.edit_idx, None);
    assert_eq!(cd.edit_coord, EditCoord::NoCorner);
}

#[test]
fn add_keeps_selection() {
    let mut cd = ConfigData::default();
    cd.config.push(boxed(0, 0, 1, 1, "a"));
    cd.edit_idx = Some(0);
    cd.add(boxed(0, 0, 2, 2, "b"));
    assert_eq!(cd.config.len(), 2);
    assert_eq!(cd.edit_idx, Some(0));
}

#[test]
fn rename_in_place_and_out_of_range() {
    let mut cd = ConfigData::default();
    cd.config.push(boxed(0, 0, 1, 1, "a"));
    cd.rename(0, b"renamed".to_vec());
    assert_eq!(cd.config[0].name, b"renamed".to_vec());
    cd.rename(5, b"ghost".to_vec());
    assert_eq!(cd.config.len(), 1);
}

#[test]
fn select_and_clear_selection() {
    let mut cd = ConfigData::default();
    cd.config.push(boxed(0, 0, 1, 1, "a"));
    cd.select(0);
    assert_eq!(cd.edit_idx, Some(0));
    cd.select(9);
    assert_eq!(cd.edit_idx, Some(0));
    cd.clear_selection();
    assert_eq!(cd.edit_idx, None);
    assert_eq!(cd.edit_coord, EditCoord::NoCorner);
}

#[test]
fn pointer_events_drive_a_whole_edit() {
    let img = image(100, 50);
    let mut cd = ConfigData::default();
    cd.config.push(boxed(200_000, 200_000, 800_000, 800_000, "b"));
    // secondary click inside the box, at display (50, -15): maps to
    // normalized (0.5, 0.3)
    cd.handle_pointer_event(PointerEvent::SecondaryClick, 50 * UNIT, -15 * UNIT, &img);
    assert_eq!(cd.edit_idx, Some(0));
    // grab the left edge (its line is at 20 px) and drag it to 40 px
    cd.handle_pointer_event(PointerEvent::DragStarted, 21 * UNIT, -25 * UNIT, &img);
    assert_eq!(cd.edit_coord, EditCoord::X1);
    cd.handle_pointer_event(PointerEvent::Dragged, 40 * UNIT, -25 * UNIT, &img);
    assert_eq!(cd.config[0].x1, 400_000);
    cd.handle_pointer_event(PointerEvent::DragStopped, 0, 0, &img);
    assert_eq!(cd.edit_coord, EditCoord::NoCorner);
    // middle click removes the box and clears the selection
    cd.handle_pointer_event(PointerEvent::MiddleClick, 50 * UNIT, -15 * UNIT, &img);
    assert_eq!(cd.config.len(), 0);
    assert_eq!(cd.edit_idx, None);
}

#[test]
fn pointer_click_outside_changes_nothing() {
    let img = image(100, 50);
    let mut cd = ConfigData::default();
    cd.config.push(boxed(200_000, 200_000, 800_000, 800_000, "b"));
    cd.handle_pointer_event(PointerEvent::SecondaryClick, 95 * UNIT, -25 * UNIT, &img);
    assert_eq!(cd.edit_idx, None);
    cd.handle_pointer_event(PointerEvent::MiddleClick, 95 * UNIT, -25 * UNIT, &img);
    assert_eq!(cd.config.len(), 1);
}

#[test]
fn defaults_are_empty_and_idle() {
    let cd = ConfigData::default();
    assert_eq!(cd.config.len(), 0);
    assert_eq!(cd.edit_idx, None);
    assert_eq!(cd.edit_coord, EditCoord::NoCorner);
    assert_eq!(EditCoord::default(), EditCoord::NoCorner);
}
