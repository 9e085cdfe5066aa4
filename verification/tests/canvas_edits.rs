use cosmic_fancy_pants::binary64::Binary64;
use cosmic_fancy_pants::dividers::{dividers, merge_at, move_divider, split_zone, Axis, Divider};
use cosmic_fancy_pants::rect::ZoneRect;

const MIN_FRACTION: f64 = 0.05;

fn f(v: f64) -> Binary64 {
    Binary64::from_bits(v.to_bits())
}

fn v(b: Binary64) -> f64 {
    f64::from_bits(b.to_bits())
}

fn rect(x: f64, y: f64, w: f64, h: f64) -> ZoneRect {
    ZoneRect::new(f(x), f(y), f(w), f(h))
}

fn columns(n: usize) -> Vec<ZoneRect> {
    let w = 1.0 / n as f64;
    (0..n).map(|i| rect(i as f64 * w, 0.0, w, 1.0)).collect()
}

#[test]
fn interior_boundaries_are_dividers() {
    let found = dividers(&columns(3));
    assert_eq!(found.len(), 2);
    assert!(found.iter().all(|d| d.axis == Axis::Vertical));
}

/// The screen edges are not boundaries; dragging them would tear the layout away
/// from the output.
#[test]
fn screen_edges_are_not_dividers() {
    let found = dividers(&columns(2));
    assert_eq!(found.len(), 1);
    assert!((v(found[0].position) - 0.5).abs() < 1e-9);
}

#[test]
fn moving_a_divider_resizes_both_sides() {
    let zones = columns(2);
    let moved = move_divider(&zones, dividers(&zones)[0], f(0.7)).unwrap();
    assert!((v(moved[0].w) - 0.7).abs() < 1e-9, "{:?}", moved[0]);
    assert!((v(moved[1].x) - 0.7).abs() < 1e-9);
    assert!((v(moved[1].w) - 0.3).abs() < 1e-9);
}

/// The layout must stay tiled: no gaps, no overlaps, still covering 1.0.
#[test]
fn moving_a_divider_keeps_the_layout_tiled() {
    let zones = columns(3);
    let moved = move_divider(&zones, dividers(&zones)[0], f(0.2)).unwrap();
    let total: f64 = moved.iter().map(|z| v(z.w) * v(z.h)).sum();
    assert!((total - 1.0).abs() < 1e-9, "total area {total}");
    for pair in moved.windows(2) {
        assert!((v(pair[0].right()) - v(pair[1].x)).abs() < 1e-9, "gap or overlap");
    }
}

/// Dragging past the edge pins the boundary at the minimum rather than collapsing
/// the zone or refusing the move, so the drag stays smooth.
#[test]
fn dragging_past_the_edge_clamps() {
    let zones = columns(2);
    let divider = dividers(&zones)[0];

    let squashed = move_divider(&zones, divider, f(0.001)).unwrap();
    assert!((v(squashed[0].w) - MIN_FRACTION).abs() < 1e-9, "{squashed:?}");
    assert!(squashed.iter().all(|z| v(z.w) >= MIN_FRACTION));

    let stretched = move_divider(&zones, divider, f(0.999)).unwrap();
    assert!(stretched.iter().all(|z| v(z.w) >= MIN_FRACTION), "{stretched:?}");
}

/// A move that would invert a zone on the far side of a neighbouring boundary is
/// refused outright: clamping the dragged edge cannot protect zones that are not
/// adjacent to it.
#[test]
fn a_move_that_would_invert_a_neighbour_is_refused() {
    let zones = columns(3);
    let first = dividers(&zones)
        .into_iter()
        .min_by(|a, b| v(a.position).total_cmp(&v(b.position)))
        .unwrap();
    // Dragging the first boundary past the second would give the middle zone a
    // negative width.
    assert!(move_divider(&zones, first, f(0.9)).is_none());
}

/// A drag must be absolute against its grab-time snapshot.
#[test]
fn moves_are_absolute_against_the_grab_snapshot() {
    let zones = columns(2);
    let divider = dividers(&zones)[0];

    let first = move_divider(&zones, divider, f(0.7)).unwrap();
    let second = move_divider(&zones, divider, f(0.35)).unwrap();
    assert!((v(second[0].w) - 0.35).abs() < 1e-9, "{second:?}");

    // Same divider, but based on already-moved zones.
    let stale = move_divider(&first, divider, f(0.35)).unwrap();
    assert_eq!(stale, first, "a stale base silently no-ops");
}

fn tiles_completely(zones: &[ZoneRect]) -> bool {
    let area: f64 = zones.iter().map(|z| v(z.w) * v(z.h)).sum();
    (area - 1.0).abs() < 1e-9
}

#[test]
fn splitting_produces_two_zones_that_still_tile() {
    let zones = columns(2);
    let split = split_zone(&zones, 0, f(0.2), Axis::Vertical).unwrap();
    assert_eq!(split.len(), 3);
    assert!(tiles_completely(&split), "{split:?}");
    assert!((v(split[0].w) - 0.2).abs() < 1e-9);
    assert!((v(split[1].x) - 0.2).abs() < 1e-9);
    assert!((v(split[1].w) - 0.3).abs() < 1e-9);
}

/// The new zone is inserted beside its sibling so the numbering the user sees stays
/// in reading order rather than jumping to the end.
#[test]
fn a_split_zone_keeps_its_neighbours_in_order() {
    let zones = columns(3);
    let split = split_zone(&zones, 0, f(0.15), Axis::Vertical).unwrap();
    let xs: Vec<f64> = split.iter().map(|z| v(z.x)).collect();
    let mut sorted = xs.clone();
    sorted.sort_by(|a, b| a.total_cmp(b));
    assert_eq!(xs, sorted, "zones should stay left-to-right");
}

#[test]
fn splitting_horizontally_stacks_the_halves() {
    let zones = vec![rect(0.0, 0.0, 1.0, 1.0)];
    let split = split_zone(&zones, 0, f(0.25), Axis::Horizontal).unwrap();
    assert!((v(split[0].h) - 0.25).abs() < 1e-9);
    assert!((v(split[1].y) - 0.25).abs() < 1e-9);
    assert!(tiles_completely(&split));
}

/// A stray click near an edge must not shave off an unusable sliver.
#[test]
fn splitting_too_close_to_an_edge_is_refused() {
    let zones = vec![rect(0.0, 0.0, 1.0, 1.0)];
    assert!(split_zone(&zones, 0, f(0.001), Axis::Vertical).is_none());
    assert!(split_zone(&zones, 0, f(0.999), Axis::Vertical).is_none());
}

#[test]
fn splitting_an_unknown_zone_is_refused() {
    let zones = vec![rect(0.0, 0.0, 1.0, 1.0)];
    assert!(split_zone(&zones, 1, f(0.5), Axis::Vertical).is_none());
}

#[test]
fn merging_removes_a_boundary_and_still_tiles() {
    let zones = columns(3);
    let divider = dividers(&zones)[0];
    let merged = merge_at(&zones, divider).unwrap();
    assert_eq!(merged.len(), 2);
    assert!(tiles_completely(&merged), "{merged:?}");
}

/// Deleting a boundary in a grid should join every pair along it, not just the
/// first, or the layout would be left with a hole.
#[test]
fn merging_a_grid_column_joins_every_row() {
    let zones = vec![
        rect(0.0, 0.0, 0.5, 0.5),
        rect(0.5, 0.0, 0.5, 0.5),
        rect(0.0, 0.5, 0.5, 0.5),
        rect(0.5, 0.5, 0.5, 0.5),
    ];
    let vertical = dividers(&zones).into_iter().find(|d| d.axis == Axis::Vertical).unwrap();
    let merged = merge_at(&zones, vertical).unwrap();
    assert_eq!(merged.len(), 2, "both rows should merge: {merged:?}");
    assert!(tiles_completely(&merged));
}

/// Zones that do not line up across the boundary cannot merge into a rectangle, so
/// they are left alone rather than overlapped.
#[test]
fn merging_ragged_zones_is_refused() {
    let zones = vec![rect(0.0, 0.0, 0.5, 1.0), rect(0.5, 0.0, 0.5, 0.5), rect(0.5, 0.5, 0.5, 0.5)];
    // The left zone spans full height; neither right zone matches it.
    let divider = Divider { axis: Axis::Vertical, position: f(0.5) };
    assert!(merge_at(&zones, divider).is_none());
}

#[test]
fn horizontal_dividers_are_found_in_stacked_layouts() {
    let zones = vec![rect(0.0, 0.0, 1.0, 0.4), rect(0.0, 0.4, 1.0, 0.6)];
    let found = dividers(&zones);
    assert_eq!(found.len(), 1);
    assert_eq!(found[0].axis, Axis::Horizontal);

    let moved = move_divider(&zones, found[0], f(0.25)).unwrap();
    assert!((v(moved[0].h) - 0.25).abs() < 1e-9);
    assert!((v(moved[1].y) - 0.25).abs() < 1e-9);
    assert!((v(moved[1].h) - 0.75).abs() < 1e-9);
}

/// A grid shares one divider across several rows; dragging it must move every zone
/// on that boundary, not just the first.
#[test]
fn a_shared_divider_moves_every_adjacent_zone() {
    let zones = vec![
        rect(0.0, 0.0, 0.5, 0.5),
        rect(0.5, 0.0, 0.5, 0.5),
        rect(0.0, 0.5, 0.5, 0.5),
        rect(0.5, 0.5, 0.5, 0.5),
    ];
    let vertical = dividers(&zones).into_iter().find(|d| d.axis == Axis::Vertical).unwrap();
    let moved = move_divider(&zones, vertical, f(0.3)).unwrap();
    assert!((v(moved[0].w) - 0.3).abs() < 1e-9);
    assert!((v(moved[2].w) - 0.3).abs() < 1e-9, "second row did not move");
    assert!((v(moved[1].x) - 0.3).abs() < 1e-9);
    assert!((v(moved[3].x) - 0.3).abs() < 1e-9, "second row did not move");
}

#[test]
fn a_grid_has_one_divider_on_each_axis() {
    let zones = vec![
        rect(0.0, 0.0, 0.5, 0.5),
        rect(0.5, 0.0, 0.5, 0.5),
        rect(0.0, 0.5, 0.5, 0.5),
        rect(0.5, 0.5, 0.5, 0.5),
    ];
    let found = dividers(&zones);
    assert_eq!(found.len(), 2);
    assert_eq!(found[0].axis, Axis::Vertical);
    assert_eq!(found[1].axis, Axis::Horizontal);
    assert_eq!(v(found[1].position), 0.5);
}

#[test]
fn a_merged_zone_stands_in_the_place_of_the_first() {
    let zones = columns(3);
    let found = dividers(&zones);
    let merged = merge_at(&zones, found[1]).unwrap();
    assert_eq!(merged.len(), 2);
    assert_eq!(merged[0], zones[0]);
    assert_eq!(v(merged[1].x), v(zones[1].x));
}
