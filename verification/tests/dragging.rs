use cosmic_fancy_pants::binary64::Binary64;
use cosmic_fancy_pants::config::{OutputMatch, ZonesConfig};
use cosmic_fancy_pants::drag::{
    output_changes, output_under, rendered_size, releases, snap_to_edge, to_local, window_alpha, window_geometry,
    window_scale, DropAction, Location, ManagedLayer, MoveGrabState, OutputChange, OutputPlace, OverlayElement,
    ReleaseMode,
};
use cosmic_fancy_pants::pixel::{PixelPoint, PixelRect, PixelSize, TiledCorners};
use cosmic_fancy_pants::shortcuts::ModifiersState;
use cosmic_fancy_pants::snapping::{Direction, SnappingZone};
use cosmic_fancy_pants::zone_number::{badge_location, ZoneNumber, ZoneNumberInternal};
use cosmic_fancy_pants::zones::FloatingTiled;

fn f(v: f64) -> Binary64 {
    Binary64::from_bits(v.to_bits())
}

fn v(b: Binary64) -> f64 {
    f64::from_bits(b.to_bits())
}

fn area(x: i32, y: i32, w: i32, h: i32) -> PixelRect {
    PixelRect { loc: PixelPoint { x, y }, size: PixelSize { w, h } }
}

fn point(x: i32, y: i32) -> PixelPoint {
    PixelPoint { x, y }
}

fn at(x: f64, y: f64) -> Location {
    Location { x: f(x), y: f(y) }
}

fn output(id: u64, name: &str, geometry: PixelRect) -> OutputPlace {
    let area = PixelRect { loc: point(0, 40), size: PixelSize { w: geometry.size.w, h: geometry.size.h - 40 } };
    OutputPlace { id, geometry, area, identity: OutputMatch { name: name.into(), edid: None } }
}

fn shift() -> Option<ModifiersState> {
    Some(ModifiersState { shift: true, ..Default::default() })
}

fn state(previous: ManagedLayer) -> MoveGrabState {
    MoveGrabState::new(point(100, 80), at(150.4, 99.6), 1, 3, previous)
}

fn config(layout: &str) -> ZonesConfig {
    let mut config = ZonesConfig::default();
    config.per_output.insert(OutputMatch { name: "DP-1".into(), edid: None }, layout.into());
    config
}

#[test]
fn edges_of_the_output_are_snapping_zones() {
    let screen = area(0, 0, 1920, 1080);
    let zone = |x: i32, y: i32| SnappingZone::at(point(x, y), screen);
    assert_eq!(zone(960, 0), Some(SnappingZone::Maximize));
    assert_eq!(zone(960, 21), Some(SnappingZone::Maximize));
    assert_eq!(zone(960, 22), Some(SnappingZone::Top));
    assert_eq!(zone(960, 37), Some(SnappingZone::Top));
    assert_eq!(zone(960, 38), None);
    assert_eq!(zone(0, 0), Some(SnappingZone::TopLeft));
    assert_eq!(zone(319, 30), Some(SnappingZone::TopLeft));
    assert_eq!(zone(320, 30), Some(SnappingZone::Top));
    assert_eq!(zone(31, 269), Some(SnappingZone::TopLeft));
    assert_eq!(zone(31, 270), Some(SnappingZone::Left));
    assert_eq!(zone(32, 540), None);
    assert_eq!(zone(10, 811), Some(SnappingZone::BottomLeft));
    assert_eq!(zone(960, 1079), Some(SnappingZone::Bottom));
    assert_eq!(zone(960, 1048), None);
    assert_eq!(zone(1900, 1079), Some(SnappingZone::BottomRight));
    assert_eq!(zone(1889, 540), Some(SnappingZone::Right));
    assert_eq!(zone(1919, 5), Some(SnappingZone::TopRight));
    assert_eq!(zone(1920, 540), None);
    assert_eq!(zone(-1, 540), None);
    assert!(SnappingZone::Left.contains(point(0, 540), screen));
    assert!(!SnappingZone::Right.contains(point(0, 540), screen));
}

#[test]
fn edge_overlays_are_halves_and_quarters() {
    let screen = area(0, 40, 1000, 800);
    assert_eq!(SnappingZone::Maximize.overlay_geometry(screen, (0, 8)), screen);
    assert_eq!(
        SnappingZone::TopRight.overlay_geometry(screen, (0, 8)),
        TiledCorners::TopRight.relative_geometry(screen, (0, 8))
    );
    assert_eq!(SnappingZone::Bottom.overlay_geometry(screen, (0, 8)), area(8, 444, 984, 388));
    assert_eq!(SnappingZone::BottomLeft.directions(), vec![Direction::Down, Direction::Left]);
    assert_eq!(SnappingZone::Top.directions(), vec![Direction::Up]);
    assert_eq!(SnappingZone::Maximize.directions(), vec![]);
}

#[test]
fn the_window_keeps_its_place_under_the_cursor() {
    let grab = state(ManagedLayer::Floating);
    assert_eq!(grab.window_offset, point(-50, -20));
    assert_eq!(grab.drop_location(), point(100, 80));
    assert!(grab.zones.is_none() && grab.snapping_zone.is_none());
    let geometry = window_geometry(area(2, 3, 400, 300), at(500.5, 200.4), grab.window_offset);
    assert_eq!(geometry, area(453, 183, 400, 300));
}

#[test]
fn the_cursor_is_on_the_first_output_that_it_touches() {
    let outputs = [
        output(1, "DP-1", area(0, 0, 1920, 1080)),
        output(2, "DP-2", area(1920, 0, 1280, 1024)),
    ];
    assert_eq!(output_under(&outputs, at(100.0, 100.0)), Some(0));
    assert_eq!(output_under(&outputs, at(1920.9, 100.0)), Some(0));
    assert_eq!(output_under(&outputs, at(1921.0, 100.0)), Some(1));
    assert_eq!(output_under(&outputs, at(5000.0, 100.0)), None);
    assert_eq!(output_under(&outputs, at(-0.5, 100.0)), None);
}

#[test]
fn windows_are_pulled_onto_the_edges_of_an_output() {
    // The window's left edge is at 1925, five pixels from the output's.
    assert_eq!(v(snap_to_edge(f(1975.0), -50, 400, 1920, 1280, f(10.0))), 1970.0);
    // Its right edge is three pixels short of the output's.
    assert_eq!(v(snap_to_edge(f(2847.0), -50, 400, 1920, 1280, f(10.0))), 2850.0);
    assert_eq!(v(snap_to_edge(f(2500.25), -50, 400, 1920, 1280, f(10.0))), 2500.25);
    assert_eq!(v(snap_to_edge(f(1980.0), -50, 400, 1920, 1280, f(10.0))), 1980.0);
}

#[test]
fn only_floating_windows_are_pulled() {
    let screen = output(7, "DP-1", area(0, 0, 1920, 1080));
    let size = PixelSize { w: 400, h: 300 };
    let mut grab = state(ManagedLayer::Tiling);
    grab.move_to(at(53.0, 18.0), &screen, size, f(10.0));
    assert_eq!((v(grab.location.x), v(grab.location.y)), (53.0, 18.0));
    assert_eq!(grab.cursor_output, 7);
    let mut grab = state(ManagedLayer::Sticky);
    grab.move_to(at(53.0, 18.0), &screen, size, f(10.0));
    assert_eq!((v(grab.location.x), v(grab.location.y)), (50.0, 20.0));
    let mut grab = state(ManagedLayer::Floating);
    grab.move_to(at(300.0, 798.5), &screen, size, f(10.0));
    assert_eq!((v(grab.location.x), v(grab.location.y)), (300.0, 800.0));
}

#[test]
fn outputs_are_entered_and_left() {
    let outputs = [
        output(1, "DP-1", area(0, 0, 1920, 1080)),
        output(2, "DP-2", area(1920, 0, 1280, 1024)),
        output(3, "DP-3", area(3200, 0, 100, 100)),
    ];
    let changes = output_changes(&outputs, area(1800, 900, 400, 300), &[true, false, true]);
    assert_eq!(
        changes,
        vec![OutputChange::Unchanged, OutputChange::Enter(area(1920, 900, 280, 124)), OutputChange::Leave]
    );
    let changes = output_changes(&outputs, area(-500, 0, 400, 300), &[false, false, false]);
    assert_eq!(changes, vec![OutputChange::Unchanged, OutputChange::Unchanged, OutputChange::Unchanged]);
}

#[test]
fn zones_replace_edge_snapping_while_armed() {
    let config = config("columns-3");
    let screen = output(1, "DP-1", area(1920, 0, 1200, 940));
    let mut grab = state(ManagedLayer::Floating);
    // Without the modifier: the left edge.
    assert!(!grab.update_snapping(&config, None, &screen, None, (0, 8), at(1925.5, 500.0)));
    assert_eq!(grab.snapping_zone, Some(SnappingZone::Left));
    // With it: the first column.
    assert!(grab.update_snapping(&config, shift(), &screen, None, (0, 8), at(1925.5, 500.0)));
    assert_eq!(grab.snapping_zone, None);
    let zones = grab.zones.as_ref().unwrap();
    assert!(zones.armed);
    assert_eq!(zones.output, 1);
    assert_eq!(zones.target.as_ref().unwrap().zones, vec![0]);
    assert_eq!(zones.numbers.len(), 3);
    assert_eq!(zones.numbers[2].elem.number, 3);
    assert_eq!(v(zones.inactive_alpha) as f32, (50f32 / 100.0) * 0.4);
    // Still held: nothing is resolved again, the target follows the cursor.
    assert!(!grab.update_snapping(&config, shift(), &screen, None, (0, 8), at(2520.0, 500.0)));
    assert_eq!(grab.zones.as_ref().unwrap().target.as_ref().unwrap().zones, vec![1]);
    // Over the panel: no target.
    assert!(!grab.update_snapping(&config, shift(), &screen, None, (0, 8), at(2520.0, 10.0)));
    assert!(grab.zones.as_ref().unwrap().target.is_none());
    // Tapped off: disarmed, edge snapping again.
    assert!(!grab.update_snapping(&config, None, &screen, None, (0, 8), at(2520.0, 10.0)));
    assert!(!grab.zones.as_ref().unwrap().armed);
    assert_eq!(grab.snapping_zone, Some(SnappingZone::Maximize));
    assert_eq!(grab.zones_output, Some(1));
}

#[test]
fn a_miss_is_remembered_for_the_output() {
    let config = ZonesConfig::default();
    let screen = output(1, "DP-1", area(0, 0, 1200, 940));
    let mut grab = state(ManagedLayer::Floating);
    assert!(grab.update_snapping(&config, shift(), &screen, None, (0, 8), at(5.0, 500.0)));
    assert!(grab.zones.is_none());
    assert_eq!(grab.zones_output, Some(1));
    assert!(!grab.update_snapping(&config, shift(), &screen, None, (0, 8), at(5.0, 500.0)));
    assert_eq!(grab.snapping_zone, None);
    let other = output(2, "DP-2", area(1200, 0, 1200, 940));
    assert!(grab.update_snapping(&config, shift(), &other, None, (0, 8), at(1205.0, 500.0)));
    assert_eq!(grab.zones_output, Some(2));
}

#[test]
fn only_floating_windows_snap() {
    let config = config("columns-3");
    let screen = output(1, "DP-1", area(0, 0, 1200, 940));
    let mut grab = state(ManagedLayer::Tiling);
    assert!(!grab.update_snapping(&config, shift(), &screen, None, (0, 8), at(5.0, 500.0)));
    assert!(grab.zones.is_none() && grab.zones_output.is_none() && grab.snapping_zone.is_none());
}

#[test]
fn a_dropped_window_goes_where_the_overlay_showed() {
    let config = ZonesConfig { gap: Some(4), ..config("columns-3") };
    let screen = output(1, "DP-1", area(0, 0, 1200, 940));
    let mut grab = state(ManagedLayer::Floating);
    assert!(matches!(grab.drop_action(false), DropAction::Float));
    grab.update_snapping(&config, shift(), &screen, None, (0, 8), at(402.0, 500.0));
    match grab.drop_action(true) {
        DropAction::SnapToZone(FloatingTiled::Zone { layout, zones, gap, .. }) => {
            assert_eq!(layout, "columns-3");
            assert_eq!(zones, vec![0, 1]);
            assert_eq!(gap, Some(4));
        }
        other => panic!("{other:?}"),
    }
    grab.update_snapping(&config, None, &screen, None, (0, 8), at(2.0, 2.0));
    match grab.drop_action(true) {
        DropAction::SnapToEdge(moves) => assert_eq!(moves, vec![Direction::Up, Direction::Left]),
        other => panic!("{other:?}"),
    }
    grab.update_snapping(&config, None, &screen, None, (0, 8), at(600.0, 2.0));
    assert!(matches!(grab.drop_action(true), DropAction::Maximize));
    assert!(matches!(state(ManagedLayer::Sticky).drop_action(true), DropAction::Sticky));
    assert!(matches!(state(ManagedLayer::Tiling).drop_action(true), DropAction::Tile));
    assert!(matches!(state(ManagedLayer::Tiling).drop_action(false), DropAction::Float));
}

#[test]
fn the_overlay_shows_the_target_above_the_rest() {
    let config = config("columns-3");
    let screen = output(1, "DP-1", area(0, 0, 1200, 940));
    let mut grab = state(ManagedLayer::Floating);
    grab.update_snapping(&config, shift(), &screen, None, (0, 8), at(600.0, 500.0));
    let zones = grab.zones.as_ref().unwrap();
    let overlay = zones.overlay();
    assert_eq!(overlay.len(), 3 + 2 + 2);
    match &overlay[0] {
        OverlayElement::Badge { number, location } => {
            assert_eq!(*number, 1);
            // The first column is 8..396 by 48..932.
            assert_eq!(*location, point(178, 466));
        }
        other => panic!("{other:?}"),
    }
    let target = zones.target.as_ref().unwrap().geometry;
    assert!(matches!(&overlay[3], OverlayElement::TargetBorder { key: 255, geometry } if *geometry == target));
    assert!(matches!(&overlay[4], OverlayElement::TargetFill { key: 255, geometry } if *geometry == target));
    assert!(matches!(&overlay[5], OverlayElement::Dimmed { key: 0, .. }));
    assert!(matches!(&overlay[6], OverlayElement::Dimmed { key: 2, .. }));
}

#[test]
fn the_zone_overlay_is_shown_where_the_cursor_is_while_armed() {
    let config = ZonesConfig { inactive_opacity: 50, ..config("columns-3") };
    let screen = output(1, "DP-1", area(0, 0, 1200, 940));
    let mut grab = state(ManagedLayer::Floating);
    assert!(grab.zone_overlay(1).is_empty());
    grab.update_snapping(&config, shift(), &screen, None, (0, 8), at(600.0, 500.0));
    let shown = grab.zone_overlay(1);
    assert_eq!(shown.len(), 3 + 2 + 2);
    assert!(grab.zone_overlay(2).is_empty());
    let zones = grab.zones.as_ref().unwrap();
    let alphas: Vec<f64> = shown.iter().map(|element| v(zones.fill_alpha(element))).collect();
    let dimmed = (0.5f32 * 0.4f32) as f64;
    assert_eq!(alphas, vec![1.0, 1.0, 1.0, 1.0, 0.4f32 as f64, dimmed, dimmed]);
    grab.update_snapping(&config, None, &screen, None, (0, 8), at(600.0, 500.0));
    assert!(grab.zone_overlay(1).is_empty());
    assert!(matches!(grab.drop_action(true), DropAction::Float));
}

#[test]
fn a_window_is_drawn_on_the_outputs_it_is_on() {
    let grab = state(ManagedLayer::Floating);
    let window = area(0, 0, 300, 200);
    assert!(grab.is_drawn_on(window, area(0, 0, 1200, 940)));
    assert!(!grab.is_drawn_on(window, area(1200, 0, 1200, 940)));
    let border = grab.focus_border(PixelSize { w: 300, h: 200 }, f(0.6), area(0, 0, 1200, 940)).unwrap();
    assert_eq!(border.size, PixelSize { w: 180, h: 120 });
    assert_eq!(border.loc, grab.render_location(f(0.6), area(0, 0, 1200, 940)));
    let plain = MoveGrabState::new(point(100, 80), at(150.4, 99.6), 1, 0, ManagedLayer::Floating);
    assert_eq!(plain.focus_border(PixelSize { w: 300, h: 200 }, f(1.0), area(0, 0, 1200, 940)), None);
}

#[test]
fn zone_numbers_can_be_hidden() {
    let config = ZonesConfig { show_zone_numbers: false, inactive_opacity: 200, ..config("columns-3") };
    let screen = output(1, "DP-1", area(0, 0, 1200, 940));
    let mut grab = state(ManagedLayer::Floating);
    grab.update_snapping(&config, shift(), &screen, None, (0, 8), at(600.0, 10.0));
    let zones = grab.zones.as_ref().unwrap();
    assert!(zones.numbers.is_empty());
    assert_eq!(v(zones.inactive_alpha), 0.4f32 as f64);
    assert_eq!(zones.overlay().len(), 3);
}

#[test]
fn the_edge_overlay_is_on_the_cursor_output_only() {
    let screen = output(1, "DP-1", area(0, 0, 1200, 940));
    let mut grab = state(ManagedLayer::Floating);
    grab.update_snapping(&ZonesConfig::default(), None, &screen, None, (0, 8), at(2.0, 500.0));
    assert_eq!(
        grab.edge_overlay(1, screen.area, (0, 8)),
        Some(TiledCorners::Left.relative_geometry(screen.area, (0, 8)))
    );
    assert_eq!(grab.edge_overlay(2, screen.area, (0, 8)), None);
}

#[test]
fn tiled_windows_shrink_while_they_are_dragged() {
    for millis in [0u64, 1, 37, 75, 149, 150, 151, 100000] {
        let expected = 0.6 + ((1.0 - (millis as f64 / 150.0).min(1.0)) * 0.4);
        assert_eq!(v(window_scale(ManagedLayer::Tiling, millis)), expected);
        assert!((0.6..=1.0).contains(&v(window_scale(ManagedLayer::Tiling, millis))));
        assert_eq!(v(window_scale(ManagedLayer::Floating, millis)), 1.0);
    }
    assert_eq!(v(window_alpha(1, 1)), 1.0);
    assert_eq!(v(window_alpha(1, 2)) as f32, 0.4f32);
}

#[test]
fn a_shrunken_window_is_drawn_around_the_cursor() {
    let grab = state(ManagedLayer::Tiling);
    let full = grab.render_location(f(1.0), area(20, 10, 1000, 1000));
    assert_eq!(full, point(80, 70));
    let small = grab.render_location(f(0.6), area(20, 10, 1000, 1000));
    assert_eq!(small, point(150 - 20 - 30, 100 - 10 - 12));
    assert_eq!(rendered_size(PixelSize { w: 401, h: 300 }, f(0.6)), PixelSize { w: 241, h: 180 });
    assert_eq!(grab.target_thickness(), 3);
}

#[test]
fn a_border_is_at_least_one_pixel_thick() {
    let grab = MoveGrabState::new(point(0, 0), at(0.0, 0.0), 1, 0, ManagedLayer::Floating);
    assert_eq!(grab.target_thickness(), 1);
}

#[test]
fn buttons_end_the_grab() {
    assert!(releases(ReleaseMode::NoMouseButtons, false, false));
    assert!(!releases(ReleaseMode::NoMouseButtons, true, true));
    assert!(releases(ReleaseMode::Click, true, true));
    assert!(!releases(ReleaseMode::Click, false, false));
}

#[test]
fn places_are_relative_to_the_output() {
    assert_eq!(to_local(at(1920.75, -0.25), area(1920, 0, 100, 100)), point(0, -1));
}

#[test]
fn badges_stand_in_the_middle_of_a_zone() {
    let badge = ZoneNumber::new(12);
    assert_eq!(badge.size(), PixelSize { w: 48, h: 48 });
    assert_eq!(badge_location(&badge, area(10, 20, 149, 100)), point(60, 46));
    assert_eq!(badge_location(&badge, area(10, 20, 47, 21)), point(10, 7));
    assert_eq!(ZoneNumberInternal { number: 12 }.label(), "12");
    assert_eq!(ZoneNumberInternal { number: 0 }.label(), "0");
    assert_eq!(ZoneNumberInternal { number: 1234567890 }.label(), "1234567890");
}
