use cosmic_fancy_pants::binary64::Binary64;
use cosmic_fancy_pants::config::{OutputMatch, ZonesConfig};
use cosmic_fancy_pants::dividers::{dividers, merge_at, move_divider, split_zone, Axis, Divider};
use cosmic_fancy_pants::editor::{Editor, EditorTask, Launch, Message, OutputEvent, OutputInfoLite};
use cosmic_fancy_pants::layout::ZoneLayout;
use cosmic_fancy_pants::pixel::{zone_relative_geometry, PixelPoint, PixelRect, PixelSize, TiledCorners};
use cosmic_fancy_pants::rect::ZoneRect;
use cosmic_fancy_pants::snapping::SnappingZone;
use cosmic_fancy_pants::spans::{cycle_index, resize_span};
use cosmic_fancy_pants::templates::{columns, default_layouts, grid, rows};
use cosmic_fancy_pants::zones::ZoneContext;

fn f(v: f64) -> Binary64 {
    Binary64::from_bits(v.to_bits())
}

fn v(b: Binary64) -> f64 {
    f64::from_bits(b.to_bits())
}

fn rect(x: f64, y: f64, w: f64, h: f64) -> ZoneRect {
    ZoneRect::new(f(x), f(y), f(w), f(h))
}

fn area(x: i32, y: i32, w: i32, h: i32) -> PixelRect {
    PixelRect { loc: PixelPoint { x, y }, size: PixelSize { w, h } }
}

#[test]
fn cycling_back_leads_back() {
    for len in 1..6usize {
        for start in 0..len {
            for delta in -7..8 {
                let there = cycle_index(Some(start), len, delta).unwrap();
                assert!(there < len);
                assert_eq!(cycle_index(Some(there), len, -delta), Some(start));
            }
        }
    }
}

#[test]
fn equal_parts_meet_and_end_with_the_output() {
    for n in [1usize, 2, 3, 7, 10, 49, 1000] {
        let l = columns(n, "c");
        assert!(l.zones.iter().all(|z| z.is_valid()));
        assert_eq!(v(l.zones[0].x), 0.0);
        for pair in l.zones.windows(2) {
            assert!((v(pair[0].right()) - v(pair[1].x)).abs() <= 3.0 * f64::EPSILON);
        }
        assert!((v(l.zones[n - 1].right()) - 1.0).abs() <= 3.0 * f64::EPSILON);
        assert!((v(rows(n, "r").zones[n - 1].bottom()) - 1.0).abs() <= 3.0 * f64::EPSILON);
    }
    assert!(grid(7, 3, "g").zones.iter().all(|z| z.is_valid()));
}

#[test]
fn a_split_is_undone_by_a_merge() {
    let zones = vec![rect(0.0, 0.0, 1.0 / 3.0, 1.0), rect(1.0 / 3.0, 0.0, 2.0 / 3.0, 1.0)];
    let at = f(0.61);
    let split = split_zone(&zones, 1, at, Axis::Vertical).unwrap();
    assert_eq!(split.len(), 3);
    assert!((v(split[1].right()) - 0.61).abs() <= 2.0 * f64::EPSILON);
    let whole = v(zones[1].area());
    assert!((v(split[1].area()) + v(split[2].area()) - whole).abs() <= 18.0 * f64::EPSILON);
    let merged = merge_at(&split, Divider { axis: Axis::Vertical, position: at }).unwrap();
    assert_eq!(merged.len(), 2);
    assert_eq!(v(merged[1].x), v(zones[1].x));
    assert!((v(merged[1].right()) - v(zones[1].right())).abs() <= 4.0 * f64::EPSILON);
}

#[test]
fn a_moved_boundary_is_found_where_it_was_put() {
    let zones: Vec<ZoneRect> = columns(3, "c").zones;
    let moved = move_divider(&zones, dividers(&zones)[0], f(0.123456789)).unwrap();
    assert!((v(moved[0].right()) - v(moved[1].x)).abs() <= 2.0 * f64::EPSILON);
    let again = dividers(&moved);
    assert_eq!(again.len(), 2);
    assert!((v(again[0].position) - 0.123456789).abs() < 1e-9);
    let back = move_divider(&moved, again[0], f(1.0 / 3.0)).unwrap();
    assert!((v(back[0].w) - 1.0 / 3.0).abs() < 1e-9);
    assert!((v(back[1].right()) - 2.0 / 3.0).abs() < 1e-9);
}

#[test]
fn zones_reach_the_far_edge_of_odd_outputs() {
    let screen = area(0, 0, 1367, 769);
    let right = zone_relative_geometry(rect(0.5, 0.0, 0.5, 1.0), screen, (0, 8));
    assert_eq!(right.loc.x + right.size.w, 1367 - 8);
    assert_eq!(right.loc.y + right.size.h, 769 - 8);
    // Halves made by truncation leave a pixel unused there.
    let corner = TiledCorners::Right.relative_geometry(screen, (0, 8));
    assert_eq!(corner.loc.x + corner.size.w, 1366 - 8);
}

#[test]
fn neighbours_are_one_gutter_apart() {
    for gap in [0, 1, 2, 7, 8] {
        for size in [1000, 1001, 1366] {
            let screen = area(3, 5, size, 700);
            let l = columns(2, "c");
            let a = zone_relative_geometry(l.zones[0], screen, (0, gap));
            let b = zone_relative_geometry(l.zones[1], screen, (0, gap));
            assert_eq!(b.loc.x - (a.loc.x + a.size.w), 2 * (gap / 2));
        }
    }
}

#[test]
fn grown_zones_contain_what_is_near() {
    let z = rect(0.3, 0.0, 0.3, 1.0);
    let grown = z.inflated(f(0.02));
    assert!(grown.contains(f(0.2801), f(0.5)));
    assert!(!grown.contains(f(0.2799), f(0.5)));
    assert!(grown.contains(f(0.6199), f(0.5)));
    assert!(!grown.contains(f(0.6201), f(0.5)));
}

#[test]
fn clamping_never_leaves_the_unit_square() {
    for x in [-3.0, -0.25, 0.0, 0.1, 1.0 / 3.0, 0.7, 0.9999999999999999, 1.0, 5.0, f64::INFINITY] {
        for w in [-1.0, 0.0, 0.1, 2.0 / 3.0, 0.30000000000000004, 1.0, 1e300] {
            let c = rect(x, 0.2, w, 0.9).clamped();
            assert!(v(c.x) >= 0.0 && v(c.w) >= 0.0 && v(c.right()) <= 1.0, "{x} {w}: {c:?}");
            assert!(v(c.bottom()) <= 1.0);
        }
    }
}

#[test]
fn every_point_of_the_area_is_a_fraction_of_it() {
    let ctx = ZoneContext::with_layout("t", columns(3, "c3"), area(-7, 11, 1367, 769), (0, 0), f(0.0));
    for x in [-7, -6, 600, 1358, 1359] {
        let (fx, _) = ctx.to_fraction(PixelPoint { x, y: 11 }).unwrap();
        assert!((0.0..1.0).contains(&v(fx)));
        assert_eq!(v(fx), (x + 7) as f64 / 1367.0);
    }
    assert!(ctx.to_fraction(PixelPoint { x: 1360, y: 11 }).is_none());
}

#[test]
fn growing_keeps_every_zone_of_the_span() {
    let layout = grid(4, 3, "g");
    let mut span = vec![5usize];
    while let Some(next) = resize_span(&layout, &span, true) {
        assert!(span.iter().all(|i| next.contains(i)), "{span:?} grew to {next:?}");
        assert!(next.windows(2).all(|p| p[0] < p[1]));
        span = next;
    }
    assert_eq!(span.len(), 12);
}

#[test]
fn targets_are_ascending_and_add_up() {
    let layout = grid(3, 3, "g");
    let t = layout.target_at(f(1.0 / 3.0), f(2.0 / 3.0), f(0.01)).unwrap();
    assert_eq!(t.zones, vec![3, 4, 6, 7]);
    assert_eq!(layout.span(&t.zones), Some(t.rect));
}

#[test]
fn zones_above_each_other_share_their_edge_once() {
    let l = rows(2, "r2");
    assert_eq!(l.hit_test(f(0.5), f(0.5)), Some(1));
    assert!(!l.zones[0].contains(f(0.5), f(0.5)));
}

#[test]
fn snapping_zones_do_not_overlap() {
    let all = [
        SnappingZone::Maximize,
        SnappingZone::Top,
        SnappingZone::TopLeft,
        SnappingZone::Left,
        SnappingZone::BottomLeft,
        SnappingZone::Bottom,
        SnappingZone::BottomRight,
        SnappingZone::Right,
        SnappingZone::TopRight,
    ];
    let screen = area(-3, 9, 192, 152);
    for x in -4..200 {
        for y in 8..170 {
            let hits = all.iter().filter(|z| z.contains(PixelPoint { x, y }, screen)).count();
            assert!(hits <= 1, "{hits} at {x}, {y}");
        }
    }
}

#[test]
fn a_save_reaches_the_monitor_whatever_it_reports() {
    let mut editor = Editor::new(Launch { workspace: None, output: None }, ZonesConfig::default(), true);
    let info = OutputInfoLite { name: "DP-1".into(), logical_size: (1920, 1080) };
    editor.update(Message::Output(OutputEvent::Created, 5, info), 1);
    editor.update(Message::ZonesEdited(1, vec![rect(0.0, 0.0, 0.25, 1.0), rect(0.25, 0.0, 0.75, 1.0)]), 2);
    assert!(matches!(editor.update(Message::Save, 3), EditorTask::SaveAndExit(_)));
    let edid = cosmic_fancy_pants::config::EdidProduct { manufacturer: 1, product: 2, serial: 3 };
    let monitor = OutputMatch { name: "DP-1".into(), edid: Some(edid) };
    let ctx = ZoneContext::resolve(&editor.config, &monitor, area(0, 0, 1000, 800), None, (0, 0)).unwrap();
    assert_eq!(ctx.layout_id, "custom-1");
    assert_eq!(ctx.hit(PixelPoint { x: 260, y: 10 }).unwrap().zones, vec![0, 1]);
    assert_eq!(ctx.hit(PixelPoint { x: 600, y: 10 }).unwrap().zones, vec![1]);
}

#[test]
fn stale_layouts_are_sanitized_before_use() {
    let output = OutputMatch { name: "DP-1".into(), edid: None };
    let mut config = ZonesConfig::default();
    config.layouts.insert(
        "mixed".into(),
        ZoneLayout::new("mixed", vec![rect(0.0, 0.0, 2.0, 1.0), rect(0.0, 0.0, 1.0, 1.0)]),
    );
    config.per_output.insert(output.clone(), "mixed".into());
    let ctx = ZoneContext::resolve(&config, &output, area(0, 0, 1000, 800), None, (0, 0)).unwrap();
    assert_eq!(ctx.len(), 1);
    assert_eq!(ctx.layout().zones[0], rect(0.0, 0.0, 1.0, 1.0));
}

#[test]
fn merging_covers_what_the_zones_covered() {
    let sides = [
        (rect(0.1, 0.2, 0.3, 0.7), rect(0.4, 0.2, 0.2, 0.7)),
        (rect(0.0, 0.0, 0.6, 0.3), rect(0.0, 0.3, 0.6, 0.7)),
    ];
    for (a, b) in sides {
        let both = v(a.area()) + v(b.area());
        assert!((v(a.union(&b).area()) - both).abs() < 1e-14);
    }
}

#[test]
fn neighbours_away_from_a_moved_boundary_stay_together() {
    let zones: Vec<ZoneRect> = columns(3, "c").zones;
    let moved = move_divider(&zones, dividers(&zones)[0], f(0.5)).unwrap();
    assert!((v(moved[0].right()) - 0.5).abs() <= 2.0 * f64::EPSILON);
    assert!((v(moved[0].right()) - v(moved[1].x)).abs() <= 2.0 * f64::EPSILON);
    assert!((v(moved[1].right()) - v(moved[2].x)).abs() <= 3.0 * f64::EPSILON);
    assert_eq!(v(moved[2].x), v(zones[2].x));
}

fn nearly(a: &ZoneRect, b: &ZoneRect, off: f64) -> bool {
    (v(a.x) - v(b.x)).abs() <= off
        && (v(a.y) - v(b.y)).abs() <= off
        && (v(a.w) - v(b.w)).abs() <= off
        && (v(a.h) - v(b.h)).abs() <= off
}

fn total(zones: &[ZoneRect]) -> f64 {
    zones.iter().map(|zone| v(zone.area())).sum()
}

fn overlap(a: &ZoneRect, b: &ZoneRect, off: f64) -> bool {
    v(a.x) + off < v(b.right())
        && v(b.x) + off < v(a.right())
        && v(a.y) + off < v(b.bottom())
        && v(b.y) + off < v(a.bottom())
}

fn assert_tiled(zones: &[ZoneRect]) {
    assert!((total(zones) - 1.0).abs() < 1e-12, "{zones:?}");
    for (i, a) in zones.iter().enumerate() {
        for b in &zones[i + 1..] {
            assert!(!overlap(a, b, 1e-12), "{a:?} {b:?}");
        }
    }
}

#[test]
fn spans_are_told_by_the_zones_they_name() {
    let layout = grid(3, 2, "g");
    let span = layout.span(&[1, 5]).unwrap();
    assert_eq!(v(span.x), v(layout.zones[1].x));
    assert_eq!(v(span.y), 0.0);
    assert!((v(span.right()) - v(layout.zones[5].right())).abs() <= 4.0 * f64::EPSILON);
    assert!((v(span.bottom()) - v(layout.zones[5].bottom())).abs() <= 4.0 * f64::EPSILON);
    for same in [vec![5, 1], vec![1, 1, 5, 9], vec![77, 5, 1, 5]] {
        assert!(nearly(&layout.span(&same).unwrap(), &span, 1e-14), "{same:?}");
    }
    assert!(layout.span(&[6, 7]).is_none());
}

#[test]
fn moving_a_boundary_back_restores_every_zone() {
    let zones: Vec<ZoneRect> = grid(3, 2, "g").zones;
    for divider in dividers(&zones) {
        let to = f(v(divider.position) + 0.11);
        let moved = move_divider(&zones, divider, to).unwrap();
        let back = move_divider(&moved, Divider { axis: divider.axis, position: to }, divider.position).unwrap();
        assert_eq!(back.len(), zones.len());
        assert!(back.iter().zip(&zones).all(|(a, b)| nearly(a, b, 2e-6)));
    }
}

#[test]
fn merging_gives_the_whole_layout_back() {
    let zones: Vec<ZoneRect> = grid(3, 2, "g").zones;
    for (index, axis, at) in [(1, Axis::Vertical, 0.51), (4, Axis::Horizontal, 0.8)] {
        let split = split_zone(&zones, index, f(at), axis).unwrap();
        let merged = merge_at(&split, Divider { axis, position: f(at) }).unwrap();
        assert_eq!(merged.len(), zones.len());
        for (i, (a, b)) in merged.iter().zip(&zones).enumerate() {
            assert!(if i == index { nearly(a, b, 1e-9) } else { a == b });
        }
    }
}

#[test]
fn edits_keep_a_layout_tiled() {
    for layout in [columns(3, "c"), rows(4, "r"), grid(3, 2, "g")] {
        assert_tiled(&layout.zones);
        let split = split_zone(&layout.zones, 1, f(0.4), Axis::Vertical).unwrap();
        assert_tiled(&split);
        for divider in dividers(&split) {
            if let Some(moved) = move_divider(&split, divider, f(v(divider.position) - 0.03)) {
                assert_tiled(&moved);
            }
            if let Some(merged) = merge_at(&split, divider) {
                assert_tiled(&merged);
            }
        }
    }
}

#[test]
fn spans_do_not_drift_however_long_the_list_is() {
    let zones: Vec<ZoneRect> = (0..7).map(|i| rect(i as f64 / 7.0, 0.1, 1.0 / 7.0, 0.7 / 3.0)).collect();
    let layout = ZoneLayout::new("sevenths", zones);
    let short = layout.span(&[1, 5]).unwrap();
    let long: Vec<usize> = (0..20_000).map(|i| [5, 1, 3, 900, 2][i % 5]).collect();
    let span = layout.span(&long).unwrap();
    assert!(nearly(&span, &short, 14.0 * f64::EPSILON), "{span:?} {short:?}");
}

#[test]
fn built_in_layouts_are_usable_and_tiled() {
    let layouts = default_layouts();
    assert_eq!(layouts.len(), 6);
    for i in 0..layouts.len() {
        let zones = &layouts.entry(i).1.zones;
        assert!(zones.iter().all(|zone| zone.is_valid()));
        assert_tiled(zones);
    }
}

#[test]
fn unsnapped_windows_enter_layouts_of_any_length() {
    assert_eq!(cycle_index(None, usize::MAX, 1), Some(0));
    assert_eq!(cycle_index(None, usize::MAX, -1), Some(usize::MAX - 1));
    assert_eq!(cycle_index(Some(usize::MAX), 0, i32::MAX), None);
}
