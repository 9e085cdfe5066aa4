use cosmic_fancy_pants::binary64::Binary64;
use cosmic_fancy_pants::config::{EdidProduct, OutputMatch, ZonesConfig};
use cosmic_fancy_pants::layout::ZoneLayout;
use cosmic_fancy_pants::rect::ZoneRect;
use cosmic_fancy_pants::templates::{
    columns, default_layouts, grid, is_builtin, main_stack, priority_grid, rows, DEFAULT_LAYOUT_ID,
};

fn f(v: f64) -> Binary64 {
    Binary64::from_bits(v.to_bits())
}

fn v(b: Binary64) -> f64 {
    f64::from_bits(b.to_bits())
}

fn rect(x: f64, y: f64, w: f64, h: f64) -> ZoneRect {
    ZoneRect::new(f(x), f(y), f(w), f(h))
}

fn approx(a: f64, b: f64) {
    assert!((a - b).abs() < 1e-9, "{a} != {b}");
}

fn assert_rect(r: ZoneRect, x: f64, y: f64, w: f64, h: f64) {
    approx(v(r.x), x);
    approx(v(r.y), y);
    approx(v(r.w), w);
    approx(v(r.h), h);
}

#[test]
fn templates_tile_the_unit_square() {
    let layouts = default_layouts();
    assert_eq!(layouts.len(), 6);
    for i in 0..layouts.len() {
        let (id, layout) = layouts.entry(i);
        assert!(!layout.zones.is_empty(), "{id} has no zones");
        for z in &layout.zones {
            assert!(z.is_valid(), "{id} has an invalid zone: {z:?}");
        }
        let total: f64 = layout.zones.iter().map(|z| v(z.area())).sum();
        approx(total, 1.0);
    }
}

#[test]
fn templates_do_not_overlap() {
    let layouts = default_layouts();
    for k in 0..layouts.len() {
        let (id, layout) = layouts.entry(k);
        for (i, a) in layout.zones.iter().enumerate() {
            for b in layout.zones.iter().skip(i + 1) {
                assert!(!a.overlaps(b), "{id}: {a:?} overlaps {b:?}");
            }
        }
    }
}

#[test]
fn hit_test_finds_the_right_column() {
    let l = columns(3, "c3");
    assert_eq!(l.hit_test(f(0.10), f(0.5)), Some(0));
    assert_eq!(l.hit_test(f(0.50), f(0.5)), Some(1));
    assert_eq!(l.hit_test(f(0.90), f(0.5)), Some(2));
}

#[test]
fn hit_test_boundary_belongs_to_the_zone_on_the_right() {
    // Half-open intervals: a point exactly on a shared edge must land in exactly
    // one zone, never both and never neither.
    let l = columns(2, "c2");
    assert_eq!(l.hit_test(f(0.5), f(0.5)), Some(1));
    assert_eq!(l.hit_test(f(0.5 - 1e-12), f(0.5)), Some(0));
}

#[test]
fn hit_test_outside_is_none() {
    let l = columns(2, "c2");
    assert_eq!(l.hit_test(f(-0.1), f(0.5)), None);
    assert_eq!(l.hit_test(f(1.5), f(0.5)), None);
    assert_eq!(l.hit_test(f(0.5), f(1.0)), None);
}

#[test]
fn overlapping_zones_resolve_to_the_smallest() {
    let l = ZoneLayout::new("stack", vec![rect(0.0, 0.0, 1.0, 1.0), rect(0.25, 0.25, 0.5, 0.5)]);
    assert_eq!(l.hit_test(f(0.5), f(0.5)), Some(1));
    assert_eq!(l.hit_test(f(0.05), f(0.05)), Some(0));
}

#[test]
fn equally_small_zones_resolve_to_the_first() {
    let l = ZoneLayout::new("twins", vec![rect(0.0, 0.0, 1.0, 1.0), rect(0.0, 0.0, 0.5, 0.5), rect(0.0, 0.0, 0.5, 0.5)]);
    assert_eq!(l.hit_test(f(0.1), f(0.1)), Some(1));
}

#[test]
fn span_is_the_bounding_box() {
    let l = grid(2, 2, "g");
    let r = l.span(&[0, 3]).unwrap();
    assert_rect(r, 0.0, 0.0, 1.0, 1.0);

    let r = l.span(&[0, 1]).unwrap();
    assert_rect(r, 0.0, 0.0, 1.0, 0.5);
}

#[test]
fn span_of_unknown_index_is_ignored() {
    let l = columns(2, "c2");
    assert!(l.span(&[99]).is_none());
    assert_rect(l.span(&[0, 99]).unwrap(), 0.0, 0.0, 0.5, 1.0);
}

#[test]
fn target_without_threshold_never_spans() {
    let l = columns(3, "c3");
    let t = l.target_at(f(1.0 / 3.0), f(0.5), f(0.0)).unwrap();
    assert_eq!(t.zones, vec![1]);
    assert!(!t.is_span());
}

#[test]
fn target_near_shared_edge_spans_both_neighbours() {
    let l = columns(3, "c3");
    // Just right of the 1/3 boundary, well within the threshold.
    let t = l.target_at(f(1.0 / 3.0 + 0.005), f(0.5), f(0.02)).unwrap();
    assert_eq!(t.zones, vec![0, 1]);
    assert!(t.is_span());
    assert_rect(t.rect, 0.0, 0.0, 2.0 / 3.0, 1.0);
}

#[test]
fn target_mid_zone_does_not_span() {
    // Crossing zones during a drag must not accumulate. Only proximity to a shared
    // edge may span.
    let l = columns(3, "c3");
    let t = l.target_at(f(0.5), f(0.5), f(0.02)).unwrap();
    assert_eq!(t.zones, vec![1]);
    assert!(!t.is_span());
}

#[test]
fn target_at_grid_crossing_spans_four() {
    let l = grid(2, 2, "g");
    let t = l.target_at(f(0.5), f(0.5), f(0.02)).unwrap();
    assert_eq!(t.zones, vec![0, 1, 2, 3]);
    assert_rect(t.rect, 0.0, 0.0, 1.0, 1.0);
}

#[test]
fn target_outside_layout_is_none() {
    let l = columns(2, "c2");
    assert!(l.target_at(f(2.0), f(0.5), f(0.02)).is_none());
}

#[test]
fn overlapping_zones_suppress_spanning() {
    let l = ZoneLayout::new("stack", vec![rect(0.0, 0.0, 1.0, 1.0), rect(0.25, 0.25, 0.5, 0.5)]);
    let t = l.target_at(f(0.5), f(0.5), f(0.02)).unwrap();
    assert_eq!(t.zones, vec![1]);
    assert!(!t.is_span());
}

#[test]
fn sanitize_drops_degenerate_zones() {
    let l = ZoneLayout::new(
        "junk",
        vec![
            rect(0.0, 0.0, 0.5, 1.0),
            rect(0.0, 0.0, 0.0, 1.0), // zero width
            rect(0.5, 0.0, 2.0, 1.0), // out of bounds
            rect(f64::NAN, 0.0, 0.5, 1.0),
        ],
    );
    assert_eq!(l.sanitized().zones.len(), 1);
    assert_eq!(l.sanitized().sanitized(), l.sanitized());
    assert_eq!(l.sanitized().name, "junk");
}

#[test]
fn clamped_pulls_into_the_unit_square() {
    assert_rect(rect(-0.5, 0.5, 2.0, 2.0).clamped(), 0.0, 0.5, 1.0, 0.5);
}

#[test]
fn edge_threshold_scales_with_the_smaller_axis() {
    let cfg = ZonesConfig::default();
    approx(v(cfg.edge_threshold_fraction(3840, 2160)), 16.0 / 2160.0);
    // Degenerate sizes must not divide by zero or go infinite.
    assert!(cfg.edge_threshold_fraction(0, 0).is_finite());
    assert_eq!(v(cfg.edge_threshold_fraction(0, 0)), 0.25);
    assert_eq!(v(cfg.edge_threshold_fraction(-5, 7)), 0.25);
}

#[test]
fn edge_threshold_is_zero_when_spanning_is_off() {
    let cfg = ZonesConfig { spanning: false, ..Default::default() };
    approx(v(cfg.edge_threshold_fraction(1920, 1080)), 0.0);
}

#[test]
fn per_workspace_layout_beats_per_output() {
    let output = OutputMatch { name: "DP-1".into(), edid: None };
    let mut cfg = ZonesConfig::default();
    cfg.per_output.insert(output.clone(), "columns-2".into());
    cfg.per_workspace.insert("ws1".into(), "grid-2x2".into());

    assert_eq!(cfg.layout_for(&output, None).unwrap().name, "Columns (2)");
    assert_eq!(cfg.layout_for(&output, Some("ws1")).unwrap().name, "Grid (2x2)");
    // An unmapped workspace falls back to the monitor default.
    assert_eq!(cfg.layout_for(&output, Some("other")).unwrap().name, "Columns (2)");
}

#[test]
fn unmapped_output_has_no_layout() {
    let cfg = ZonesConfig::default();
    let output = OutputMatch { name: "HDMI-1".into(), edid: None };
    assert!(cfg.layout_for(&output, None).is_none());
}

#[test]
fn output_lookup_falls_back_to_the_connector_name() {
    let edid = EdidProduct { manufacturer: 0x1234, product: 7, serial: 99 };
    let by_name = OutputMatch { name: "DP-1".into(), edid: None };
    let monitor = OutputMatch { name: "DP-1".into(), edid: Some(edid) };
    let elsewhere = OutputMatch { name: "DP-2".into(), edid: Some(edid) };
    let mut cfg = ZonesConfig::default();
    cfg.per_output.insert(by_name.clone(), "columns-2".into());
    assert_eq!(cfg.layout_id_for(&monitor, None).unwrap(), "columns-2");
    assert!(cfg.layout_id_for(&elsewhere, None).is_none());
    cfg.per_output.insert(monitor.clone(), "rows-2".into());
    assert_eq!(cfg.layout_id_for(&monitor, None).unwrap(), "rows-2");
    assert_eq!(cfg.layout_id_for(&by_name, None).unwrap(), "columns-2");
}

#[test]
fn a_dangling_assignment_has_no_layout() {
    let output = OutputMatch { name: "DP-1".into(), edid: None };
    let mut cfg = ZonesConfig::default();
    cfg.per_output.insert(output.clone(), "gone".into());
    assert!(cfg.layout_for(&output, None).is_none());
    assert_eq!(cfg.layout_id_for(&output, None).unwrap(), "gone");
}

#[test]
fn default_layout_id_exists() {
    assert!(default_layouts().contains_key(&DEFAULT_LAYOUT_ID.to_string()));
    assert!(is_builtin(&"main-stack".to_string()));
    assert!(!is_builtin(&"custom-1".to_string()));
}

#[test]
fn defaults_are_as_documented() {
    let cfg = ZonesConfig::default();
    assert!(cfg.enabled);
    assert!(cfg.spanning);
    assert_eq!(cfg.adjacent_highlight_distance, 16);
    assert!(cfg.show_zone_numbers);
    assert_eq!(cfg.inactive_opacity, 50);
    assert_eq!(cfg.gap, None);
    assert_eq!(cfg.per_output.len(), 0);
    let next = cfg.shortcuts.snap_next.unwrap();
    assert_eq!(next.key, "Right");
    assert!(next.modifiers.ctrl && next.modifiers.alt && !next.modifiers.shift && !next.modifiers.logo);
    assert_eq!(cfg.shortcuts.snap_prev.unwrap().key, "Left");
    assert_eq!(cfg.shortcuts.grow_span.unwrap().key, "Up");
    assert_eq!(cfg.shortcuts.shrink_span.unwrap().key, "Down");
    let editor = cfg.shortcuts.open_editor.unwrap();
    assert_eq!(editor.key, "grave");
    assert!(editor.modifiers.logo && editor.modifiers.shift && !editor.modifiers.ctrl && !editor.modifiers.alt);
    assert!(cfg.shortcuts.assign_to_workspace.is_none());
    assert!(cfg.shortcuts.clear_workspace.is_none());
}

#[test]
fn a_configured_gap_overrides_the_theme() {
    let cfg = ZonesConfig { gap: Some(12), ..Default::default() };
    assert_eq!(cfg.gaps_or((4, 8)), (12, 12));
    assert_eq!(ZonesConfig::default().gaps_or((4, 8)), (4, 8));
    let huge = ZonesConfig { gap: Some(u32::MAX), ..Default::default() };
    assert_eq!(huge.gaps_or((4, 8)), (i32::MAX, i32::MAX));
}

#[test]
fn templates_hold_the_numbers_of_double_precision() {
    for n in 1..40usize {
        let w = 1.0 / n as f64;
        let l = columns(n, "c");
        let r = rows(n, "r");
        assert_eq!(l.zones.len(), n);
        for i in 0..n {
            assert_eq!(v(l.zones[i].x), i as f64 * w);
            assert_eq!(v(l.zones[i].w), w);
            assert_eq!(v(r.zones[i].y), i as f64 * w);
            assert_eq!(v(r.zones[i].h), w);
        }
    }
    let g = grid(3, 2, "g");
    assert_eq!(g.zones.len(), 6);
    assert_eq!(v(g.zones[5].x), 2.0 * (1.0 / 3.0));
    assert_eq!(v(g.zones[5].y), 0.5);
    assert_eq!(v(priority_grid().zones[1].w), 0.50);
    assert_eq!(v(main_stack().zones[2].x), 0.6);
    assert_eq!(v(main_stack().zones[2].w), 0.4);
}

#[test]
fn a_zone_grown_by_a_distance_reaches_that_far() {
    let z = rect(0.25, 0.25, 0.5, 0.5).inflated(f(0.125));
    assert_eq!((v(z.x), v(z.y), v(z.w), v(z.h)), (0.125, 0.125, 0.75, 0.75));
    assert!(z.contains(f(0.125), f(0.5)));
    assert!(!z.contains(f(0.875), f(0.5)));
}

#[test]
fn the_union_is_the_smallest_rectangle_around_both() {
    let u = rect(0.0, 0.25, 0.25, 0.25).union(&rect(0.5, 0.0, 0.5, 0.25));
    assert_eq!((v(u.x), v(u.y), v(u.w), v(u.h)), (0.0, 0.0, 1.0, 0.5));
}
