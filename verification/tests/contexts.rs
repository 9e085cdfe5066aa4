use cosmic_fancy_pants::binary64::Binary64;
use cosmic_fancy_pants::config::{AppZoneMemories, AppZoneMemory, OutputMatch, ZoneModifiers, ZonesConfig};
use cosmic_fancy_pants::layout::ZoneLayout;
use cosmic_fancy_pants::pixel::{zone_relative_geometry, PixelPoint, PixelRect, PixelSize, TiledCorners};
use cosmic_fancy_pants::rect::ZoneRect;
use cosmic_fancy_pants::shortcuts::{modifiers_match, ModifiersState};
use cosmic_fancy_pants::spans::{cycle_index, resize_span};
use cosmic_fancy_pants::templates::{columns, grid};
use cosmic_fancy_pants::zones::{current_zone, remember_app_zone, remembered_zone, FloatingTiled, ZoneContext};

fn f(v: f64) -> Binary64 {
    Binary64::from_bits(v.to_bits())
}

fn v(b: Binary64) -> f64 {
    f64::from_bits(b.to_bits())
}

fn area(x: i32, y: i32, w: i32, h: i32) -> PixelRect {
    PixelRect { loc: PixelPoint { x, y }, size: PixelSize { w, h } }
}

fn point(x: i32, y: i32) -> PixelPoint {
    PixelPoint { x, y }
}

fn context(layout: ZoneLayout, area: PixelRect, gaps: (i32, i32), edge_threshold: f64) -> ZoneContext {
    ZoneContext::with_layout("test", layout, area, gaps, f(edge_threshold))
}

fn merge(a: PixelRect, b: PixelRect) -> PixelRect {
    let x = a.loc.x.min(b.loc.x);
    let y = a.loc.y.min(b.loc.y);
    let right = (a.loc.x + a.size.w).max(b.loc.x + b.size.w);
    let bottom = (a.loc.y + a.size.h).max(b.loc.y + b.size.h);
    area(x, y, right - x, bottom - y)
}

#[test]
fn hit_maps_pointer_to_the_expected_column() {
    let ctx = context(columns(3, "c3"), area(0, 0, 1200, 900), (0, 0), 0.0);
    assert_eq!(ctx.hit(point(100, 450)).unwrap().zones, vec![0]);
    assert_eq!(ctx.hit(point(600, 450)).unwrap().zones, vec![1]);
    assert_eq!(ctx.hit(point(1100, 450)).unwrap().zones, vec![2]);
}

/// Zones are laid out over the non-exclusive area, so a panel shifts the origin.
/// Fractions must be relative to that area, not the raw output, otherwise every
/// zone is offset by the panel height.
#[test]
fn fractions_are_relative_to_the_non_exclusive_area() {
    let panel = 40;
    let ctx = context(columns(2, "c2"), area(0, panel, 1200, 900 - panel), (0, 0), 0.0);

    // Just below the panel is the very top of zone 0, not its middle.
    let (_, fy) = ctx.to_fraction(point(10, panel)).unwrap();
    assert!(v(fy).abs() < 1e-9, "expected top of area, got {fy:?}");

    assert_eq!(ctx.hit(point(10, panel + 5)).unwrap().zones, vec![0]);
    assert_eq!(ctx.hit(point(1100, panel + 5)).unwrap().zones, vec![1]);
}

/// Dragging over a panel must not snap to the nearest zone.
#[test]
fn points_outside_the_area_do_not_hit() {
    let ctx = context(columns(2, "c2"), area(0, 40, 1200, 860), (0, 0), 0.0);
    assert!(ctx.hit(point(600, 10)).is_none(), "hit inside the panel");
    assert!(ctx.hit(point(-5, 500)).is_none(), "hit left of the output");
    assert!(ctx.hit(point(600, 5000)).is_none(), "hit below the output");
}

#[test]
fn hit_geometry_matches_the_zone_geometry() {
    let ctx = context(columns(3, "c3"), area(0, 0, 1200, 900), (0, 8), 0.0);
    let hit = ctx.hit(point(600, 450)).unwrap();
    assert_eq!(hit.geometry, ctx.zone_geometry(1).unwrap());
}

/// A span near a shared edge resolves to the union, and that union is wider than
/// either zone alone.
#[test]
fn spanning_hit_covers_both_zones() {
    let ctx = context(columns(3, "c3"), area(0, 0, 1200, 900), (0, 0), 0.02);
    let hit = ctx.hit(point(402, 450)).unwrap();
    assert_eq!(hit.zones, vec![0, 1]);
    assert!(hit.geometry.size.w > ctx.zone_geometry(0).unwrap().size.w);
}

#[test]
fn hit_for_resolves_explicit_indices() {
    let ctx = context(columns(3, "c3"), area(0, 0, 1200, 900), (0, 0), 0.0);
    let hit = ctx.hit_for(&[0, 2]).unwrap();
    assert_eq!(hit.geometry, merge(ctx.zone_geometry(0).unwrap(), ctx.zone_geometry(2).unwrap()));
    assert!(ctx.hit_for(&[]).is_none());
}

fn memory_config() -> (ZonesConfig, AppZoneMemories) {
    let mut config = ZonesConfig { remember_apps: true, ..Default::default() };
    config.per_output.insert(OutputMatch { name: "DP-1".into(), edid: None }, "columns-3".into());
    let mut memories = AppZoneMemories::new();
    memories.insert(
        "com.example.App".into(),
        AppZoneMemory { layout: "columns-3".into(), zones: vec![1] },
    );
    (config, memories)
}

/// A remembered zone from a layout that is no longer assigned must be ignored: its
/// coordinates mean nothing under the current layout.
#[test]
fn memory_is_ignored_when_the_layout_changed() {
    let (mut config, memories) = memory_config();
    let output = OutputMatch { name: "DP-1".into(), edid: None };
    assert!(remembered_zone(&config, &memories, "com.example.App", &output, None).is_some());
    config.per_output.insert(OutputMatch { name: "DP-1".into(), edid: None }, "grid-2x2".into());
    let active = config.per_output.get(&OutputMatch { name: "DP-1".into(), edid: None }).cloned();
    assert_eq!(active.as_deref(), Some("grid-2x2"));
    assert_ne!(
        memories.get(&"com.example.App".to_string()).unwrap().layout.as_str(),
        active.unwrap().as_str(),
        "mismatch is what suppresses placement"
    );
    assert!(remembered_zone(&config, &memories, "com.example.App", &output, None).is_none());
}

#[test]
fn memory_is_disabled_by_default() {
    assert!(!ZonesConfig::default().remember_apps);
}

#[test]
fn a_remembered_app_comes_back_to_its_zone() {
    let (mut config, memories) = memory_config();
    config.gap = Some(6);
    let output = OutputMatch { name: "DP-1".into(), edid: None };
    match remembered_zone(&config, &memories, "com.example.App", &output, None).unwrap() {
        FloatingTiled::Zone { layout, zones, rect, gap } => {
            assert_eq!(layout, "columns-3");
            assert_eq!(zones, vec![1]);
            assert_eq!(v(rect.x), 1.0 / 3.0);
            assert_eq!(gap, Some(6));
        }
        FloatingTiled::Corner(_) => panic!("not a corner"),
    }
    assert!(remembered_zone(&config, &memories, "other", &output, None).is_none());
    let elsewhere = OutputMatch { name: "DP-2".into(), edid: None };
    assert!(remembered_zone(&config, &memories, "com.example.App", &elsewhere, None).is_none());
    config.remember_apps = false;
    assert!(remembered_zone(&config, &memories, "com.example.App", &output, None).is_none());
}

#[test]
fn remembering_tells_whether_anything_changed() {
    let (_, mut memories) = memory_config();
    let app = || "com.example.App".to_string();
    let layout = || "columns-3".to_string();
    assert!(!remember_app_zone(true, &mut memories, app(), layout(), vec![1]), "known already");
    assert!(!remember_app_zone(false, &mut memories, app(), layout(), vec![2]), "switched off");
    assert!(!remember_app_zone(true, &mut memories, String::new(), layout(), vec![2]), "no app id");
    assert_eq!(memories.get(&app()).unwrap().zones, vec![1]);
    assert!(remember_app_zone(true, &mut memories, app(), layout(), vec![1, 2]));
    assert_eq!(memories.get(&app()).unwrap().zones, vec![1, 2]);
    assert!(remember_app_zone(true, &mut memories, "new".into(), layout(), vec![0]));
    assert_eq!(memories.len(), 2);
}

#[test]
fn cycling_wraps_in_both_directions() {
    assert_eq!(cycle_index(Some(0), 3, 1), Some(1));
    assert_eq!(cycle_index(Some(2), 3, 1), Some(0), "should wrap forward");
    assert_eq!(cycle_index(Some(0), 3, -1), Some(2), "should wrap backward");
}

/// An unsnapped window needs an obvious entry point in each direction.
#[test]
fn cycling_an_unsnapped_window_enters_at_an_end() {
    assert_eq!(cycle_index(None, 3, 1), Some(0));
    assert_eq!(cycle_index(None, 3, -1), Some(2));
}

#[test]
fn cycling_an_empty_layout_does_nothing() {
    assert_eq!(cycle_index(Some(0), 0, 1), None);
    assert_eq!(cycle_index(None, 0, 1), None);
}

#[test]
fn cycling_from_a_stale_index_lands_in_the_layout() {
    assert_eq!(cycle_index(Some(7), 3, 1), Some(2));
    assert_eq!(cycle_index(Some(1), 3, -7), Some(0));
    assert_eq!(cycle_index(Some(1), 3, -4), Some(0));
    assert_eq!(cycle_index(Some(0), 3, -6), Some(0));
}

#[test]
fn growing_a_span_appends_the_next_zone() {
    let layout = columns(3, "test");
    assert_eq!(resize_span(&layout, &[0], true), Some(vec![0, 1]));
    assert_eq!(resize_span(&layout, &[0, 1], true), Some(vec![0, 1, 2]));
}

#[test]
fn a_span_cannot_grow_past_the_whole_layout() {
    let layout = columns(3, "test");
    assert_eq!(resize_span(&layout, &[0, 1, 2], true), None);
}

/// Growing extends the span's rectangle, so a span sitting at the end of the layout
/// grows backwards rather than doing nothing.
#[test]
fn a_trailing_span_grows_backwards() {
    let layout = columns(3, "test");
    assert_eq!(resize_span(&layout, &[1, 2], true), Some(vec![0, 1, 2]));
}

#[test]
fn shrinking_a_span_drops_the_last_zone() {
    let layout = columns(3, "test");
    assert_eq!(resize_span(&layout, &[0, 1, 2], false), Some(vec![0, 1]));
}

/// A span never shrinks to nothing: the window has to live somewhere.
#[test]
fn a_span_cannot_shrink_below_one_zone() {
    let layout = columns(3, "test");
    assert_eq!(resize_span(&layout, &[1], false), None);
    assert_eq!(resize_span(&layout, &[], false), None);
}

#[test]
fn span_input_is_normalised() {
    // Out of order and duplicated indices must not confuse the result.
    let layout = columns(4, "test");
    assert_eq!(resize_span(&layout, &[2, 0, 2, 1], true), Some(vec![0, 1, 2, 3]));
}

/// Every step must name exactly what it covers: growing the top row of a 2x2 by
/// index 2 alone would cover zone 3 as well.
#[test]
fn growing_in_a_grid_never_covers_an_unlisted_zone() {
    let layout = grid(2, 2, "test");
    let mut span = vec![0];
    while let Some(next) = resize_span(&layout, &span, true) {
        assert!(
            layout.span_is_exact(&next),
            "{span:?} grew to {next:?}, which does not fill its own rectangle"
        );
        assert!(next.len() > span.len(), "growing must make progress");
        span = next;
    }
    assert_eq!(span, vec![0, 1, 2, 3], "growing should reach the whole grid");

    while let Some(smaller) = resize_span(&layout, &span, false) {
        assert!(
            layout.span_is_exact(&smaller),
            "{span:?} shrank to {smaller:?}, which does not fill its own rectangle"
        );
        span = smaller;
    }
    assert_eq!(span.len(), 1, "shrinking should end at a single zone");
}

#[test]
fn growing_in_a_grid_takes_the_smallest_step() {
    let layout = grid(2, 2, "test");
    assert_eq!(resize_span(&layout, &[0], true), Some(vec![0, 1]));
    assert_eq!(resize_span(&layout, &[0, 1], true), Some(vec![0, 1, 2, 3]));
    assert_eq!(resize_span(&layout, &[], true), Some(vec![0]));
    assert_eq!(resize_span(&ZoneLayout::new("none", vec![]), &[], true), None);
    // Three zones of a grid fill no rectangle, so shrinking skips them.
    assert_eq!(resize_span(&layout, &[0, 1, 2, 3], false), Some(vec![0, 1]));
}

#[test]
fn the_configured_modifier_must_be_held() {
    let want = ZoneModifiers::default(); // shift
    let mut have = ModifiersState::default();
    assert!(!modifiers_match(&want, &have), "nothing held");
    have.shift = true;
    assert!(modifiers_match(&want, &have));
}

/// Super+drag is the window-move gesture, so Super is held for most drags.
/// Requiring it to be absent would make zones unreachable that way.
#[test]
fn extra_modifiers_do_not_block_arming() {
    let want = ZoneModifiers::default(); // shift
    let have = ModifiersState { shift: true, logo: true, ..Default::default() };
    assert!(modifiers_match(&want, &have), "Super+Shift+drag must arm zones");
}

/// A configuration with no modifiers would otherwise arm on every drag, making plain
/// window moves impossible.
#[test]
fn an_empty_modifier_set_never_arms() {
    let want = ZoneModifiers { ctrl: false, alt: false, shift: false, logo: false };
    let have = ModifiersState { shift: true, ..Default::default() };
    assert!(!modifiers_match(&want, &have));
}

#[test]
fn zones_resolve_only_where_a_layout_applies() {
    let output = OutputMatch { name: "DP-1".into(), edid: None };
    let screen = area(0, 40, 1920, 1040);
    let mut config = ZonesConfig::default();
    assert!(ZoneContext::resolve(&config, &output, screen, None, (0, 8)).is_none(), "nothing assigned");
    config.per_output.insert(output.clone(), "priority-grid".into());
    let ctx = ZoneContext::resolve(&config, &output, screen, None, (0, 8)).unwrap();
    assert_eq!(ctx.layout_id, "priority-grid");
    assert_eq!(ctx.name(), "Priority Grid");
    assert_eq!(ctx.len(), 3);
    assert!(!ctx.is_empty());
    assert_eq!(ctx.gap(), None);
    assert_eq!(v(ctx.edge_threshold), 16.0 / 1040.0);
    assert!(ZoneContext::resolve(&config, &output, area(0, 0, 0, 900), None, (0, 8)).is_none(), "no area");
    config.layouts.insert(
        "priority-grid".into(),
        ZoneLayout::new("broken", vec![ZoneRect::new(f(0.0), f(0.0), f(0.0), f(1.0))]),
    );
    assert!(ZoneContext::resolve(&config, &output, screen, None, (0, 8)).is_none(), "no usable zone");
    config.per_output.insert(output.clone(), "columns-2".into());
    config.enabled = false;
    assert!(ZoneContext::resolve(&config, &output, screen, None, (0, 8)).is_none(), "disabled");
}

#[test]
fn zones_are_laid_out_with_shared_gutters() {
    let ctx = context(columns(3, "c3"), area(0, 32, 1000, 800), (0, 8), 0.0);
    let all = ctx.geometries();
    assert_eq!(all.len(), 3);
    assert_eq!(all[0], area(8, 40, 321, 784));
    assert_eq!(all[1], area(337, 40, 326, 784));
    assert_eq!(all[2], area(671, 40, 321, 784));
    for pair in all.windows(2) {
        assert_eq!(pair[1].loc.x - (pair[0].loc.x + pair[0].size.w), 8);
    }
    assert_eq!(ctx.zone_geometry(2), Some(all[2]));
    assert_eq!(ctx.zone_geometry(3), None);
}

/// Zone- and corner-snapped windows line up on even-sized outputs, for odd gaps too.
#[test]
fn zone_geometry_is_corner_geometry_on_even_sizes() {
    let half = |x: f64, y: f64, w: f64, h: f64| ZoneRect::new(f(x), f(y), f(w), f(h));
    let corners = [
        (TiledCorners::Top, half(0.0, 0.0, 1.0, 0.5)),
        (TiledCorners::TopRight, half(0.5, 0.0, 0.5, 0.5)),
        (TiledCorners::Right, half(0.5, 0.0, 0.5, 1.0)),
        (TiledCorners::BottomRight, half(0.5, 0.5, 0.5, 0.5)),
        (TiledCorners::Bottom, half(0.0, 0.5, 1.0, 0.5)),
        (TiledCorners::BottomLeft, half(0.0, 0.5, 0.5, 0.5)),
        (TiledCorners::Left, half(0.0, 0.0, 0.5, 1.0)),
        (TiledCorners::TopLeft, half(0.0, 0.0, 0.5, 0.5)),
    ];
    for gap in [0, 1, 7, 8, 33] {
        for (corner, rect) in corners {
            for screen in [area(0, 0, 1920, 1080), area(-1280, 40, 1366, 728), area(5, 7, 2, 2)] {
                assert_eq!(
                    zone_relative_geometry(rect, screen, (3, gap)),
                    corner.relative_geometry(screen, (3, gap)),
                    "{corner:?} with a gap of {gap}"
                );
            }
        }
    }
    let left = TiledCorners::Left.relative_geometry(area(0, 0, 1920, 1080), (0, 7));
    assert_eq!(left, area(7, 7, 950, 1066));
}

#[test]
fn a_snap_is_placed_with_the_gap_it_was_made_with() {
    let output = OutputMatch { name: "DP-1".into(), edid: None };
    let screen = area(0, 0, 1200, 900);
    let mut config = ZonesConfig { gap: Some(20), ..Default::default() };
    config.per_output.insert(output.clone(), "columns-2".into());
    let ctx = ZoneContext::resolve(&config, &output, screen, None, config.gaps_or((0, 8))).unwrap();
    let hit = ctx.hit(point(100, 100)).unwrap();
    let snap = ctx.snap(&hit);
    assert_eq!(hit.geometry, area(20, 20, 570, 860));
    assert_eq!(snap.relative_geometry(screen, (0, 8)), hit.geometry);
    assert_eq!(snap.relative_geometry(screen, (0, 99)), hit.geometry);
    assert_eq!(current_zone(Some(&snap)), Some(("columns-2".to_string(), 0)));
}

#[test]
fn a_spanned_window_reports_its_first_zone() {
    let spanned = |zones: Vec<usize>| FloatingTiled::Zone {
        layout: "grid-2x2".into(),
        zones,
        rect: ZoneRect::new(f(0.0), f(0.0), f(1.0), f(1.0)),
        gap: None,
    };
    assert_eq!(current_zone(Some(&spanned(vec![3, 1, 2]))), Some(("grid-2x2".to_string(), 1)));
    assert_eq!(current_zone(Some(&spanned(vec![]))), None);
    assert_eq!(current_zone(Some(&FloatingTiled::Corner(TiledCorners::Left))), None);
    assert_eq!(current_zone(None), None);
}
