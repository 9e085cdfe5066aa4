use cosmic_fancy_pants::binary64::Binary64;
use cosmic_fancy_pants::canvas::{
    cursor_fraction, divider_at, index_at, to_fraction, to_screen, CanvasAction, CanvasEvent, CanvasState, Interaction,
    ScreenPoint, ScreenRect, ZoneCanvas,
};
use cosmic_fancy_pants::config::{OutputMatch, ZonesConfig};
use cosmic_fancy_pants::dividers::{Axis, Divider};
use cosmic_fancy_pants::editor::{
    flag, lite_info, next_custom_id, Editor, EditorTask, Launch, Message, OutputEvent, OutputInfoLite, Scope,
};
use cosmic_fancy_pants::layout::ZoneLayout;
use cosmic_fancy_pants::rect::ZoneRect;
use cosmic_fancy_pants::table::Table;
use cosmic_fancy_pants::toolbar::{canvas_gap, choices, heading, view, OverlayView};

fn f(v: f64) -> Binary64 {
    Binary64::from_bits(v.to_bits())
}

fn v(b: Binary64) -> f64 {
    f64::from_bits(b.to_bits())
}

fn rect(x: f64, y: f64, w: f64, h: f64) -> ZoneRect {
    ZoneRect::new(f(x), f(y), f(w), f(h))
}

fn bounds() -> ScreenRect {
    ScreenRect { x: f(0.0), y: f(100.0), width: f(1000.0), height: f(500.0) }
}

fn pos(x: f64, y: f64) -> Option<ScreenPoint> {
    Some(ScreenPoint { x: f(x), y: f(y) })
}

fn halves() -> Vec<ZoneRect> {
    vec![rect(0.0, 0.0, 0.5, 1.0), rect(0.5, 0.0, 0.5, 1.0)]
}

fn canvas(zones: &[ZoneRect]) -> ZoneCanvas<'_> {
    ZoneCanvas { zones, surface_id: 7, show_numbers: true, gap: f(8.0) }
}

fn published(action: Option<CanvasAction>) -> Vec<ZoneRect> {
    match action {
        Some(CanvasAction::Publish { surface_id: 7, zones }) => zones,
        other => panic!("{other:?}"),
    }
}

#[test]
fn a_boundary_is_dragged_and_published_on_release() {
    let zones = halves();
    let canvas = canvas(&zones);
    let mut state = CanvasState::default();
    let grab = canvas.update(&mut state, CanvasEvent::LeftPressed, bounds(), pos(506.0, 250.0));
    assert!(matches!(grab, Some(CanvasAction::Capture)));
    assert_eq!(v(state.dragging.as_ref().unwrap().divider.position), 0.5);
    // Several motions against the same zones: each is absolute.
    for x in [600.0, 900.0, 250.0] {
        let action = canvas.update(&mut state, CanvasEvent::CursorMoved, bounds(), pos(x, 250.0));
        assert!(matches!(action, Some(CanvasAction::Redraw)));
    }
    assert_eq!(v(state.dragging.as_ref().unwrap().current), 0.25);
    let moved = published(canvas.update(&mut state, CanvasEvent::LeftReleased, bounds(), pos(250.0, 250.0)));
    assert_eq!(v(moved[0].w), 0.25);
    assert_eq!(v(moved[1].x), 0.25);
    assert!(state.dragging.is_none());
    assert!(canvas.update(&mut state, CanvasEvent::LeftReleased, bounds(), pos(250.0, 250.0)).is_none());
}

#[test]
fn a_drag_that_the_zones_cannot_follow_stays() {
    let zones = vec![rect(0.0, 0.0, 0.25, 1.0), rect(0.25, 0.0, 0.25, 1.0), rect(0.5, 0.0, 0.5, 1.0)];
    let canvas = canvas(&zones);
    let mut state = CanvasState::default();
    canvas.update(&mut state, CanvasEvent::LeftPressed, bounds(), pos(250.0, 250.0));
    canvas.update(&mut state, CanvasEvent::CursorMoved, bounds(), pos(300.0, 250.0));
    canvas.update(&mut state, CanvasEvent::CursorMoved, bounds(), pos(800.0, 250.0));
    assert_eq!(v(state.dragging.as_ref().unwrap().current), 0.3f32 as f64);
}

#[test]
fn a_drag_outlives_the_zones_that_are_shown() {
    let zones = vec![rect(0.0, 0.0, 0.25, 1.0), rect(0.25, 0.0, 0.25, 1.0), rect(0.5, 0.0, 0.5, 1.0)];
    let other = halves();
    let mut state = CanvasState::default();
    canvas(&zones).update(&mut state, CanvasEvent::LeftPressed, bounds(), pos(250.0, 250.0));
    canvas(&other).update(&mut state, CanvasEvent::CursorMoved, bounds(), pos(375.0, 250.0));
    // Past the next boundary: skipped.
    canvas(&other).update(&mut state, CanvasEvent::CursorMoved, bounds(), pos(800.0, 250.0));
    let moved = published(canvas(&other).update(&mut state, CanvasEvent::LeftReleased, bounds(), pos(800.0, 250.0)));
    assert_eq!(moved.len(), 3);
    assert_eq!((v(moved[0].w), v(moved[1].x), v(moved[1].w)), (0.375, 0.375, 0.125));
    assert_eq!(moved[2], zones[2]);
    assert!(state.dragging.is_none());
}

#[test]
fn a_click_splits_along_the_longer_side() {
    let zones = vec![rect(0.0, 0.0, 1.0, 0.5), rect(0.0, 0.5, 0.25, 0.5), rect(0.25, 0.5, 0.75, 0.5)];
    let canvas = canvas(&zones);
    let mut state = CanvasState::default();
    let split = published(canvas.update(&mut state, CanvasEvent::LeftPressed, bounds(), pos(500.0, 100.0)));
    assert_eq!(split.len(), 4);
    assert_eq!((v(split[0].w), v(split[1].x)), (0.5, 0.5));
    // The tall one splits into two rows.
    let split = published(canvas.update(&mut state, CanvasEvent::LeftPressed, bounds(), pos(100.0, 375.0)));
    assert_eq!((v(split[1].h), v(split[2].y)), (0.25, 0.75));
    // Shift picks the other axis.
    let none = canvas.update(&mut state, CanvasEvent::ModifiersChanged { shift: true }, bounds(), pos(1.0, 1.0));
    assert!(none.is_none());
    assert!(state.shift);
    let split = published(canvas.update(&mut state, CanvasEvent::LeftPressed, bounds(), pos(500.0, 125.0)));
    assert_eq!((v(split[0].h), v(split[1].y)), (0.25, 0.25));
    // Too close to an edge, but too far from a boundary to grab it.
    assert!(canvas.update(&mut state, CanvasEvent::LeftPressed, bounds(), pos(500.0, 12.0)).is_none());
}

#[test]
fn a_right_click_removes_a_boundary() {
    let zones = halves();
    let canvas = canvas(&zones);
    let mut state = CanvasState::default();
    let merged = published(canvas.update(&mut state, CanvasEvent::RightPressed, bounds(), pos(500.0, 10.0)));
    assert_eq!(merged.len(), 1);
    assert_eq!(v(merged[0].w), 1.0);
    assert!(canvas.update(&mut state, CanvasEvent::RightPressed, bounds(), pos(400.0, 10.0)).is_none());
    assert!(canvas.update(&mut state, CanvasEvent::Other, bounds(), pos(500.0, 10.0)).is_none());
    assert!(canvas.update(&mut state, CanvasEvent::LeftPressed, bounds(), None).is_none());
    assert!(state.dragging.is_none());
}

#[test]
fn the_nearest_boundary_is_grabbed() {
    let zones = vec![rect(0.0, 0.0, 0.5, 1.0), rect(0.5, 0.0, 0.25, 1.0), rect(0.75, 0.0, 0.25, 1.0)];
    let narrow = ScreenRect { x: f(0.0), y: f(0.0), width: f(20.0), height: f(20.0) };
    let found = divider_at(&zones, narrow, ScreenPoint { x: f(13.0), y: f(5.0) }).unwrap();
    assert_eq!(v(found.position), 0.75);
    assert!(divider_at(&zones, bounds(), ScreenPoint { x: f(508.5), y: f(5.0) }).is_none());
    assert!(divider_at(&zones, bounds(), ScreenPoint { x: f(508.0), y: f(5.0) }).is_some());
}

#[test]
fn places_on_the_canvas_are_fractions_of_it() {
    let (x, y) = to_fraction(bounds(), ScreenPoint { x: f(250.0), y: f(225.0) });
    assert_eq!((v(x), v(y)), (0.25, 0.25));
    let divider = Divider { axis: Axis::Horizontal, position: f(0.5) };
    assert_eq!(v(cursor_fraction(divider, bounds(), ScreenPoint { x: f(250.0), y: f(225.0) })), 0.25);
    let flat = ScreenRect { height: f(0.0), ..bounds() };
    assert_eq!(v(to_fraction(flat, ScreenPoint { x: f(0.0), y: f(103.0) }).1), 3.0);
    let screen = to_screen(&rect(0.1, 0.2, 0.3, 0.4), bounds());
    assert_eq!(v(screen.x) as f32, 0.0 + 0.1f64 as f32 * 1000.0);
    assert_eq!(v(screen.y) as f32, 100.0 + 0.2f64 as f32 * 500.0);
    assert_eq!(v(screen.width) as f32, 0.3f64 as f32 * 1000.0);
    assert_eq!(v(screen.height) as f32, 0.4f64 as f32 * 500.0);
    let stacked = vec![rect(0.0, 0.0, 1.0, 1.0), rect(0.25, 0.25, 0.5, 0.5)];
    assert_eq!(index_at(&stacked, f(0.5), f(0.5)), Some(1));
    assert_eq!(index_at(&stacked, f(0.1), f(0.5)), Some(0));
    assert_eq!(index_at(&stacked, f(1.1), f(0.5)), None);
}

#[test]
fn zones_are_drawn_with_their_gap_and_number() {
    let zones = halves();
    let canvas = canvas(&zones);
    let state = CanvasState::default();
    let scene = canvas.draw(&state, bounds(), pos(100.0, 100.0));
    assert_eq!(scene.zones.len(), 2);
    let first = &scene.zones[0];
    assert_eq!((v(first.rect.x), v(first.rect.y)), (8.0, 8.0));
    assert_eq!((v(first.rect.width), v(first.rect.height)), (488.0, 484.0));
    let (text, place) = scene.zones[1].label.as_ref().unwrap();
    assert_eq!(text, "2");
    assert_eq!((v(place.x), v(place.y)), (748.0, 250.0));
    assert!(scene.guide.is_none());
    let hovering = canvas.draw(&state, bounds(), pos(500.0, 100.0)).guide.unwrap();
    assert_eq!((v(hovering.x), v(hovering.y), v(hovering.width), v(hovering.height)), (498.0, 0.0, 4.0, 500.0));
    let plain = ZoneCanvas { show_numbers: false, gap: f(600.0), ..canvas };
    let scene = plain.draw(&state, bounds(), None);
    assert!(scene.zones[0].label.is_none());
    assert_eq!(v(scene.zones[0].rect.height), 1.0, "never thinner than a pixel");
}

#[test]
fn the_cursor_tells_which_way_a_boundary_moves() {
    let zones = vec![rect(0.0, 0.0, 1.0, 0.5), rect(0.0, 0.5, 1.0, 0.5)];
    let canvas = canvas(&zones);
    let mut state = CanvasState::default();
    assert_eq!(canvas.mouse_interaction(&state, bounds(), pos(10.0, 250.0)), Interaction::ResizingVertically);
    assert_eq!(canvas.mouse_interaction(&state, bounds(), pos(10.0, 100.0)), Interaction::Normal);
    assert_eq!(canvas.mouse_interaction(&state, bounds(), None), Interaction::Normal);
    canvas.update(&mut state, CanvasEvent::LeftPressed, bounds(), pos(10.0, 250.0));
    assert_eq!(canvas.mouse_interaction(&state, bounds(), None), Interaction::ResizingVertically);
    let columns = halves();
    let canvas = ZoneCanvas { zones: &columns, surface_id: 7, show_numbers: true, gap: f(8.0) };
    let fresh = CanvasState::default();
    assert_eq!(canvas.mouse_interaction(&fresh, bounds(), pos(500.0, 1.0)), Interaction::ResizingHorizontally);
}

fn launch(workspace: Option<&str>, output: Option<&str>) -> Launch {
    Launch { workspace: workspace.map(String::from), output: output.map(String::from) }
}

fn info(name: &str) -> OutputInfoLite {
    OutputInfoLite { name: name.into(), logical_size: (1920, 1080) }
}

fn editor(launch: Launch) -> Editor {
    let mut config = ZonesConfig::default();
    config.per_output.insert(OutputMatch { name: "DP-2".into(), edid: None }, "rows-2".into());
    let mut editor = Editor::new(launch, config, true);
    let opened = editor.update(Message::Output(OutputEvent::Created, 101, info("DP-1")), 1);
    assert!(matches!(opened, EditorTask::OpenOverlay { surface: 1, wl_output: 101 }));
    editor.update(Message::Output(OutputEvent::Created, 102, info("DP-2")), 2);
    editor
}

fn shown(editor: &Editor, surface: u64) -> String {
    editor.outputs.get(&surface).unwrap().layout_id.clone()
}

#[test]
fn an_overlay_starts_with_the_assigned_layout() {
    let mut editor = editor(launch(None, None));
    assert_eq!(editor.outputs.len(), 2);
    assert_eq!(shown(&editor, 1), "columns-3");
    assert_eq!(shown(&editor, 2), "rows-2");
    assert_eq!(editor.layout_for(2).unwrap().name, "Rows (2)");
    assert!(editor.layout_for(3).is_none());
    // Known already, or without a name: nothing opens.
    assert!(matches!(
        editor.update(Message::Output(OutputEvent::Created, 102, info("DP-9")), 3),
        EditorTask::Nothing
    ));
    assert!(matches!(
        editor.update(Message::Output(OutputEvent::Created, 103, OutputInfoLite::default()), 3),
        EditorTask::Nothing
    ));
    assert!(matches!(editor.update(Message::Output(OutputEvent::Other, 103, info("DP-3")), 3), EditorTask::Nothing));
    assert_eq!(editor.outputs.len(), 2);
    editor.update(Message::SelectLayout(2, "gone".into()), 3);
    assert_eq!(editor.layout_for(2).unwrap().name, "Columns (3)", "falls back to the default");
}

#[test]
fn an_output_that_goes_away_takes_its_overlay_with_it() {
    let mut editor = editor(launch(None, None));
    match editor.update(Message::Output(OutputEvent::Removed, 101, OutputInfoLite::default()), 9) {
        EditorTask::Destroy(list) => assert_eq!(list, vec![1]),
        other => panic!("{other:?}"),
    }
    assert!(editor.layout_for(1).is_none());
    assert!(editor.layout_for(2).is_some());
    match editor.update(Message::Output(OutputEvent::Removed, 101, OutputInfoLite::default()), 9) {
        EditorTask::Destroy(list) => assert!(list.is_empty()),
        other => panic!("{other:?}"),
    }
}

#[test]
fn editing_a_template_makes_a_custom_layout() {
    let mut editor = editor(launch(None, None));
    editor.update(Message::SelectLayout(2, "columns-3".into()), 9);
    editor.update(Message::ZonesEdited(1, halves()), 9);
    assert_eq!(shown(&editor, 1), "custom-1");
    assert_eq!(shown(&editor, 2), "columns-3", "the other output keeps the template");
    let fork = editor.layout_for(1).unwrap();
    assert_eq!(fork.name, "Columns (3) (edited)");
    assert_eq!(fork.zones, halves());
    assert_eq!(editor.layout_for(2).unwrap().zones.len(), 3, "the template is untouched");
    // From then on it is edited in place.
    editor.update(Message::ZonesEdited(1, vec![rect(0.0, 0.0, 1.0, 1.0)]), 9);
    assert_eq!(shown(&editor, 1), "custom-1");
    assert_eq!(editor.layout_for(1).unwrap().zones.len(), 1);
    assert_eq!(editor.layout_for(1).unwrap().name, "Columns (3) (edited)");
    editor.update(Message::ZonesEdited(2, halves()), 9);
    assert_eq!(shown(&editor, 2), "custom-2");
    // A surface that is not there, or a layout that is not: nothing happens.
    editor.update(Message::ZonesEdited(77, halves()), 9);
    editor.update(Message::SelectLayout(1, "gone".into()), 9);
    editor.update(Message::ZonesEdited(1, halves()), 9);
    assert_eq!(editor.config.layouts.len(), 8);
}

#[test]
fn a_template_without_a_layout_is_forked_under_another_name() {
    let mut editor = editor(launch(None, None));
    editor.config.layouts.remove(&"columns-3".to_string());
    editor.update(Message::ZonesEdited(1, halves()), 9);
    assert_eq!(editor.layout_for(1).unwrap().name, "Custom");
}

#[test]
fn the_first_free_custom_id_is_taken() {
    let mut layouts: Table<String, ZoneLayout> = Table::new();
    assert_eq!(next_custom_id(&layouts), "custom-1");
    for n in (1..=12).filter(|n| *n != 11) {
        layouts.insert(format!("custom-{n}"), ZoneLayout::new("c", vec![]));
    }
    assert_eq!(next_custom_id(&layouts), "custom-11");
}

#[test]
fn saving_assigns_every_output() {
    let mut editor = editor(launch(None, None));
    editor.update(Message::SetScope(Scope::Workspace), 9);
    editor.update(Message::SelectLayout(1, "grid-2x2".into()), 9);
    editor.update(Message::SetGap(Some(3)), 9);
    match editor.update(Message::Save, 9) {
        EditorTask::SaveAndExit(list) => assert_eq!(list, vec![1, 2]),
        other => panic!("{other:?}"),
    }
    assert_eq!(editor.outputs.len(), 0);
    assert_eq!(editor.config.gap, Some(3));
    let output = |name: &str| OutputMatch { name: name.into(), edid: None };
    // Without a workspace to assign to, the outputs get their layouts.
    assert_eq!(editor.config.layout_id_for(&output("DP-1"), None).unwrap(), "grid-2x2");
    assert_eq!(editor.config.layout_id_for(&output("DP-2"), None).unwrap(), "rows-2");
    assert_eq!(editor.config.per_workspace.len(), 0);
}

#[test]
fn saving_for_a_workspace_takes_the_output_it_was_opened_on() {
    let mut editor = editor(launch(Some("ws1"), Some("DP-2")));
    editor.update(Message::SetScope(Scope::Workspace), 9);
    editor.update(Message::Save, 9);
    assert_eq!(editor.config.per_workspace.get(&"ws1".to_string()).unwrap(), "rows-2");
    assert_eq!(editor.config.per_output.len(), 1, "the outputs keep what they had");

    let mut editor = self::editor(launch(Some("ws1"), Some("DP-9")));
    editor.update(Message::SetScope(Scope::Workspace), 9);
    editor.update(Message::Save, 9);
    assert_eq!(editor.config.per_workspace.get(&"ws1".to_string()).unwrap(), "columns-3");

    let mut editor = self::editor(launch(Some("ws1"), None));
    editor.update(Message::Save, 9);
    assert_eq!(editor.config.per_workspace.len(), 0, "the monitor is the default scope");
    assert_eq!(editor.config.per_output.len(), 2);
}

#[test]
fn without_anywhere_to_save_nothing_is_discarded() {
    let mut editor = editor(launch(None, None));
    editor.can_save = false;
    assert!(matches!(editor.update(Message::Save, 9), EditorTask::Nothing));
    assert_eq!(editor.outputs.len(), 2);
}

#[test]
fn cancelling_closes_without_assigning() {
    let mut editor = editor(launch(None, None));
    editor.update(Message::SelectLayout(1, "grid-2x2".into()), 9);
    match editor.update(Message::Cancel, 9) {
        EditorTask::Exit(list) => assert_eq!(list, vec![1, 2]),
        other => panic!("{other:?}"),
    }
    assert_eq!(editor.outputs.len(), 0);
    assert_eq!(editor.config.per_output.len(), 1);
}

#[test]
fn the_picker_lists_layouts_in_the_order_of_their_ids() {
    let mut editor = editor(launch(None, None));
    editor.update(Message::ZonesEdited(1, halves()), 9);
    match view(&editor, 1) {
        OverlayView::Layout { heading, picker } => {
            assert_eq!(heading, "Zones — DP-1 (1920x1080)");
            let ids: Vec<&str> = picker.iter().map(|c| c.id.as_str()).collect();
            let mut sorted = ids.clone();
            sorted.sort();
            assert_eq!(ids, sorted);
            assert_eq!(ids.len(), 7);
            let selected: Vec<&str> = picker.iter().filter(|c| c.selected).map(|c| c.name.as_str()).collect();
            assert_eq!(selected, vec!["Columns (3) (edited)"]);
        }
        other => panic!("{other:?}"),
    }
    assert!(matches!(view(&editor, 99), OverlayView::Empty));
    for i in (0..editor.config.layouts.len()).rev() {
        let id = editor.config.layouts.entry(i).0.clone();
        editor.config.layouts.remove(&id);
    }
    assert!(matches!(view(&editor, 1), OverlayView::NoLayouts));
}

#[test]
fn texts_sort_by_their_characters() {
    let mut layouts: Table<String, ZoneLayout> = Table::new();
    let names = ["b", "é", "a", "ab", "z", "", "aé", "abc", "Z"];
    for name in names {
        layouts.insert(name.into(), ZoneLayout::new(name, vec![]));
    }
    let listed = choices(&layouts, "ab");
    let ids: Vec<&str> = listed.iter().map(|c| c.id.as_str()).collect();
    let mut sorted = names.to_vec();
    sorted.sort();
    assert_eq!(ids, sorted);
    assert_eq!(listed.iter().filter(|c| c.selected).count(), 1);
}

#[test]
fn headings_name_the_output_and_its_size() {
    assert_eq!(heading("eDP-1", (0, 4294967295)), "Zones — eDP-1 (0x4294967295)");
    assert_eq!(v(canvas_gap(Some(5), 8)), 5.0);
    assert_eq!(v(canvas_gap(None, 16777217)), 16777217u32 as f32 as f64);
}

#[test]
fn flags_have_the_value_that_follows_them() {
    let args = |list: &[&str]| list.iter().map(|s| s.to_string()).collect::<Vec<String>>();
    let line = args(&["editor", "--workspace", "ws1", "--output", "DP-1"]);
    assert_eq!(flag(&line, "--workspace").as_deref(), Some("ws1"));
    assert_eq!(flag(&line, "--output").as_deref(), Some("DP-1"));
    assert_eq!(flag(&line, "--other"), None);
    assert_eq!(flag(&args(&["editor", "--output"]), "--output"), None);
    assert_eq!(flag(&args(&["editor", "--output", ""]), "--output"), None);
    assert_eq!(flag(&args(&["editor", "--output", "", "--output", "DP-2"]), "--output"), None);
}

#[test]
fn outputs_tell_at_least_nothing() {
    let full = lite_info(Some("DP-1".into()), Some((2560, -1)));
    assert_eq!(full.name, "DP-1");
    assert_eq!(full.logical_size, (2560, 0));
    let none = lite_info(None, None);
    assert_eq!((none.name.as_str(), none.logical_size), ("", (0, 0)));
}

#[test]
fn tables_keep_one_value_for_each_key() {
    let mut table: Table<String, u32> = Table::new();
    table.insert("a".into(), 1);
    table.insert("b".into(), 2);
    table.insert("a".into(), 3);
    assert_eq!(table.len(), 2);
    assert_eq!(table.get(&"a".to_string()), Some(&3));
    table.remove(&"a".to_string());
    assert!(!table.contains_key(&"a".to_string()));
    assert_eq!(table.entry(0).1, 2);
}

#[test]
fn a_table_keeps_the_order_of_its_keys() {
    let mut table: Table<String, u32> = Table::new();
    for (i, key) in ["c", "a", "b"].into_iter().enumerate() {
        table.insert(key.into(), i as u32);
    }
    table.insert("a".into(), 7);
    let keys: Vec<(String, u32)> = (0..table.len()).map(|i| table.entry(i).clone()).collect();
    assert_eq!(keys, vec![("c".into(), 0), ("a".into(), 7), ("b".into(), 2)]);
    table.remove(&"c".into());
    assert_eq!(table.entry(0).0, "a");
    assert_eq!(table.entry(1).0, "b");
}
