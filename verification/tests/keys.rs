use cosmic_fancy_pants::config::{ZoneBinding, ZoneModifiers, ZoneShortcuts};
use cosmic_fancy_pants::shortcuts::{
    armed_keys, cosmic_modifiers_eq_smithay, cosmic_modifiers_from_smithay, match_shortcut, KeysymNames, Modifiers,
    ModifiersState, ZoneAction,
};

const RIGHT: u32 = 0xff53;
const GRAVE: u32 = 0x60;

fn names() -> KeysymNames {
    let mut names = KeysymNames::new();
    assert_eq!(names.known("Right"), None);
    assert_eq!(names.record("Right", RIGHT), Some(RIGHT));
    assert_eq!(names.record("grave", GRAVE), Some(GRAVE));
    assert_eq!(names.record("not-a-key", 0), None);
    names
}

fn ctrl_alt() -> ModifiersState {
    ModifiersState { ctrl: true, alt: true, ..Default::default() }
}

#[test]
fn looked_up_names_are_remembered() {
    let names = names();
    assert_eq!(names.known("Right"), Some(Some(RIGHT)));
    assert_eq!(names.known("not-a-key"), Some(None));
    assert_eq!(names.known("Left"), None);
}

#[test]
fn a_bound_key_fires_its_action() {
    let shortcuts = ZoneShortcuts::default();
    let (action, binding) = match_shortcut(&shortcuts, &ctrl_alt(), &names(), &[RIGHT]).unwrap();
    assert_eq!(action, ZoneAction::CycleNext);
    assert_eq!(binding.key, Some(RIGHT));
    assert_eq!(binding.keycode, None);
    assert_eq!(binding.description.as_deref(), Some("CycleNext"));
    assert_eq!(binding.modifiers, Modifiers { ctrl: true, alt: true, shift: false, logo: false });
    let both = ModifiersState { shift: true, logo: true, ..Default::default() };
    assert_eq!(match_shortcut(&shortcuts, &both, &names(), &[7, GRAVE]).unwrap().0, ZoneAction::OpenEditor);
}

#[test]
fn an_unheld_modifier_or_another_key_fires_nothing() {
    let shortcuts = ZoneShortcuts::default();
    assert!(match_shortcut(&shortcuts, &ModifiersState::default(), &names(), &[RIGHT]).is_none());
    assert!(match_shortcut(&shortcuts, &ctrl_alt(), &names(), &[GRAVE]).is_none());
    assert!(match_shortcut(&shortcuts, &ctrl_alt(), &KeysymNames::new(), &[RIGHT]).is_none());
}

#[test]
fn a_name_that_does_not_resolve_is_skipped() {
    let ctrl = ZoneModifiers { ctrl: true, alt: false, shift: false, logo: false };
    let shortcuts = ZoneShortcuts {
        open_editor: Some(ZoneBinding::new(ctrl, "not-a-key")),
        snap_next: None,
        snap_prev: None,
        grow_span: None,
        shrink_span: None,
        assign_to_workspace: Some(ZoneBinding::new(ctrl, "grave")),
        clear_workspace: Some(ZoneBinding::new(ctrl, "grave")),
    };
    let held = ModifiersState { ctrl: true, ..Default::default() };
    let (action, binding) = match_shortcut(&shortcuts, &held, &names(), &[GRAVE]).unwrap();
    assert_eq!(action, ZoneAction::AssignToWorkspace, "the first of two that match");
    assert_eq!(binding.description.unwrap(), format!("{action:?}"));
}

#[test]
fn actions_are_named_as_they_are_written() {
    for action in [
        ZoneAction::CycleNext,
        ZoneAction::CyclePrev,
        ZoneAction::GrowSpan,
        ZoneAction::ShrinkSpan,
        ZoneAction::OpenEditor,
        ZoneAction::AssignToWorkspace,
        ZoneAction::ClearWorkspace,
    ] {
        assert_eq!(action.name(), format!("{action:?}"));
    }
}

#[test]
fn modifiers_convert_and_compare_field_by_field() {
    for bits in 0..16u8 {
        let held = ModifiersState {
            ctrl: bits & 1 != 0,
            alt: bits & 2 != 0,
            shift: bits & 4 != 0,
            logo: bits & 8 != 0,
        };
        let modifiers = cosmic_modifiers_from_smithay(held);
        assert!(cosmic_modifiers_eq_smithay(&modifiers, &held));
        let other = ModifiersState { shift: !held.shift, ..held };
        assert!(!cosmic_modifiers_eq_smithay(&modifiers, &other));
        assert_eq!(modifiers.logo, held.logo);
    }
}

#[test]
fn only_keys_with_held_modifiers_are_resolved() {
    let ctrl = ZoneModifiers { ctrl: true, alt: false, shift: false, logo: false };
    let alt = ZoneModifiers { ctrl: false, alt: true, shift: false, logo: false };
    let none = ZoneModifiers { ctrl: false, alt: false, shift: false, logo: false };
    let shortcuts = ZoneShortcuts {
        open_editor: None,
        snap_next: Some(ZoneBinding::new(ctrl, "Right")),
        snap_prev: Some(ZoneBinding::new(alt, "Left")),
        grow_span: Some(ZoneBinding::new(none, "Up")),
        shrink_span: Some(ZoneBinding::new(ctrl, "Down")),
        assign_to_workspace: None,
        clear_workspace: Some(ZoneBinding::new(ctrl, "grave")),
    };
    let held = ModifiersState { ctrl: true, shift: true, ..Default::default() };
    assert_eq!(armed_keys(&shortcuts, &held), vec!["Right", "Down", "grave"]);
    assert!(armed_keys(&shortcuts, &ModifiersState::default()).is_empty());
}
