//! Matching held modifiers and pressed keys against the configured ones.

use crate::config::{ZoneBinding, ZoneModifiers, ZoneShortcuts};
use crate::table::Table;
use vstd::prelude::*;

verus! {

/// The modifiers that are held right now.
#[derive(Clone, Copy, Debug, PartialEq, Eq, Structural)]
pub struct ModifiersState {
    pub ctrl: bool,
    pub alt: bool,
    pub shift: bool,
    pub logo: bool,
}

/// The modifiers of an entry in the shortcut table.
#[derive(Clone, Copy, Debug, PartialEq, Eq, Structural)]
pub struct Modifiers {
    pub ctrl: bool,
    pub alt: bool,
    pub shift: bool,
    pub logo: bool,
}

/// An entry in the shortcut table.
#[derive(Clone, Debug, PartialEq, Eq)]
pub struct Binding {
    pub modifiers: Modifiers,
    /// Raw keysym.
    pub key: Option<u32>,
    pub keycode: Option<u32>,
    pub description: Option<String>,
}

/// Zone actions triggered by our own bindings.
///
/// They are matched ahead of the standard shortcut table.
#[derive(Clone, Copy, Debug, PartialEq, Eq, Structural)]
pub enum ZoneAction {
    /// Move the focused window to the next zone in the layout.
    CycleNext,
    /// Move the focused window to the previous zone.
    CyclePrev,
    /// Extend the focused window's span by one adjacent zone.
    GrowSpan,
    /// Reduce the focused window's span by one zone.
    ShrinkSpan,
    /// Launch the zone editor.
    OpenEditor,
    /// Pin the monitor's layout to the active workspace.
    AssignToWorkspace,
    /// Drop that assignment, reverting to the monitor default.
    ClearWorkspace,
}

/// The raw keysym that stands for no symbol at all.
pub const NO_SYMBOL: u32 = 0;

/// What keysym names resolve to, as far as they have been looked up.
///
/// Nothing is ever evicted: the names are those of configured bindings, so the
/// memory grows only when a binding is changed to a name not used before.
#[derive(Debug)]
pub struct KeysymNames {
    pub names: Table<String, Option<u32>>,
}

impl Default for ModifiersState {
    fn default() -> (r: Self)
        ensures
            r == (ModifiersState { ctrl: false, alt: false, shift: false, logo: false }),
    {
        ModifiersState { ctrl: false, alt: false, shift: false, logo: false }
    }
}

/// Whether the modifiers held arm what these are configured for: all of them are
/// held, and there are some.
pub open spec fn arms(want: ZoneModifiers, have: ModifiersState) -> bool {
    &&& !want.is_none()
    &&& want.ctrl ==> have.ctrl
    &&& want.alt ==> have.alt
    &&& want.shift ==> have.shift
    &&& want.logo ==> have.logo
}

/// Does the currently held modifier set arm zone snapping?
///
/// The configured modifiers must all be held; anything *extra* is ignored. An
/// exact match would break the common case, because Super+drag is how a window
/// move starts.
pub fn modifiers_match(want: &ZoneModifiers, have: &ModifiersState) -> (r: bool)
    ensures
        r == arms(*want, *have),
{
    // An empty configuration would otherwise arm zones on every drag.
    if !(want.ctrl || want.alt || want.shift || want.logo) {
        return false;
    }
    (!want.ctrl || have.ctrl) && (!want.alt || have.alt) && (!want.shift || have.shift) && (!want.logo
        || have.logo)
}

/// Holding more modifiers never disarms.
pub proof fn extra_modifiers_do_not_disarm(want: ZoneModifiers, have: ModifiersState, more: ModifiersState)
    requires
        arms(want, have),
        have.ctrl ==> more.ctrl,
        have.alt ==> more.alt,
        have.shift ==> more.shift,
        have.logo ==> more.logo,
    ensures
        arms(want, more),
{
}

/// An empty set of modifiers arms nothing, whatever is held.
pub proof fn empty_modifiers_never_arm(want: ZoneModifiers, have: ModifiersState)
    requires
        want.is_none(),
    ensures
        !arms(want, have),
{
}

/// Compare the modifiers of a shortcut with those that are held.
pub fn cosmic_modifiers_eq_smithay(this: &Modifiers, other: &ModifiersState) -> (r: bool)
    ensures
        r == (*this == modifiers_of(*other)),
{
    this.ctrl == other.ctrl && this.alt == other.alt && this.shift == other.shift && this.logo == other.logo
}

/// The modifiers of a shortcut that asks for exactly what is held.
pub open spec fn modifiers_of(value: ModifiersState) -> Modifiers {
    Modifiers { ctrl: value.ctrl, alt: value.alt, shift: value.shift, logo: value.logo }
}

/// The modifiers of a shortcut that asks for exactly what is held.
pub fn cosmic_modifiers_from_smithay(value: ModifiersState) -> (r: Modifiers)
    ensures
        r == modifiers_of(value),
{
    Modifiers { ctrl: value.ctrl, alt: value.alt, shift: value.shift, logo: value.logo }
}

/// What a raw keysym resolves a name to.
pub open spec fn known_symbol(raw: u32) -> Option<u32> {
    if raw == NO_SYMBOL {
        None
    } else {
        Some(raw)
    }
}

impl KeysymNames {
    pub fn new() -> (r: Self)
        ensures
            r.names@ == Map::<Seq<char>, Option<u32>>::empty(),
    {
        KeysymNames { names: Table::new() }
    }

    /// What a name is known to resolve to; `None` where it has not been looked up.
    pub fn known(&self, name: &str) -> (r: Option<Option<u32>>)
        ensures
            match r {
                Some(symbol) => self.names@.contains_key(name@) && symbol == self.names@[name@],
                None => !self.names@.contains_key(name@),
            },
    {
        match self.names.get(&name.to_owned()) {
            Some(symbol) => Some(*symbol),
            None => None,
        }
    }

    /// Remember the raw keysym that a look-up of a name gave.
    pub fn record(&mut self, name: &str, raw: u32) -> (r: Option<u32>)
        ensures
            r == known_symbol(raw),
            final(self).names@ == old(self).names@.insert(name@, known_symbol(raw)),
    {
        let symbol = if raw == NO_SYMBOL {
            None
        } else {
            Some(raw)
        };
        self.names.insert(name.to_owned(), symbol);
        symbol
    }
}

impl ZoneAction {
    pub open spec fn title(self) -> Seq<char> {
        match self {
            ZoneAction::CycleNext => "CycleNext"@,
            ZoneAction::CyclePrev => "CyclePrev"@,
            ZoneAction::GrowSpan => "GrowSpan"@,
            ZoneAction::ShrinkSpan => "ShrinkSpan"@,
            ZoneAction::OpenEditor => "OpenEditor"@,
            ZoneAction::AssignToWorkspace => "AssignToWorkspace"@,
            ZoneAction::ClearWorkspace => "ClearWorkspace"@,
        }
    }

    /// The action's name.
    pub fn name(self) -> (r: String)
        ensures
            r@ == self.title(),
    {
        match self {
            ZoneAction::CycleNext => "CycleNext".to_owned(),
            ZoneAction::CyclePrev => "CyclePrev".to_owned(),
            ZoneAction::GrowSpan => "GrowSpan".to_owned(),
            ZoneAction::ShrinkSpan => "ShrinkSpan".to_owned(),
            ZoneAction::OpenEditor => "OpenEditor".to_owned(),
            ZoneAction::AssignToWorkspace => "AssignToWorkspace".to_owned(),
            ZoneAction::ClearWorkspace => "ClearWorkspace".to_owned(),
        }
    }
}

/// The bindings in the order they are tried, each with its action.
pub open spec fn candidates(shortcuts: ZoneShortcuts) -> Seq<(Option<ZoneBinding>, ZoneAction)> {
    seq![
        (shortcuts.open_editor, ZoneAction::OpenEditor),
        (shortcuts.snap_next, ZoneAction::CycleNext),
        (shortcuts.snap_prev, ZoneAction::CyclePrev),
        (shortcuts.grow_span, ZoneAction::GrowSpan),
        (shortcuts.shrink_span, ZoneAction::ShrinkSpan),
        (shortcuts.assign_to_workspace, ZoneAction::AssignToWorkspace),
        (shortcuts.clear_workspace, ZoneAction::ClearWorkspace),
    ]
}

/// The keysym by which a binding fires: its modifiers are held, its name is known
/// to resolve, and the pressed key yields that symbol.
pub open spec fn firing(
    binding: Option<ZoneBinding>,
    modifiers: ModifiersState,
    names: Map<Seq<char>, Option<u32>>,
    pressed: Seq<u32>,
) -> Option<u32> {
    match binding {
        Some(b) => if arms(b.modifiers, modifiers) && names.contains_key(b.key@) && names[b.key@] is Some
            && pressed.contains(names[b.key@]->0) {
            names[b.key@]
        } else {
            None
        },
        None => None,
    }
}

/// Whether `found` is the first of the candidates that fires, together with its
/// entry for the shortcut table.
pub open spec fn first_firing(
    shortcuts: ZoneShortcuts,
    modifiers: ModifiersState,
    names: Map<Seq<char>, Option<u32>>,
    pressed: Seq<u32>,
    found: Option<(ZoneAction, Binding)>,
) -> bool {
    let all = candidates(shortcuts);
    match found {
        Some((action, entry)) => exists|i: int|
            {
                &&& 0 <= i < all.len()
                &&& (#[trigger] all[i]).1 == action
                &&& firing(all[i].0, modifiers, names, pressed) is Some
                &&& forall|j: int| 0 <= j < i ==> firing((#[trigger] all[j]).0, modifiers, names, pressed) is None
                &&& is_entry_for(all[i].0->0, action, firing(all[i].0, modifiers, names, pressed), entry)
            },
        None => forall|j: int|
            0 <= j < all.len() ==> firing((#[trigger] all[j]).0, modifiers, names, pressed) is None,
    }
}

/// The shortcut table's entry for a binding.
pub open spec fn is_entry_for(binding: ZoneBinding, action: ZoneAction, key: Option<u32>, entry: Binding) -> bool {
    &&& entry.modifiers == Modifiers {
        ctrl: binding.modifiers.ctrl,
        alt: binding.modifiers.alt,
        shift: binding.modifiers.shift,
        logo: binding.modifiers.logo,
    }
    &&& entry.key == key
    &&& entry.keycode is None
    &&& entry.description matches Some(text) && text@ == action.title()
}

/// How many bindings there are.
pub const BINDINGS: usize = 7;

/// The binding that is tried in a place of the order, with its action.
fn candidate(shortcuts: &ZoneShortcuts, i: usize) -> (r: (&Option<ZoneBinding>, ZoneAction))
    requires
        i < BINDINGS,
    ensures
        candidates(*shortcuts).len() == BINDINGS,
        (*r.0, r.1) == candidates(*shortcuts)[i as int],
{
    if i == 0 {
        (&shortcuts.open_editor, ZoneAction::OpenEditor)
    } else if i == 1 {
        (&shortcuts.snap_next, ZoneAction::CycleNext)
    } else if i == 2 {
        (&shortcuts.snap_prev, ZoneAction::CyclePrev)
    } else if i == 3 {
        (&shortcuts.grow_span, ZoneAction::GrowSpan)
    } else if i == 4 {
        (&shortcuts.shrink_span, ZoneAction::ShrinkSpan)
    } else if i == 5 {
        (&shortcuts.assign_to_workspace, ZoneAction::AssignToWorkspace)
    } else {
        (&shortcuts.clear_workspace, ZoneAction::ClearWorkspace)
    }
}

/// The key names of those of the first `n` bindings whose modifiers are held, in
/// the order they are tried.
pub open spec fn armed_names(shortcuts: ZoneShortcuts, modifiers: ModifiersState, n: nat) -> Seq<Seq<char>>
    decreases n,
{
    if n == 0 {
        Seq::empty()
    } else {
        let before = armed_names(shortcuts, modifiers, (n - 1) as nat);
        match candidates(shortcuts)[n - 1].0 {
            Some(b) => if arms(b.modifiers, modifiers) {
                before.push(b.key@)
            } else {
                before
            },
            None => before,
        }
    }
}

/// The names that have to be resolved before a key press is matched: the keys of
/// the bindings whose modifiers are held, in the order they are tried.
///
/// Modifiers first: this runs for every key press, and comparing four booleans is
/// free next to resolving a name.
pub fn armed_keys(shortcuts: &ZoneShortcuts, modifiers: &ModifiersState) -> (r: Vec<String>)
    ensures
        Seq::new(r@.len(), |i: int| r@[i]@) == armed_names(*shortcuts, *modifiers, BINDINGS as nat),
{
    let mut names: Vec<String> = Vec::new();
    let mut i: usize = 0;
    assert(Seq::new(names@.len(), |k: int| names@[k]@) == armed_names(*shortcuts, *modifiers, 0));
    while i < BINDINGS
        invariant
            i <= BINDINGS,
            Seq::new(names@.len(), |k: int| names@[k]@) == armed_names(*shortcuts, *modifiers, i as nat),
        decreases BINDINGS - i,
    {
        let (binding, _) = candidate(shortcuts, i);
        let ghost before = Seq::new(names@.len(), |k: int| names@[k]@);
        if let Some(b) = binding {
            if modifiers_match(&b.modifiers, modifiers) {
                names.push(b.key.clone());
                assert(Seq::new(names@.len(), |k: int| names@[k]@) == before.push(b.key@));
            }
        }
        i = i + 1;
    }
    names
}

/// Resolving the armed keys is enough: whatever else is known of other names, the
/// same binding fires.
pub proof fn armed_keys_are_enough(
    shortcuts: ZoneShortcuts,
    modifiers: ModifiersState,
    names: Map<Seq<char>, Option<u32>>,
    others: Map<Seq<char>, Option<u32>>,
    pressed: Seq<u32>,
    found: Option<(ZoneAction, Binding)>,
)
    requires
        forall|k: int|
            #![trigger armed_names(shortcuts, modifiers, BINDINGS as nat)[k]]
            0 <= k < armed_names(shortcuts, modifiers, BINDINGS as nat).len() ==> {
                let name = armed_names(shortcuts, modifiers, BINDINGS as nat)[k];
                names.contains_key(name) && others.contains_key(name) && names[name] == others[name]
            },
        first_firing(shortcuts, modifiers, names, pressed, found),
    ensures
        first_firing(shortcuts, modifiers, others, pressed, found),
{
    let all = candidates(shortcuts);
    assert forall|i: int| #![trigger all[i]] 0 <= i < all.len() implies firing(all[i].0, modifiers, names, pressed)
        == firing(all[i].0, modifiers, others, pressed) by {
        if let Some(b) = all[i].0 {
            if arms(b.modifiers, modifiers) {
                lemma_armed(shortcuts, modifiers, BINDINGS as nat, i);
            }
        }
    }
}

/// The key of a binding whose modifiers are held is among the armed ones.
proof fn lemma_armed(shortcuts: ZoneShortcuts, modifiers: ModifiersState, n: nat, i: int) -> (k: int)
    requires
        0 <= i < n <= BINDINGS,
        candidates(shortcuts)[i].0 is Some,
        arms(candidates(shortcuts)[i].0->0.modifiers, modifiers),
    ensures
        0 <= k < armed_names(shortcuts, modifiers, n).len(),
        armed_names(shortcuts, modifiers, n)[k] == candidates(shortcuts)[i].0->0.key@,
    decreases n,
{
    if i == n - 1 {
        armed_names(shortcuts, modifiers, n).len() - 1
    } else {
        lemma_armed(shortcuts, modifiers, (n - 1) as nat, i)
    }
}

/// Whether a keysym is among those that a key yields.
fn yields(pressed: &[u32], symbol: u32) -> (r: bool)
    ensures
        r == pressed@.contains(symbol),
{
    let mut k: usize = 0;
    while k < pressed.len()
        invariant
            k <= pressed@.len(),
            forall|j: int| 0 <= j < k ==> pressed@[j] != symbol,
        decreases pressed@.len() - k,
    {
        if pressed[k] == symbol {
            return true;
        }
        k = k + 1;
    }
    false
}

/// The entry of one binding, if it fires.
fn try_binding(
    binding: &Option<ZoneBinding>,
    action: ZoneAction,
    modifiers: &ModifiersState,
    names: &KeysymNames,
    pressed: &[u32],
) -> (r: Option<(ZoneAction, Binding)>)
    ensures
        match r {
            Some((a, entry)) => {
                &&& a == action
                &&& firing(*binding, *modifiers, names.names@, pressed@) is Some
                &&& is_entry_for(
                    binding->0,
                    action,
                    firing(*binding, *modifiers, names.names@, pressed@),
                    entry,
                )
            },
            None => firing(*binding, *modifiers, names.names@, pressed@) is None,
        },
{
    let b = match binding {
        Some(b) => b,
        None => return None,
    };
    // Modifiers first: this runs for every key press, and comparing four booleans
    // is free next to looking up a name.
    if !modifiers_match(&b.modifiers, modifiers) {
        return None;
    }
    let symbol: u32 = match names.names.get(&b.key) {
        Some(Some(symbol)) => *symbol,
        _ => return None,
    };
    if !yields(pressed, symbol) {
        return None;
    }
    Some(
        (
            action,
            Binding {
                modifiers: Modifiers {
                    ctrl: b.modifiers.ctrl,
                    alt: b.modifiers.alt,
                    shift: b.modifiers.shift,
                    logo: b.modifiers.logo,
                },
                key: Some(symbol),
                keycode: None,
                description: Some(action.name()),
            },
        ),
    )
}

/// Match a key press against the zone bindings.
///
/// `pressed` holds the keysyms that the pressed key yields, and `names` what the
/// [armed keys](armed_keys) resolve to. Returns the action and an entry in the shape
/// that the shortcut table has.
pub fn match_shortcut(
    shortcuts: &ZoneShortcuts,
    modifiers: &ModifiersState,
    names: &KeysymNames,
    pressed: &[u32],
) -> (r: Option<(ZoneAction, Binding)>)
    ensures
        first_firing(*shortcuts, *modifiers, names.names@, pressed@, r),
{
    let ghost all = candidates(*shortcuts);
    let mut i: usize = 0;
    while i < BINDINGS
        invariant
            i <= BINDINGS,
            all == candidates(*shortcuts),
            forall|j: int| 0 <= j < i ==> firing((#[trigger] all[j]).0, *modifiers, names.names@, pressed@) is None,
        decreases BINDINGS - i,
    {
        let (binding, action) = candidate(shortcuts, i);
        assert(all[i as int] == (*binding, action));
        let found = try_binding(binding, action, modifiers, names, pressed);
        if found.is_some() {
            return found;
        }
        i = i + 1;
    }
    None
}

/// Arming takes every modifier that is asked for: with any of them let go nothing is
/// armed, with exactly those held it is.
pub proof fn arming_takes_every_modifier(want: ZoneModifiers, have: ModifiersState)
    ensures
        want.ctrl && !have.ctrl ==> !arms(want, have),
        want.alt && !have.alt ==> !arms(want, have),
        want.shift && !have.shift ==> !arms(want, have),
        want.logo && !have.logo ==> !arms(want, have),
        (want.ctrl || want.alt || want.shift || want.logo) && have == (ModifiersState {
            ctrl: want.ctrl,
            alt: want.alt,
            shift: want.shift,
            logo: want.logo,
        }) ==> arms(want, have),
{
}

/// A shortcut that asks for what is held asks for each modifier that is held and for no
/// other.
pub proof fn shortcuts_ask_for_what_is_held(held: ModifiersState)
    ensures
        modifiers_of(held).ctrl == held.ctrl,
        modifiers_of(held).alt == held.alt,
        modifiers_of(held).shift == held.shift,
        modifiers_of(held).logo == held.logo,
{
}

/// Whether a binding fires.
pub open spec fn fires(
    binding: Option<ZoneBinding>,
    modifiers: ModifiersState,
    names: Map<Seq<char>, Option<u32>>,
    pressed: Seq<u32>,
) -> bool {
    firing(binding, modifiers, names, pressed) is Some
}

/// Each binding fires its own action: whatever fires, it is the action of a binding
/// that does, and a binding that fires alone is the one that is found.
pub proof fn bindings_fire_their_own_action(
    shortcuts: ZoneShortcuts,
    modifiers: ModifiersState,
    names: Map<Seq<char>, Option<u32>>,
    pressed: Seq<u32>,
    found: Option<(ZoneAction, Binding)>,
)
    requires
        first_firing(shortcuts, modifiers, names, pressed, found),
    ensures
        found matches Some((action, entry)) ==> fires(
            match action {
                ZoneAction::OpenEditor => shortcuts.open_editor,
                ZoneAction::CycleNext => shortcuts.snap_next,
                ZoneAction::CyclePrev => shortcuts.snap_prev,
                ZoneAction::GrowSpan => shortcuts.grow_span,
                ZoneAction::ShrinkSpan => shortcuts.shrink_span,
                ZoneAction::AssignToWorkspace => shortcuts.assign_to_workspace,
                ZoneAction::ClearWorkspace => shortcuts.clear_workspace,
            },
            modifiers,
            names,
            pressed,
        ),
        found is None ==> {
            &&& !fires(shortcuts.open_editor, modifiers, names, pressed)
            &&& !fires(shortcuts.snap_next, modifiers, names, pressed)
            &&& !fires(shortcuts.snap_prev, modifiers, names, pressed)
            &&& !fires(shortcuts.grow_span, modifiers, names, pressed)
            &&& !fires(shortcuts.shrink_span, modifiers, names, pressed)
            &&& !fires(shortcuts.assign_to_workspace, modifiers, names, pressed)
            &&& !fires(shortcuts.clear_workspace, modifiers, names, pressed)
        },
{
    let all = candidates(shortcuts);
    assert(all[0] == (shortcuts.open_editor, ZoneAction::OpenEditor));
    assert(all[1] == (shortcuts.snap_next, ZoneAction::CycleNext));
    assert(all[2] == (shortcuts.snap_prev, ZoneAction::CyclePrev));
    assert(all[3] == (shortcuts.grow_span, ZoneAction::GrowSpan));
    assert(all[4] == (shortcuts.shrink_span, ZoneAction::ShrinkSpan));
    assert(all[5] == (shortcuts.assign_to_workspace, ZoneAction::AssignToWorkspace));
    assert(all[6] == (shortcuts.clear_workspace, ZoneAction::ClearWorkspace));
}

/// What fires is held: every modifier of the entry that is found is, and its key is
/// among those that are pressed.
pub proof fn what_fires_is_held(
    shortcuts: ZoneShortcuts,
    modifiers: ModifiersState,
    names: Map<Seq<char>, Option<u32>>,
    pressed: Seq<u32>,
    action: ZoneAction,
    entry: Binding,
)
    requires
        first_firing(shortcuts, modifiers, names, pressed, Some((action, entry))),
    ensures
        entry.modifiers.ctrl ==> modifiers.ctrl,
        entry.modifiers.alt ==> modifiers.alt,
        entry.modifiers.shift ==> modifiers.shift,
        entry.modifiers.logo ==> modifiers.logo,
        entry.modifiers.ctrl || entry.modifiers.alt || entry.modifiers.shift || entry.modifiers.logo,
        entry.key matches Some(key) && pressed.contains(key),
{
}

} // verus!
