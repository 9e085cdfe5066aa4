//! Settings of zone snapping.

use crate::binary64::Binary64;
use crate::layout::ZoneLayout;
use crate::rect::{fixed, QUARTER, ZERO};
use crate::table::{Key, Table};
use crate::templates::{builtin, default_layouts};
use vstd::prelude::*;

verus! {

/// Which modifier arms zone snapping during a drag.
#[derive(Clone, Copy, Debug, PartialEq, Eq, Hash, Structural)]
pub struct ZoneModifiers {
    pub ctrl: bool,
    pub alt: bool,
    pub shift: bool,
    pub logo: bool,
}

/// A key binding owned by zone snapping.
#[derive(Clone, Debug, PartialEq, Eq, Hash)]
pub struct ZoneBinding {
    pub modifiers: ZoneModifiers,
    /// XKB keysym name, e.g. `"grave"`, `"Left"`, `"1"`.
    pub key: String,
}

#[derive(Clone, Debug, PartialEq)]
pub struct ZoneShortcuts {
    pub open_editor: Option<ZoneBinding>,
    pub snap_next: Option<ZoneBinding>,
    pub snap_prev: Option<ZoneBinding>,
    pub grow_span: Option<ZoneBinding>,
    pub shrink_span: Option<ZoneBinding>,
    pub assign_to_workspace: Option<ZoneBinding>,
    pub clear_workspace: Option<ZoneBinding>,
}

/// Where a given app's windows were last snapped.
#[derive(Clone, Debug, PartialEq)]
pub struct AppZoneMemory {
    pub layout: String,
    pub zones: Vec<usize>,
}

/// App id -> last known zone.
pub type AppZoneMemories = Table<String, AppZoneMemory>;

/// What a monitor reports about itself.
#[derive(Clone, Copy, Debug, PartialEq, Eq, Structural)]
pub struct EdidProduct {
    /// The three letters of the manufacturer, five bits each.
    pub manufacturer: u16,
    pub product: u16,
    pub serial: u32,
}

/// What tells one monitor from another: the connector's name and, where it is
/// known, what the monitor reports.
#[derive(Clone, Debug)]
pub struct OutputMatch {
    pub name: String,
    pub edid: Option<EdidProduct>,
}

#[derive(Debug)]
pub struct ZonesConfig {
    pub enabled: bool,
    /// Modifier that arms zone snapping mid-drag. Default: shift.
    pub modifier: ZoneModifiers,
    /// Allow a window to span several adjacent zones.
    pub spanning: bool,
    /// Distance from a shared edge, in logical pixels, at which both adjacent
    /// zones activate. Converted to a fraction against the output before use.
    pub adjacent_highlight_distance: u32,
    pub show_zone_numbers: bool,
    /// Opacity of non-targeted zones in the drag overlay, 0-100.
    pub inactive_opacity: u8,
    /// Space between snapped windows, in logical pixels. `None` follows the
    /// theme.
    pub gap: Option<u32>,
    /// Auto-place a new window into the zone its app last occupied.
    pub remember_apps: bool,
    /// Layout id -> layout.
    pub layouts: Table<String, ZoneLayout>,
    /// Monitor -> layout id.
    pub per_output: Table<OutputMatch, String>,
    /// Workspace id -> layout id. Takes precedence over `per_output`.
    pub per_workspace: Table<String, String>,
    /// App id -> last known zone.
    pub app_memory: AppZoneMemories,
    pub shortcuts: ZoneShortcuts,
}

impl View for OutputMatch {
    type V = (Seq<char>, Option<EdidProduct>);

    open spec fn view(&self) -> (Seq<char>, Option<EdidProduct>) {
        (self.name@, self.edid)
    }
}

impl Key for OutputMatch {
    fn same_key(&self, other: &Self) -> (r: bool) {
        if !self.name.same_key(&other.name) {
            return false;
        }
        match (&self.edid, &other.edid) {
            (Some(a), Some(b)) => *a == *b,
            (None, None) => true,
            _ => false,
        }
    }
}

impl ZoneModifiers {
    /// Whether nothing is asked for.
    pub open spec fn is_none(self) -> bool {
        !self.ctrl && !self.alt && !self.shift && !self.logo
    }
}

impl Default for ZoneModifiers {
    fn default() -> (r: Self)
        ensures
            r == (ZoneModifiers { ctrl: false, alt: false, shift: true, logo: false }),
    {
        ZoneModifiers { ctrl: false, alt: false, shift: true, logo: false }
    }
}

impl ZoneBinding {
    pub fn new(modifiers: ZoneModifiers, key: &str) -> (r: Self)
        ensures
            r.modifiers == modifiers,
            r.key@ == key@,
    {
        ZoneBinding { modifiers, key: key.to_owned() }
    }

    /// Whether the binding asks for these modifiers and this key.
    pub open spec fn asks(self, modifiers: ZoneModifiers, key: Seq<char>) -> bool {
        self.modifiers == modifiers && self.key@ == key
    }
}

/// Whether a shortcut is bound to these modifiers and this key.
pub open spec fn bound(binding: Option<ZoneBinding>, modifiers: ZoneModifiers, key: Seq<char>) -> bool {
    binding matches Some(b) && b.asks(modifiers, key)
}

/// The modifiers that the movement shortcuts start out with.
pub open spec fn movement_modifiers() -> ZoneModifiers {
    ZoneModifiers { ctrl: true, alt: true, shift: false, logo: false }
}

impl ZoneShortcuts {
    /// The shortcuts that a config starts out with.
    pub open spec fn is_initial(self) -> bool {
        &&& bound(
            self.open_editor,
            (ZoneModifiers { ctrl: false, alt: false, shift: true, logo: true }),
            "grave"@,
        )
        &&& bound(self.snap_next, movement_modifiers(), "Right"@)
        &&& bound(self.snap_prev, movement_modifiers(), "Left"@)
        &&& bound(self.grow_span, movement_modifiers(), "Up"@)
        &&& bound(self.shrink_span, movement_modifiers(), "Down"@)
        &&& self.assign_to_workspace is None
        &&& self.clear_workspace is None
    }

    /// The shortcuts that move a window from zone to zone or resize its span.
    pub open spec fn movement(self) -> Seq<Option<ZoneBinding>> {
        seq![self.snap_next, self.snap_prev, self.grow_span, self.shrink_span]
    }
}

impl Default for ZoneShortcuts {
    fn default() -> (r: Self)
        ensures
            r.is_initial(),
    {
        let logo_shift = ZoneModifiers { ctrl: false, alt: false, shift: true, logo: true };
        let ctrl_alt = ZoneModifiers { ctrl: true, alt: true, shift: false, logo: false };
        ZoneShortcuts {
            open_editor: Some(ZoneBinding::new(logo_shift, "grave")),
            snap_next: Some(ZoneBinding::new(ctrl_alt, "Right")),
            snap_prev: Some(ZoneBinding::new(ctrl_alt, "Left")),
            grow_span: Some(ZoneBinding::new(ctrl_alt, "Up")),
            shrink_span: Some(ZoneBinding::new(ctrl_alt, "Down")),
            assign_to_workspace: None,
            clear_workspace: None,
        }
    }
}

/// The default movement shortcuts never ask for Super, which every arrow shortcut
/// of the desktop itself uses.
pub proof fn movement_defaults_leave_super_alone(shortcuts: ZoneShortcuts)
    requires
        shortcuts.is_initial(),
    ensures
        forall|i: int|
            0 <= i < 4 ==> (#[trigger] shortcuts.movement()[i] matches Some(binding) && !binding.modifiers.logo),
{
}

impl Default for ZonesConfig {
    fn default() -> (r: Self)
        ensures
            r.enabled,
            r.modifier == (ZoneModifiers { ctrl: false, alt: false, shift: true, logo: false }),
            r.spanning,
            r.adjacent_highlight_distance == 16,
            r.show_zone_numbers,
            r.inactive_opacity == 50,
            r.gap is None,
            !r.remember_apps,
            forall|id: Seq<char>| #[trigger] r.layouts@.contains_key(id) <==> builtin(id) is Some,
            forall|id: Seq<char>| #[trigger] r.layouts@.contains_key(id) ==> builtin(id) == Some(r.layouts@[id]@),
            r.per_output@ == Map::<(Seq<char>, Option<EdidProduct>), String>::empty(),
            r.per_workspace@ == Map::<Seq<char>, String>::empty(),
            r.app_memory@ == Map::<Seq<char>, AppZoneMemory>::empty(),
            r.shortcuts.is_initial(),
    {
        ZonesConfig {
            enabled: true,
            modifier: ZoneModifiers::default(),
            spanning: true,
            adjacent_highlight_distance: 16,
            show_zone_numbers: true,
            inactive_opacity: 50,
            gap: None,
            remember_apps: false,
            layouts: default_layouts(),
            per_output: Table::new(),
            per_workspace: Table::new(),
            app_memory: Table::new(),
            shortcuts: ZoneShortcuts::default(),
        }
    }
}

/// Id of the layout that an output shows: its workspace's, else the one assigned
/// to the very monitor, else the one assigned to whatever is on its connector.
pub open spec fn assigned(
    per_workspace: Map<Seq<char>, String>,
    per_output: Map<(Seq<char>, Option<EdidProduct>), String>,
    output: (Seq<char>, Option<EdidProduct>),
    workspace: Option<Seq<char>>,
) -> Option<Seq<char>> {
    let by_name = (output.0, None::<EdidProduct>);
    if workspace is Some && per_workspace.contains_key(workspace->0) {
        Some(per_workspace[workspace->0]@)
    } else if per_output.contains_key(output) {
        Some(per_output[output]@)
    } else if per_output.contains_key(by_name) {
        Some(per_output[by_name]@)
    } else {
        None
    }
}

/// The characters of an optional string.
pub open spec fn characters(text: Option<&str>) -> Option<Seq<char>> {
    match text {
        Some(t) => Some(t@),
        None => None,
    }
}

impl ZonesConfig {
    /// Id of the layout for an output on a workspace.
    pub open spec fn assigned_id(
        self,
        output: (Seq<char>, Option<EdidProduct>),
        workspace: Option<Seq<char>>,
    ) -> Option<Seq<char>> {
        assigned(self.per_workspace@, self.per_output@, output, workspace)
    }

    /// Whether two configs differ at most in the layouts.
    pub open spec fn same_but_layouts(self, other: ZonesConfig) -> bool {
        self == ZonesConfig { layouts: self.layouts, ..other }
    }

    /// Whether two configs differ at most in what is assigned to outputs and
    /// workspaces.
    pub open spec fn same_but_assignments(self, other: ZonesConfig) -> bool {
        self == ZonesConfig { per_output: self.per_output, per_workspace: self.per_workspace, ..other }
    }

    /// Whether two configs differ at most in the gap.
    pub open spec fn same_but_gap(self, other: ZonesConfig) -> bool {
        self == ZonesConfig { gap: self.gap, ..other }
    }

    pub open spec fn threshold(self, width: i32, height: i32) -> Binary64 {
        if !self.spanning {
            Binary64 { bits: ZERO }
        } else {
            let least = if width <= height {
                width
            } else {
                height
            };
            let axis = if least >= 1 {
                least
            } else {
                1
            };
            Binary64::spec_count(self.adjacent_highlight_distance as u64).over(Binary64::spec_whole(axis)).bounded(
                Binary64 { bits: ZERO },
                Binary64 { bits: QUARTER },
            )
        }
    }

    pub open spec fn gaps_in_force(self, theme: (i32, i32)) -> (i32, i32) {
        match self.gap {
            Some(gap) => {
                let g = if gap <= i32::MAX {
                    gap as i32
                } else {
                    i32::MAX
                };
                (g, g)
            },
            None => theme,
        }
    }

    /// Id of the layout for an output/workspace pair. A per-workspace assignment
    /// wins over the monitor default. Where the monitor itself has none, the
    /// assignment to its connector's name is taken: whoever cannot see what the
    /// monitor reports can still assign a layout to it.
    pub fn layout_id_for(&self, output: &OutputMatch, workspace_id: Option<&str>) -> (r: Option<&String>)
        ensures
            match r {
                Some(id) => self.assigned_id(output@, characters(workspace_id)) == Some(id@),
                None => self.assigned_id(output@, characters(workspace_id)) is None,
            },
    {
        if let Some(workspace) = workspace_id {
            let key = workspace.to_owned();
            if let Some(id) = self.per_workspace.get(&key) {
                return Some(id);
            }
        }
        if let Some(id) = self.per_output.get(output) {
            return Some(id);
        }
        let by_name = OutputMatch { name: output.name.clone(), edid: None };
        self.per_output.get(&by_name)
    }

    /// Layout for an output/workspace pair.
    pub fn layout_for(&self, output: &OutputMatch, workspace_id: Option<&str>) -> (r: Option<&ZoneLayout>)
        ensures
            match r {
                Some(layout) => self.assigned_id(output@, characters(workspace_id)) matches Some(id)
                    && self.layouts@.contains_key(id) && *layout == self.layouts@[id],
                None => self.assigned_id(output@, characters(workspace_id)) matches Some(id)
                    ==> !self.layouts@.contains_key(id),
            },
    {
        match self.layout_id_for(output, workspace_id) {
            Some(id) => self.layouts.get(id),
            None => None,
        }
    }

    /// `adjacent_highlight_distance` as a fraction of an output that is `width` x
    /// `height` logical pixels. Uses the smaller axis so the threshold feels the
    /// same horizontally and vertically.
    pub fn edge_threshold_fraction(&self, width: i32, height: i32) -> (r: Binary64)
        ensures
            r == self.threshold(width, height),
    {
        if !self.spanning {
            return fixed(ZERO);
        }
        let least: i32 = if width <= height {
            width
        } else {
            height
        };
        let axis: i32 = if least >= 1 {
            least
        } else {
            1
        };
        Binary64::count(self.adjacent_highlight_distance as u64).over(Binary64::whole(axis)).bounded(
            fixed(ZERO),
            fixed(QUARTER),
        )
    }

    /// The gaps to lay zones out with: the configured one, else the theme's.
    pub fn gaps_or(&self, theme: (i32, i32)) -> (r: (i32, i32))
        ensures
            r == self.gaps_in_force(theme),
    {
        match self.gap {
            Some(gap) => {
                let g: i32 = if gap <= i32::MAX as u32 {
                    gap as i32
                } else {
                    i32::MAX
                };
                (g, g)
            },
            None => theme,
        }
    }
}

/// A layout assigned to a workspace is shown on it, whatever the monitor's is.
pub proof fn workspace_layout_beats_monitor_layout(
    config: ZonesConfig,
    output: (Seq<char>, Option<EdidProduct>),
    workspace: Seq<char>,
)
    requires
        config.per_workspace@.contains_key(workspace),
    ensures
        config.assigned_id(output, Some(workspace)) == Some(config.per_workspace@[workspace]@),
{
}

/// On a workspace without a layout of its own, the monitor's layout is shown.
pub proof fn unassigned_workspace_falls_back(
    config: ZonesConfig,
    output: (Seq<char>, Option<EdidProduct>),
    workspace: Seq<char>,
)
    requires
        !config.per_workspace@.contains_key(workspace),
    ensures
        config.assigned_id(output, Some(workspace)) == config.assigned_id(output, None),
{
}

/// A layout assigned by connector name alone reaches the monitor on it, whatever
/// the monitor reports about itself, unless that monitor has one of its own.
pub proof fn connector_name_reaches_any_monitor(
    config: ZonesConfig,
    name: Seq<char>,
    edid: Option<EdidProduct>,
)
    requires
        config.per_output@.contains_key((name, None)),
        !config.per_output@.contains_key((name, edid)) || edid is None,
    ensures
        config.assigned_id((name, edid), None) == Some(config.per_output@[(name, None)]@),
{
}

/// A layout assigned to the very monitor is shown on it, whatever is assigned to its
/// connector.
pub proof fn monitor_layout_beats_connector_layout(config: ZonesConfig, output: (Seq<char>, Option<EdidProduct>))
    requires
        config.per_output@.contains_key(output),
    ensures
        config.assigned_id(output, None) == Some(config.per_output@[output]@),
{
}

/// The configured gap holds on both sides of a window, whatever the theme's are.
pub proof fn configured_gaps_hold_everywhere(config: ZonesConfig, theme: (i32, i32), other: (i32, i32), gap: u32)
    requires
        config.gap == Some(gap),
    ensures
        config.gaps_in_force(theme) == config.gaps_in_force(other),
        config.gaps_in_force(theme).0 == config.gaps_in_force(theme).1,
        gap <= i32::MAX ==> config.gaps_in_force(theme).1 == gap,
{
}

} // verus!
