//! Editor application state: which outputs show an overlay, which layout is edited
//! on each of them, and what saving writes.

use crate::config::{EdidProduct, OutputMatch, ZonesConfig};
use crate::layout::{LayoutView, ZoneLayout};
use crate::rect::ZoneRect;
use crate::table::{distinct_keys, lemma_mapping, mapping, Key, Table};
use crate::templates::{builtin, is_builtin, DEFAULT_LAYOUT_ID};
use crate::text::{decimal, digits, lemma_digits_differ};
use vstd::prelude::*;
use vstd::string::*;

verus! {

/// An output we have opened an overlay on.
#[derive(Debug)]
pub struct EditorOutput {
    /// Which output this is. Kept so removal can be matched by identity: an output
    /// that goes away does not tell its name.
    pub wl_output: u64,
    pub name: String,
    pub logical_size: (u32, u32),
    /// Layout id currently being edited on this output.
    pub layout_id: String,
}

/// What happens to an output.
#[derive(Clone, Copy, Debug, PartialEq, Eq, Structural)]
pub enum OutputEvent {
    /// It appeared, and told about itself.
    Created,
    Removed,
    /// Anything else.
    Other,
}

/// The subset of what an output tells that the editor needs.
#[derive(Debug)]
pub struct OutputInfoLite {
    pub name: String,
    pub logical_size: (u32, u32),
}

impl Clone for OutputInfoLite {
    fn clone(&self) -> (r: Self)
        ensures
            r == *self,
    {
        OutputInfoLite { name: self.name.clone(), logical_size: self.logical_size }
    }
}

impl Default for OutputInfoLite {
    fn default() -> (r: Self)
        ensures
            r.name@.len() == 0,
            r.logical_size == (0u32, 0u32),
    {
        OutputInfoLite { name: String::new(), logical_size: (0, 0) }
    }
}

/// What a Save applies the chosen layout to.
#[derive(Clone, Copy, Debug, PartialEq, Eq, Structural)]
pub enum Scope {
    /// Assign to the monitor, the default and always available.
    Output,
    /// Assign to the workspace that was active when the editor opened.
    Workspace,
}

#[derive(Clone, Debug)]
pub enum Message {
    /// Wayland told us about an output appearing, changing, or going away.
    Output(OutputEvent, u64, OutputInfoLite),
    /// Pick a different layout for the output showing this surface.
    SelectLayout(u64, String),
    /// An edit on the canvas produced a new set of zones for this surface.
    ZonesEdited(u64, Vec<ZoneRect>),
    /// Adjust the gap between snapped windows, in logical pixels.
    SetGap(Option<u32>),
    /// Choose whether Save assigns to the monitor or the active workspace.
    SetScope(Scope),
    Save,
    Cancel,
}

/// What is left to do after a message.
#[derive(Debug)]
pub enum EditorTask {
    Nothing,
    /// Open an overlay with this surface on an output.
    OpenOverlay { surface: u64, wl_output: u64 },
    /// Destroy these surfaces.
    Destroy(Vec<u64>),
    /// Write the config out, destroy these surfaces and exit.
    SaveAndExit(Vec<u64>),
    /// Destroy these surfaces and exit.
    Exit(Vec<u64>),
}

/// What the editor was launched for.
#[derive(Debug)]
pub struct Launch {
    /// Workspace that was active, if it is known. `None` means workspace assignment
    /// is unavailable.
    pub workspace: Option<String>,
    /// Name of the output that the user was looking at, if it is known.
    pub output: Option<String>,
}

#[derive(Debug)]
pub struct Editor {
    pub launch: Launch,
    pub scope: Scope,
    /// Working copy. Edits change this; `Save` writes it out, `Cancel` drops it.
    pub config: ZonesConfig,
    /// Surface -> output.
    pub outputs: Table<u64, EditorOutput>,
    /// Whether there is anywhere to save to.
    pub can_save: bool,
}

// ---------------------------------------------------------------------------
// Start-up
// ---------------------------------------------------------------------------

/// The place of an argument on a command line, from a place on.
pub open spec fn place_of(args: Seq<String>, name: Seq<char>, k: int) -> Option<int>
    decreases args.len() - k,
{
    if k < 0 || k >= args.len() {
        None
    } else if args[k]@ == name {
        Some(k)
    } else {
        place_of(args, name, k + 1)
    }
}

/// The value following a flag, if it is there and non-empty.
pub open spec fn value_after(args: Seq<String>, name: Seq<char>) -> Option<Seq<char>> {
    match place_of(args, name, 0) {
        Some(i) => if i + 1 < args.len() && args[i + 1]@.len() > 0 {
            Some(args[i + 1]@)
        } else {
            None
        },
        None => None,
    }
}

/// Value following `name` on the command line, if it is there and non-empty.
pub fn flag(args: &[String], name: &str) -> (r: Option<String>)
    ensures
        match r {
            Some(value) => value_after(args@, name@) == Some(value@),
            None => value_after(args@, name@) is None,
        },
{
    let wanted = name.to_owned();
    let mut i: usize = 0;
    while i < args.len()
        invariant
            i <= args@.len(),
            wanted@ == name@,
            place_of(args@, name@, 0) == place_of(args@, name@, i as int),
        decreases args@.len() - i,
    {
        if args[i].same_key(&wanted) {
            if i + 1 < args.len() && !args[i + 1].as_str().is_empty() {
                return Some(args[i + 1].clone());
            }
            return None;
        }
        i = i + 1;
    }
    None
}

/// What the editor keeps of what an output tells. Sizes below zero count as zero.
pub fn lite_info(name: Option<String>, logical_size: Option<(i32, i32)>) -> (r: OutputInfoLite)
    ensures
        match name {
            Some(n) => r.name@ == n@,
            None => r.name@.len() == 0,
        },
        match logical_size {
            Some((w, h)) => {
                &&& r.logical_size.0 == if w >= 0 {
                    w as int
                } else {
                    0
                }
                &&& r.logical_size.1 == if h >= 0 {
                    h as int
                } else {
                    0
                }
            },
            None => r.logical_size == (0u32, 0u32),
        },
{
    let name = match name {
        Some(n) => n,
        None => String::new(),
    };
    let logical_size = match logical_size {
        Some((w, h)) => (
            if w >= 0 {
                w as u32
            } else {
                0
            },
            if h >= 0 {
                h as u32
            } else {
                0
            },
        ),
        None => (0, 0),
    };
    OutputInfoLite { name, logical_size }
}

// ---------------------------------------------------------------------------
// Custom layouts
// ---------------------------------------------------------------------------

/// The id of the custom layout with a number.
pub open spec fn custom_id(n: nat) -> Seq<char> {
    "custom-"@ + digits(n)
}

/// Whether this is the first custom id that no layout has.
pub open spec fn is_next_custom(layouts: Map<Seq<char>, ZoneLayout>, id: Seq<char>) -> bool {
    exists|n: nat|
        {
            &&& n >= 1
            &&& #[trigger] custom_id(n) == id
            &&& !layouts.contains_key(id)
            &&& forall|m: nat| 1 <= m < n ==> layouts.contains_key(#[trigger] custom_id(m))
        }
}

fn custom_name(n: u128) -> (r: String)
    ensures
        r@ == custom_id(n as nat),
{
    let mut id = "custom-".to_owned();
    id.append(decimal(n).as_str());
    id
}

/// Different numbers make different ids.
proof fn lemma_custom_ids_differ(a: nat, b: nat)
    requires
        custom_id(a) == custom_id(b),
    ensures
        a == b,
{
    let prefix = "custom-"@;
    assert(digits(a) =~= custom_id(a).skip(prefix.len() as int));
    assert(digits(b) =~= custom_id(b).skip(prefix.len() as int));
    lemma_digits_differ(a, b);
}

/// A set that holds the first `n` custom ids has at least `n` members.
proof fn lemma_custom_ids_fit(ids: Set<Seq<char>>, n: nat)
    requires
        ids.finite(),
        forall|m: nat| 1 <= m <= n ==> ids.contains(#[trigger] custom_id(m)),
    ensures
        n <= ids.len(),
    decreases n,
{
    if n > 0 {
        let fewer = ids.remove(custom_id(n));
        assert forall|m: nat| 1 <= m <= n - 1 implies fewer.contains(#[trigger] custom_id(m)) by {
            if custom_id(m) == custom_id(n) {
                lemma_custom_ids_differ(m, n);
            }
        }
        lemma_custom_ids_fit(fewer, (n - 1) as nat);
    }
}

/// A mapping has at most as many keys as entries.
proof fn lemma_mapping_size<K: Key, V>(entries: Seq<(K, V)>)
    ensures
        mapping(entries).dom().finite(),
        mapping(entries).dom().len() <= entries.len(),
    decreases entries.len(),
{
    if entries.len() > 0 {
        lemma_mapping_size(entries.drop_last());
        let before = mapping(entries.drop_last()).dom();
        assert(mapping(entries).dom() =~= before.insert(entries.last().0@));
    }
}

/// The first custom id that no layout has.
pub fn next_custom_id(layouts: &Table<String, ZoneLayout>) -> (r: String)
    ensures
        is_next_custom(layouts@, r@),
{
    let count: usize = layouts.len();
    let mut n: u128 = 1;
    let mut id = custom_name(n);
    while layouts.contains_key(&id)
        invariant
            1 <= n <= count + 1,
            count <= usize::MAX,
            id@ == custom_id(n as nat),
            count == layouts.list().len(),
            layouts@ == mapping(layouts.list()),
            forall|m: nat| 1 <= m < n ==> layouts@.contains_key(#[trigger] custom_id(m)),
        decreases count + 1 - n,
    {
        proof {
            assert forall|m: nat| 1 <= m <= n implies layouts@.dom().contains(#[trigger] custom_id(m)) by {
                assert(layouts@.contains_key(custom_id(m)));
            }
            lemma_mapping_size(layouts.list());
            lemma_custom_ids_fit(layouts@.dom(), n as nat);
        }
        n = n + 1;
        id = custom_name(n);
    }
    assert(custom_id(n as nat) == id@);
    id
}

// ---------------------------------------------------------------------------
// Outputs and their layouts
// ---------------------------------------------------------------------------

impl EditorOutput {
    /// How the config knows this output. What the monitor reports is not told to
    /// clients, so the editor goes by the connector's name only.
    pub fn output_match(&self) -> (r: OutputMatch)
        ensures
            r@ == (self.name@, None::<EdidProduct>),
    {
        OutputMatch { name: self.name.clone(), edid: None }
    }

    /// Whether this is the same output with another layout.
    pub open spec fn shows(self, before: EditorOutput, layout_id: Seq<char>) -> bool {
        &&& self.wl_output == before.wl_output
        &&& self.name@ == before.name@
        &&& self.logical_size == before.logical_size
        &&& self.layout_id@ == layout_id
    }

    /// The same output with another layout.
    fn showing(&self, layout_id: String) -> (r: Self)
        ensures
            r.shows(*self, layout_id@),
    {
        EditorOutput {
            wl_output: self.wl_output,
            name: self.name.clone(),
            logical_size: self.logical_size,
            layout_id,
        }
    }
}

/// The per-output assignments after the layouts of some outputs are recorded.
pub open spec fn recorded(
    per_output: Map<(Seq<char>, Option<EdidProduct>), String>,
    outputs: Seq<(u64, EditorOutput)>,
) -> Map<(Seq<char>, Option<EdidProduct>), String>
    decreases outputs.len(),
{
    if outputs.len() == 0 {
        per_output
    } else {
        let output = outputs.last().1;
        recorded(per_output, outputs.drop_last()).insert((output.name@, None), output.layout_id)
    }
}

/// The first output from `k` on with a name.
pub open spec fn named(outputs: Seq<(u64, EditorOutput)>, name: Seq<char>, k: int) -> Option<int>
    decreases outputs.len() - k,
{
    if k < 0 || k >= outputs.len() {
        None
    } else if outputs[k].1.name@ == name {
        Some(k)
    } else {
        named(outputs, name, k + 1)
    }
}

/// The output whose layout a workspace gets: the one that the editor was opened on,
/// else the first one.
pub open spec fn claimant(outputs: Seq<(u64, EditorOutput)>, opened_on: Option<String>) -> Option<int> {
    if outputs.len() == 0 {
        None
    } else {
        match opened_on {
            Some(name) => match named(outputs, name@, 0) {
                Some(i) => Some(i),
                None => Some(0),
            },
            None => Some(0),
        }
    }
}

/// The surfaces of some outputs.
pub open spec fn surfaces(outputs: Seq<(u64, EditorOutput)>) -> Seq<u64> {
    Seq::new(outputs.len(), |i: int| outputs[i].0)
}

/// The surfaces of those of the first `n` outputs that have an identity.
pub open spec fn surfaces_of(outputs: Seq<(u64, EditorOutput)>, wl_output: u64, n: nat) -> Seq<u64>
    decreases n,
{
    if n == 0 {
        Seq::empty()
    } else {
        let before = surfaces_of(outputs, wl_output, (n - 1) as nat);
        if outputs[n - 1].1.wl_output == wl_output {
            before.push(outputs[n - 1].0)
        } else {
            before
        }
    }
}

/// A mapping without some keys.
pub open spec fn without(outputs: Map<u64, EditorOutput>, gone: Seq<u64>) -> Map<u64, EditorOutput>
    decreases gone.len(),
{
    if gone.len() == 0 {
        outputs
    } else {
        without(outputs, gone.drop_last()).remove(gone.last())
    }
}

impl Editor {
    /// Whether everything but the outputs and the config is the same.
    pub open spec fn same_settings(self, before: Editor) -> bool {
        self.launch == before.launch && self.scope == before.scope && self.can_save == before.can_save
    }

    /// Whether nothing changed.
    pub open spec fn unchanged(self, before: Editor) -> bool {
        self.same_settings(before) && self.config == before.config && self.outputs == before.outputs
    }

    pub fn new(launch: Launch, config: ZonesConfig, can_save: bool) -> (r: Self)
        ensures
            r.launch == launch,
            r.scope == Scope::Output,
            r.config == config,
            r.outputs@ == Map::<u64, EditorOutput>::empty(),
            r.can_save == can_save,
    {
        Editor { launch, scope: Scope::Output, config, outputs: Table::new(), can_save }
    }

    /// The layout shown on a surface.
    pub open spec fn shown(self, surface: u64) -> Option<ZoneLayout> {
        let layouts = self.config.layouts@;
        if !self.outputs@.contains_key(surface) {
            None
        } else if layouts.contains_key(self.outputs@[surface].layout_id@) {
            Some(layouts[self.outputs@[surface].layout_id@])
        } else if layouts.contains_key(DEFAULT_LAYOUT_ID@) {
            Some(layouts[DEFAULT_LAYOUT_ID@])
        } else {
            None
        }
    }

    /// Layout currently selected for a surface, falling back to the built-in default
    /// so the overlay always has something to draw.
    pub fn layout_for(&self, surface: u64) -> (r: Option<&ZoneLayout>)
        ensures
            match r {
                Some(layout) => self.shown(surface) == Some(*layout),
                None => self.shown(surface) is None,
            },
    {
        let output = match self.outputs.get(&surface) {
            Some(output) => output,
            None => return None,
        };
        match self.config.layouts.get(&output.layout_id) {
            Some(layout) => Some(layout),
            None => self.config.layouts.get(&DEFAULT_LAYOUT_ID.to_owned()),
        }
    }

    /// Name of the fork of a layout.
    pub open spec fn fork_name(self, layout_id: Seq<char>) -> Seq<char> {
        if self.config.layouts@.contains_key(layout_id) {
            self.config.layouts@[layout_id]@.name + " (edited)"@
        } else {
            "Custom"@
        }
    }

    /// Whether this is the editor after an edit on a surface. The first edit of a
    /// built-in template forks it; any other layout is changed in place.
    pub open spec fn edited(self, before: Editor, surface: u64, zones: Seq<ZoneRect>) -> bool {
        let current = before.outputs@[surface].layout_id@;
        &&& self.same_settings(before)
        &&& self.config.same_but_layouts(before.config)
        &&& if !before.outputs@.contains_key(surface) {
            self.outputs@ == before.outputs@ && self.config.layouts@ == before.config.layouts@
        } else if builtin(current) is Some {
            let fork = self.outputs@[surface].layout_id@;
            &&& is_next_custom(before.config.layouts@, fork)
            &&& self.outputs@ == before.outputs@.insert(surface, self.outputs@[surface])
            &&& self.outputs@[surface].shows(before.outputs@[surface], fork)
            &&& self.config.layouts@ == before.config.layouts@.insert(fork, self.config.layouts@[fork])
            &&& self.config.layouts@[fork]@ == LayoutView { name: before.fork_name(current), zones }
        } else {
            &&& self.outputs@ == before.outputs@
            &&& if before.config.layouts@.contains_key(current) {
                &&& self.config.layouts@ == before.config.layouts@.insert(current, self.config.layouts@[current])
                &&& self.config.layouts@[current]@ == LayoutView {
                    name: before.config.layouts@[current]@.name,
                    zones,
                }
            } else {
                self.config.layouts@ == before.config.layouts@
            }
        }
    }

    /// Apply an edit to the layout shown on a surface.
    ///
    /// Editing a built-in template in place would silently redefine it for every
    /// monitor using it, so the first edit forks it into a custom layout and
    /// repoints this output at the fork.
    pub fn apply_edit(&mut self, surface: u64, zones: Vec<ZoneRect>)
        ensures
            final(self).edited(*old(self), surface, zones@),
    {
        let (current, forks) = match self.outputs.get(&surface) {
            Some(output) => (output.layout_id.clone(), is_builtin(&output.layout_id)),
            None => return,
        };
        if forks {
            let fork = next_custom_id(&self.config.layouts);
            let name = match self.config.layouts.get(&current) {
                Some(layout) => {
                    let mut name = layout.name.clone();
                    name.append(" (edited)");
                    name
                },
                None => "Custom".to_owned(),
            };
            let output = match self.outputs.get(&surface) {
                Some(output) => output.showing(fork.clone()),
                None => return,
            };
            self.config.layouts.insert(fork, ZoneLayout { name, zones });
            self.outputs.insert(surface, output);
            return;
        }
        let name = match self.config.layouts.get(&current) {
            Some(layout) => layout.name.clone(),
            None => return,
        };
        self.config.layouts.insert(current, ZoneLayout { name, zones });
    }

    /// Whether an output is shown already.
    pub open spec fn is_shown(self, wl_output: u64) -> bool {
        exists|surface: u64|
            #[trigger] self.outputs@.contains_key(surface) && self.outputs@[surface].wl_output == wl_output
    }

    fn knows_output(&self, wl_output: u64) -> (r: bool)
        ensures
            r == self.is_shown(wl_output),
    {
        let n: usize = self.outputs.len();
        let mut i: usize = 0;
        while i < n
            invariant
                i <= n,
                n == self.outputs.list().len(),
                forall|j: int| 0 <= j < i ==> (#[trigger] self.outputs.list()[j]).1.wl_output != wl_output,
            decreases n - i,
        {
            let entry = self.outputs.entry(i);
            if entry.1.wl_output == wl_output {
                assert(self.outputs@.contains_key(entry.0));
                return true;
            }
            i = i + 1;
        }
        let _ = self.outputs.len();
        proof {
            lemma_mapping(self.outputs.list());
            if self.is_shown(wl_output) {
                let surface = choose|surface: u64|
                    #[trigger] self.outputs@.contains_key(surface) && self.outputs@[surface].wl_output == wl_output;
                assert(mapping(self.outputs.list()).contains_key(surface));
            }
        }
        false
    }

    /// Layout id that an output starts out with.
    pub open spec fn first_layout(self, name: Seq<char>) -> Seq<char> {
        if self.config.per_output@.contains_key((name, None)) {
            self.config.per_output@[(name, None)]@
        } else {
            DEFAULT_LAYOUT_ID@
        }
    }

    /// Open an overlay on an output.
    pub fn open_overlay(&mut self, info: OutputInfoLite, wl_output: u64, surface: u64) -> (r: EditorTask)
        ensures
            final(self).same_settings(*old(self)),
            final(self).config == old(self).config,
            final(self).outputs@ == old(self).outputs@.insert(surface, final(self).outputs@[surface]),
            final(self).outputs@[surface].wl_output == wl_output,
            final(self).outputs@[surface].name@ == info.name@,
            final(self).outputs@[surface].logical_size == info.logical_size,
            final(self).outputs@[surface].layout_id@ == old(self).first_layout(info.name@),
            r == (EditorTask::OpenOverlay { surface, wl_output }),
    {
        let key = OutputMatch { name: info.name.clone(), edid: None };
        let layout_id = match self.config.per_output.get(&key) {
            Some(id) => id.clone(),
            None => DEFAULT_LAYOUT_ID.to_owned(),
        };
        self.outputs.insert(
            surface,
            EditorOutput { wl_output, name: info.name, logical_size: info.logical_size, layout_id },
        );
        EditorTask::OpenOverlay { surface, wl_output }
    }

    /// Take the overlays of an output that went away out of the editor.
    fn drop_output(&mut self, wl_output: u64) -> (r: Vec<u64>)
        ensures
            final(self).same_settings(*old(self)),
            final(self).config == old(self).config,
            r@ == surfaces_of(old(self).outputs.list(), wl_output, old(self).outputs.list().len()),
            final(self).outputs@ == without(old(self).outputs@, r@),
    {
        let n: usize = self.outputs.len();
        let mut gone: Vec<u64> = Vec::new();
        let mut i: usize = 0;
        while i < n
            invariant
                i <= n,
                n == self.outputs.list().len(),
                gone@ == surfaces_of(self.outputs.list(), wl_output, i as nat),
            decreases n - i,
        {
            let entry = self.outputs.entry(i);
            if entry.1.wl_output == wl_output {
                gone.push(entry.0);
            }
            i = i + 1;
        }
        let ghost before = *self;
        assert(gone@.take(0).len() == 0);
        let mut k: usize = 0;
        while k < gone.len()
            invariant
                k <= gone@.len(),
                self.same_settings(before),
                self.config == before.config,
                self.outputs@ == without(before.outputs@, gone@.take(k as int)),
            decreases gone@.len() - k,
        {
            let surface = gone[k];
            self.outputs.remove(&surface);
            proof {
                assert(gone@.take(k + 1).drop_last() == gone@.take(k as int));
                assert(gone@.take(k + 1).last() == surface);
            }
            k = k + 1;
        }
        assert(gone@.take(k as int) == gone@);
        gone
    }

    /// Close every overlay.
    pub fn close(&mut self) -> (r: Vec<u64>)
        ensures
            final(self).same_settings(*old(self)),
            final(self).config == old(self).config,
            final(self).outputs@ == Map::<u64, EditorOutput>::empty(),
            r@ == surfaces(old(self).outputs.list()),
    {
        let n: usize = self.outputs.len();
        let mut all: Vec<u64> = Vec::new();
        let mut i: usize = 0;
        while i < n
            invariant
                i <= n,
                n == self.outputs.list().len(),
                all@.len() == i,
                forall|j: int| 0 <= j < i ==> #[trigger] all@[j] == self.outputs.list()[j].0,
            decreases n - i,
        {
            all.push(self.outputs.entry(i).0);
            i = i + 1;
        }
        assert(all@ == surfaces(self.outputs.list()));
        self.outputs = Table::new();
        all
    }

    /// The output whose layout a workspace gets.
    fn find_claimant(&self) -> (r: Option<usize>)
        ensures
            match r {
                Some(i) => i < self.outputs.list().len() && claimant(self.outputs.list(), self.launch.output) == Some(
                    i as int,
                ),
                None => claimant(self.outputs.list(), self.launch.output) is None,
            },
    {
        let n: usize = self.outputs.len();
        if n == 0 {
            return None;
        }
        if let Some(name) = &self.launch.output {
            let mut i: usize = 0;
            while i < n
                invariant
                    i <= n,
                    n == self.outputs.list().len(),
                    n > 0,
                    self.launch.output == Some(*name),
                    named(self.outputs.list(), name@, 0) == named(self.outputs.list(), name@, i as int),
                decreases n - i,
            {
                if self.outputs.entry(i).1.name.same_key(name) {
                    return Some(i);
                }
                i = i + 1;
            }
        }
        Some(0)
    }

    /// Whether this is the config in which the choices of an editor are recorded.
    pub open spec fn records(self, config: ZonesConfig) -> bool {
        &&& config.same_but_assignments(self.config)
        &&& if self.scope == Scope::Workspace && self.launch.workspace is Some {
            let workspace = self.launch.workspace->0@;
            &&& config.per_output@ == self.config.per_output@
            &&& match claimant(self.outputs.list(), self.launch.output) {
                Some(i) => config.per_workspace@ == self.config.per_workspace@.insert(
                    workspace,
                    self.outputs.list()[i].1.layout_id,
                ),
                None => config.per_workspace@ == self.config.per_workspace@,
            }
        } else {
            &&& config.per_workspace@ == self.config.per_workspace@
            &&& config.per_output@ == recorded(self.config.per_output@, self.outputs.list())
        }
    }

    /// Record each overlay's selection in the config.
    ///
    /// A workspace has one layout, so only the output the editor was opened on can
    /// meaningfully claim it. Assigning every overlay would have the last one
    /// silently win.
    fn record(&mut self)
        ensures
            final(self).same_settings(*old(self)),
            final(self).outputs == old(self).outputs,
            old(self).records(final(self).config),
    {
        if self.scope == Scope::Workspace && self.launch.workspace.is_some() {
            let workspace = match &self.launch.workspace {
                Some(workspace) => workspace.clone(),
                None => return,
            };
            if let Some(i) = self.find_claimant() {
                let layout_id = self.outputs.entry(i).1.layout_id.clone();
                self.config.per_workspace.insert(workspace, layout_id);
            }
            return;
        }
        let ghost before = *self;
        let n: usize = self.outputs.len();
        let mut i: usize = 0;
        assert(self.outputs.list().take(0).len() == 0);
        while i < n
            invariant
                i <= n,
                n == self.outputs.list().len(),
                self.same_settings(before),
                self.outputs == before.outputs,
                self.config.same_but_assignments(before.config),
                self.config.per_workspace@ == before.config.per_workspace@,
                self.config.per_output@ == recorded(before.config.per_output@, before.outputs.list().take(i as int)),
            decreases n - i,
        {
            let output = &self.outputs.entry(i).1;
            let key = output.output_match();
            let layout_id = output.layout_id.clone();
            self.config.per_output.insert(key, layout_id);
            proof {
                let list = before.outputs.list();
                assert(list.take(i + 1).drop_last() == list.take(i as int));
                assert(list.take(i + 1).last() == list[i as int]);
            }
            i = i + 1;
        }
        assert(before.outputs.list().take(i as int) == before.outputs.list());
    }

    /// Save: record the choices and close. Without anywhere to save to, nothing is
    /// discarded and nothing happens.
    pub fn save(&mut self) -> (r: EditorTask)
        ensures
            !old(self).can_save ==> final(self).unchanged(*old(self)) && r is Nothing,
            old(self).can_save ==> {
                &&& final(self).same_settings(*old(self))
                &&& old(self).records(final(self).config)
                &&& final(self).outputs@ == Map::<u64, EditorOutput>::empty()
                &&& r matches EditorTask::SaveAndExit(list) && list@ == surfaces(old(self).outputs.list())
            },
    {
        if !self.can_save {
            return EditorTask::Nothing;
        }
        self.record();
        EditorTask::SaveAndExit(self.close())
    }

    /// Whether this is the editor after another layout was picked on a surface.
    pub open spec fn selected(self, before: Editor, surface: u64, layout_id: Seq<char>) -> bool {
        &&& self.same_settings(before)
        &&& self.config == before.config
        &&& if before.outputs@.contains_key(surface) {
            &&& self.outputs@ == before.outputs@.insert(surface, self.outputs@[surface])
            &&& self.outputs@[surface].shows(before.outputs@[surface], layout_id)
        } else {
            self.outputs@ == before.outputs@
        }
    }

    /// Pick another layout on a surface.
    pub fn select_layout(&mut self, surface: u64, layout_id: String)
        ensures
            final(self).selected(*old(self), surface, layout_id@),
    {
        let output = match self.outputs.get(&surface) {
            Some(output) => output.showing(layout_id),
            None => return,
        };
        self.outputs.insert(surface, output);
    }

    /// Whether this is the editor, and `task` what is left to do, after a message.
    /// `surface` is what an overlay would be opened with.
    pub open spec fn handles(self, before: Editor, message: Message, surface: u64, task: EditorTask) -> bool {
        match message {
            Message::Output(OutputEvent::Created, wl_output, info) => if info.name@.len() == 0 || before.is_shown(
                wl_output,
            ) {
                self.unchanged(before) && task is Nothing
            } else {
                &&& self.same_settings(before)
                &&& self.config == before.config
                &&& self.outputs@ == before.outputs@.insert(surface, self.outputs@[surface])
                &&& self.outputs@[surface].wl_output == wl_output
                &&& self.outputs@[surface].name@ == info.name@
                &&& self.outputs@[surface].logical_size == info.logical_size
                &&& self.outputs@[surface].layout_id@ == before.first_layout(info.name@)
                &&& task == EditorTask::OpenOverlay { surface, wl_output }
            },
            Message::Output(OutputEvent::Removed, wl_output, info) => {
                let gone = surfaces_of(before.outputs.list(), wl_output, before.outputs.list().len());
                &&& self.same_settings(before)
                &&& self.config == before.config
                &&& self.outputs@ == without(before.outputs@, gone)
                &&& task matches EditorTask::Destroy(list) && list@ == gone
            },
            Message::Output(OutputEvent::Other, wl_output, info) => self.unchanged(before) && task is Nothing,
            Message::SelectLayout(id, layout_id) => self.selected(before, id, layout_id@) && task is Nothing,
            Message::ZonesEdited(id, zones) => self.edited(before, id, zones@) && task is Nothing,
            Message::SetGap(gap) => {
                &&& self.same_settings(before)
                &&& self.config.same_but_gap(before.config)
                &&& self.config.gap == gap
                &&& self.outputs == before.outputs
                &&& task is Nothing
            },
            Message::SetScope(scope) => {
                &&& self.launch == before.launch
                &&& self.can_save == before.can_save
                &&& self.scope == scope
                &&& self.config == before.config
                &&& self.outputs == before.outputs
                &&& task is Nothing
            },
            Message::Save => if before.can_save {
                &&& self.same_settings(before)
                &&& before.records(self.config)
                &&& self.outputs@ == Map::<u64, EditorOutput>::empty()
                &&& task matches EditorTask::SaveAndExit(list) && list@ == surfaces(before.outputs.list())
            } else {
                self.unchanged(before) && task is Nothing
            },
            Message::Cancel => {
                &&& self.same_settings(before)
                &&& self.config == before.config
                &&& self.outputs@ == Map::<u64, EditorOutput>::empty()
                &&& task matches EditorTask::Exit(list) && list@ == surfaces(before.outputs.list())
            },
        }
    }

    /// React to a message. `surface` is what an overlay is opened with, should the
    /// message call for one.
    pub fn update(&mut self, message: Message, surface: u64) -> (r: EditorTask)
        ensures
            final(self).handles(*old(self), message, surface, r),
    {
        match message {
            Message::Output(event, wl_output, info) => match event {
                OutputEvent::Created => {
                    if info.name.as_str().is_empty() {
                        return EditorTask::Nothing;
                    }
                    if self.knows_output(wl_output) {
                        return EditorTask::Nothing;
                    }
                    self.open_overlay(info, wl_output, surface)
                },
                OutputEvent::Removed => EditorTask::Destroy(self.drop_output(wl_output)),
                OutputEvent::Other => EditorTask::Nothing,
            },
            Message::SelectLayout(id, layout_id) => {
                self.select_layout(id, layout_id);
                EditorTask::Nothing
            },
            Message::ZonesEdited(id, zones) => {
                self.apply_edit(id, zones);
                EditorTask::Nothing
            },
            Message::SetGap(gap) => {
                self.config.gap = gap;
                EditorTask::Nothing
            },
            Message::SetScope(scope) => {
                self.scope = scope;
                EditorTask::Nothing
            },
            Message::Save => self.save(),
            Message::Cancel => EditorTask::Exit(self.close()),
        }
    }
}

// ---------------------------------------------------------------------------
// What holds of the editor as a whole
// ---------------------------------------------------------------------------

/// Editing a built-in template leaves every layout as it was, that template among
/// them, and every other output with the layout it had: the edit goes to a layout
/// that was not there before.
pub proof fn editing_a_template_forks_it(before: Editor, after: Editor, surface: u64, zones: Seq<ZoneRect>)
    requires
        before.outputs@.contains_key(surface),
        builtin(before.outputs@[surface].layout_id@) is Some,
        after.edited(before, surface, zones),
    ensures
        forall|id: Seq<char>|
            #[trigger] before.config.layouts@.contains_key(id) ==> after.config.layouts@.contains_key(id)
                && after.config.layouts@[id] == before.config.layouts@[id],
        forall|other: u64|
            #[trigger] before.outputs@.contains_key(other) && other != surface ==> after.outputs@.contains_key(other)
                && after.outputs@[other] == before.outputs@[other],
        !before.config.layouts@.contains_key(after.outputs@[surface].layout_id@),
{
}

/// A layout that was forked is edited in place from then on: its id is not that of
/// a template.
pub proof fn a_fork_is_not_forked_again(layouts: Map<Seq<char>, ZoneLayout>, id: Seq<char>)
    requires
        is_next_custom(layouts, id),
    ensures
        builtin(id) is None,
{
    let n = choose|n: nat|
        {
            &&& n >= 1
            &&& #[trigger] custom_id(n) == id
            &&& !layouts.contains_key(id)
            &&& forall|m: nat| 1 <= m < n ==> layouts.contains_key(#[trigger] custom_id(m))
        };
    reveal_strlit("custom-");
    reveal_strlit("columns-2");
    reveal_strlit("columns-3");
    reveal_strlit("rows-2");
    reveal_strlit("grid-2x2");
    reveal_strlit("priority-grid");
    reveal_strlit("main-stack");
    assert("custom-"@.len() == 7);
    assert(custom_id(n)[1] == 'u');
    assert("columns-2"@[1] == 'o');
    assert("columns-3"@[1] == 'o');
    assert("rows-2"@[1] == 'o');
    assert("grid-2x2"@[1] == 'r');
    assert("priority-grid"@[1] == 'r');
    assert("main-stack"@[1] == 'a');
}

/// What is edited on a surface is what it shows from then on.
pub proof fn edits_are_shown(before: Editor, after: Editor, surface: u64, zones: Seq<ZoneRect>)
    requires
        before.outputs@.contains_key(surface),
        builtin(before.outputs@[surface].layout_id@) is Some || before.config.layouts@.contains_key(
            before.outputs@[surface].layout_id@,
        ),
        after.edited(before, surface, zones),
    ensures
        after.shown(surface) matches Some(layout) && layout@.zones == zones,
{
}

/// An edit on a surface changes no layout but the one that the surface shows from
/// then on.
pub proof fn edits_change_one_layout(before: Editor, after: Editor, surface: u64, zones: Seq<ZoneRect>, id: Seq<char>)
    requires
        after.edited(before, surface, zones),
        before.config.layouts@.contains_key(id),
        before.outputs@.contains_key(surface) ==> id != after.outputs@[surface].layout_id@,
    ensures
        after.config.layouts@.contains_key(id),
        after.config.layouts@[id] == before.config.layouts@[id],
{
}

proof fn lemma_recorded(
    per_output: Map<(Seq<char>, Option<EdidProduct>), String>,
    outputs: Seq<(u64, EditorOutput)>,
    i: int,
)
    requires
        0 <= i < outputs.len(),
        forall|j: int| i < j < outputs.len() ==> (#[trigger] outputs[j]).1.name@ != outputs[i].1.name@,
    ensures
        recorded(per_output, outputs).contains_key((outputs[i].1.name@, None)),
        recorded(per_output, outputs)[(outputs[i].1.name@, None)] == outputs[i].1.layout_id,
    decreases outputs.len(),
{
    if i < outputs.len() - 1 {
        let fewer = outputs.drop_last();
        assert(fewer[i] == outputs[i]);
        assert(outputs[outputs.len() - 1].1.name@ != outputs[i].1.name@);
        lemma_recorded(per_output, fewer, i);
    }
}

/// After saving, every output has the layout that the editor showed on it,
/// whatever its monitor reports, unless that very monitor has one of its own.
pub proof fn saved_layouts_are_assigned(editor: Editor, config: ZonesConfig, i: int, edid: Option<EdidProduct>)
    requires
        editor.records(config),
        editor.scope == Scope::Output || editor.launch.workspace is None,
        0 <= i < editor.outputs.list().len(),
        forall|j: int|
            i < j < editor.outputs.list().len() ==> (#[trigger] editor.outputs.list()[j]).1.name@
                != editor.outputs.list()[i].1.name@,
        edid is None || !config.per_output@.contains_key((editor.outputs.list()[i].1.name@, edid)),
    ensures
        config.assigned_id((editor.outputs.list()[i].1.name@, edid), None) == Some(
            editor.outputs.list()[i].1.layout_id@,
        ),
{
    lemma_recorded(editor.config.per_output@, editor.outputs.list(), i);
}

/// After saving for a workspace, that workspace has the layout of the output that
/// the editor was opened on, on every output, and nothing else changed.
pub proof fn saved_workspace_layout_is_assigned(
    editor: Editor,
    config: ZonesConfig,
    output: (Seq<char>, Option<EdidProduct>),
)
    requires
        editor.records(config),
        editor.scope == Scope::Workspace,
        editor.launch.workspace is Some,
        editor.outputs.list().len() > 0,
    ensures
        config.assigned_id(output, Some(editor.launch.workspace->0@)) == Some(
            editor.outputs.list()[claimant(editor.outputs.list(), editor.launch.output)->0].1.layout_id@,
        ),
        config.per_output@ == editor.config.per_output@,
{
}

/// An output that reappears is shown once: what is shown already is left alone.
pub proof fn outputs_are_shown_once(
    before: Editor,
    after: Editor,
    wl_output: u64,
    info: OutputInfoLite,
    surface: u64,
    task: EditorTask,
)
    requires
        before.is_shown(wl_output),
        after.handles(before, Message::Output(OutputEvent::Created, wl_output, info), surface, task),
    ensures
        after.unchanged(before),
        task is Nothing,
{
}

proof fn lemma_without(outputs: Map<u64, EditorOutput>, gone: Seq<u64>, surface: u64)
    ensures
        without(outputs, gone).contains_key(surface) <==> outputs.contains_key(surface) && !gone.contains(surface),
        without(outputs, gone).contains_key(surface) ==> without(outputs, gone)[surface] == outputs[surface],
    decreases gone.len(),
{
    if gone.len() > 0 {
        lemma_without(outputs, gone.drop_last(), surface);
        assert(gone.contains(surface) <==> gone.drop_last().contains(surface) || gone.last() == surface) by {
            if gone.contains(surface) {
                let k = choose|k: int| 0 <= k < gone.len() && gone[k] == surface;
                if k < gone.len() - 1 {
                    assert(gone.drop_last()[k] == surface);
                }
            }
            if gone.drop_last().contains(surface) {
                let k = choose|k: int| 0 <= k < gone.drop_last().len() && gone.drop_last()[k] == surface;
                assert(gone[k] == surface);
            }
            if gone.last() == surface {
                assert(gone[gone.len() - 1] == surface);
            }
        }
    }
}

proof fn lemma_surfaces_of(outputs: Seq<(u64, EditorOutput)>, wl_output: u64, n: nat)
    requires
        n <= outputs.len(),
    ensures
        forall|k: int|
            0 <= k < n && (#[trigger] outputs[k]).1.wl_output == wl_output ==> surfaces_of(
                outputs,
                wl_output,
                n,
            ).contains(outputs[k].0),
        forall|surface: u64|
            #[trigger] surfaces_of(outputs, wl_output, n).contains(surface) ==> exists|k: int|
                0 <= k < n && (#[trigger] outputs[k]).0 == surface && outputs[k].1.wl_output == wl_output,
    decreases n,
{
    if n > 0 {
        lemma_surfaces_of(outputs, wl_output, (n - 1) as nat);
        let before = surfaces_of(outputs, wl_output, (n - 1) as nat);
        let after = surfaces_of(outputs, wl_output, n);
        assert forall|k: int| 0 <= k < n && (#[trigger] outputs[k]).1.wl_output == wl_output implies after.contains(
            outputs[k].0,
        ) by {
            if k < n - 1 {
                assert(before.contains(outputs[k].0));
                let m = choose|m: int| 0 <= m < before.len() && before[m] == outputs[k].0;
                assert(after[m] == outputs[k].0);
            } else {
                assert(after[before.len() as int] == outputs[k].0);
            }
        }
        assert forall|surface: u64| #[trigger] after.contains(surface) implies exists|k: int|
            0 <= k < n && (#[trigger] outputs[k]).0 == surface && outputs[k].1.wl_output == wl_output by {
            let m = choose|m: int| 0 <= m < after.len() && after[m] == surface;
            if m < before.len() {
                assert(before[m] == surface);
                assert(before.contains(surface));
            } else {
                assert(outputs[n - 1].0 == surface);
            }
        }
    }
}

/// When an output goes away, exactly its overlays go with it.
pub proof fn removal_takes_exactly_its_overlays(
    before: Editor,
    after: Editor,
    wl_output: u64,
    info: OutputInfoLite,
    fresh: u64,
    task: EditorTask,
    surface: u64,
)
    requires
        after.handles(before, Message::Output(OutputEvent::Removed, wl_output, info), fresh, task),
        distinct_keys(before.outputs.list()),
        before.outputs@ == mapping(before.outputs.list()),
    ensures
        after.outputs@.contains_key(surface) <==> before.outputs@.contains_key(surface)
            && before.outputs@[surface].wl_output != wl_output,
        after.outputs@.contains_key(surface) ==> after.outputs@[surface] == before.outputs@[surface],
{
    let list = before.outputs.list();
    let gone = surfaces_of(list, wl_output, list.len());
    lemma_without(before.outputs@, gone, surface);
    lemma_surfaces_of(list, wl_output, list.len());
    lemma_mapping(list);
    if before.outputs@.contains_key(surface) {
        assert(mapping(list).contains_key(surface));
        let k = choose|k: int| 0 <= k < list.len() && (#[trigger] list[k]).0@ == surface;
        assert(list[k].0 == surface);
        if gone.contains(surface) {
            let m = choose|m: int| 0 <= m < list.len() && (#[trigger] list[m]).0 == surface && list[m].1.wl_output
                == wl_output;
            assert(list[m].0@ == surface);
            assert(mapping(list)[list[m].0@] == list[m].1);
        }
        if before.outputs@[surface].wl_output == wl_output {
            assert(gone.contains(list[k].0));
        }
    }
}

/// As long as the default layout is there, an overlay always has something to draw.
pub proof fn an_overlay_has_something_to_draw(editor: Editor, surface: u64)
    requires
        editor.outputs@.contains_key(surface),
        editor.config.layouts@.contains_key(DEFAULT_LAYOUT_ID@),
    ensures
        editor.shown(surface) is Some,
{
}

/// A flag has the value that follows its first occurrence: the next argument, unless
/// that is empty or not there. A flag that does not occur has none.
pub proof fn flags_have_the_value_behind_them(args: Seq<String>, name: Seq<char>, k: int)
    requires
        0 <= k <= args.len(),
        forall|i: int| 0 <= i < k ==> (#[trigger] args[i])@ != name,
        k < args.len() ==> args[k]@ == name,
    ensures
        value_after(args, name) == if k + 1 < args.len() && args[k + 1]@.len() > 0 {
            Some(args[k + 1]@)
        } else {
            None
        },
{
    lemma_place_of(args, name, 0, k);
}

proof fn lemma_place_of(args: Seq<String>, name: Seq<char>, from: int, k: int)
    requires
        0 <= from <= k <= args.len(),
        forall|i: int| from <= i < k ==> (#[trigger] args[i])@ != name,
        k < args.len() ==> args[k]@ == name,
    ensures
        place_of(args, name, from) == if k < args.len() {
            Some(k)
        } else {
            None
        },
    decreases k - from,
{
    if from < k {
        assert(args[from]@ != name);
        lemma_place_of(args, name, from + 1, k);
    }
}

/// A workspace gets the layout of the output that the user was looking at: of the first
/// one with that name, or of the first output where there is none or no name is known.
pub proof fn workspaces_get_the_layout_that_was_looked_at(
    editor: Editor,
    config: ZonesConfig,
    output: (Seq<char>, Option<EdidProduct>),
    i: int,
)
    requires
        editor.records(config),
        editor.scope == Scope::Workspace,
        editor.launch.workspace is Some,
        0 <= i < editor.outputs.list().len(),
        match editor.launch.output {
            Some(name) => {
                ||| editor.outputs.list()[i].1.name@ == name@ && forall|j: int|
                    0 <= j < i ==> (#[trigger] editor.outputs.list()[j]).1.name@ != name@
                ||| i == 0 && forall|j: int|
                    0 <= j < editor.outputs.list().len() ==> (#[trigger] editor.outputs.list()[j]).1.name@ != name@
            },
            None => i == 0,
        },
    ensures
        config.assigned_id(output, Some(editor.launch.workspace->0@)) == Some(
            editor.outputs.list()[i].1.layout_id@,
        ),
{
    if let Some(name) = editor.launch.output {
        let list = editor.outputs.list();
        if list[i].1.name@ == name@ {
            lemma_named(list, name@, 0, i);
        } else {
            lemma_named(list, name@, 0, list.len() as int);
        }
    }
}

proof fn lemma_named(outputs: Seq<(u64, EditorOutput)>, name: Seq<char>, from: int, k: int)
    requires
        0 <= from <= k <= outputs.len(),
        forall|i: int| from <= i < k ==> (#[trigger] outputs[i]).1.name@ != name,
        k < outputs.len() ==> outputs[k].1.name@ == name,
    ensures
        named(outputs, name, from) == if k < outputs.len() {
            Some(k)
        } else {
            None
        },
    decreases k - from,
{
    if from < k {
        assert(outputs[from].1.name@ != name);
        lemma_named(outputs, name, from + 1, k);
    }
}

/// Saving leaves what is assigned to monitors alone that the editor did not show.
pub proof fn saving_leaves_other_monitors_alone(
    editor: Editor,
    config: ZonesConfig,
    output: (Seq<char>, Option<EdidProduct>),
)
    requires
        editor.records(config),
        output.1 is Some || forall|i: int|
            0 <= i < editor.outputs.list().len() ==> (#[trigger] editor.outputs.list()[i]).1.name@ != output.0,
    ensures
        config.per_output@.contains_key(output) <==> editor.config.per_output@.contains_key(output),
        config.per_output@.contains_key(output) ==> config.per_output@[output] == editor.config.per_output@[output],
{
    lemma_unrecorded(editor.config.per_output@, editor.outputs.list(), output);
}

proof fn lemma_unrecorded(
    per_output: Map<(Seq<char>, Option<EdidProduct>), String>,
    outputs: Seq<(u64, EditorOutput)>,
    output: (Seq<char>, Option<EdidProduct>),
)
    requires
        output.1 is Some || forall|i: int| 0 <= i < outputs.len() ==> (#[trigger] outputs[i]).1.name@ != output.0,
    ensures
        recorded(per_output, outputs).contains_key(output) <==> per_output.contains_key(output),
        recorded(per_output, outputs).contains_key(output) ==> recorded(per_output, outputs)[output]
            == per_output[output],
    decreases outputs.len(),
{
    if outputs.len() > 0 {
        let fewer = outputs.drop_last();
        assert forall|i: int| 0 <= i < fewer.len() && output.1 is None implies (#[trigger] fewer[i]).1.name@
            != output.0 by {
            assert(outputs[i] == fewer[i]);
        }
        lemma_unrecorded(per_output, fewer, output);
        let last = outputs[outputs.len() - 1];
    }
}

/// Every message changes its own part of the editor and no other: assignments change
/// only by saving, layouts only by edits, the gap and the scope only by being set, and
/// the overlays are left alone by what is set.
pub proof fn messages_change_their_own_part(
    before: Editor,
    after: Editor,
    message: Message,
    surface: u64,
    task: EditorTask,
)
    requires
        after.handles(before, message, surface, task),
    ensures
        after.launch == before.launch,
        after.can_save == before.can_save,
        !(message is Save) ==> after.config.per_output == before.config.per_output && after.config.per_workspace
            == before.config.per_workspace,
        !(message is ZonesEdited) ==> after.config.layouts == before.config.layouts,
        !(message is SetGap) ==> after.config.gap == before.config.gap,
        !(message is SetScope) ==> after.scope == before.scope,
        after.config.enabled == before.config.enabled,
        after.config.modifier == before.config.modifier,
        after.config.spanning == before.config.spanning,
        after.config.remember_apps == before.config.remember_apps,
        after.config.app_memory == before.config.app_memory,
        after.config.shortcuts == before.config.shortcuts,
        message is SetGap || message is SetScope ==> after.outputs == before.outputs && task is Nothing,
        message matches Message::SetGap(gap) ==> after.config.gap == gap,
        message matches Message::SetScope(scope) ==> after.scope == scope,
        task is SaveAndExit <==> message is Save && before.can_save,
        task is Exit <==> message is Cancel,
        task is SaveAndExit || task is Exit ==> after.outputs@ == Map::<u64, EditorOutput>::empty(),
{
}

/// Whoever leaves takes every overlay along.
pub proof fn leaving_destroys_every_overlay(
    before: Editor,
    after: Editor,
    message: Message,
    surface: u64,
    task: EditorTask,
    i: int,
)
    requires
        after.handles(before, message, surface, task),
        0 <= i < before.outputs.list().len(),
    ensures
        task matches EditorTask::SaveAndExit(gone) ==> gone@.contains(before.outputs.list()[i].0),
        task matches EditorTask::Exit(gone) ==> gone@.contains(before.outputs.list()[i].0),
{
    let all = surfaces(before.outputs.list());
    assert(all[i] == before.outputs.list()[i].0);
    assert(all.contains(before.outputs.list()[i].0));
}

/// A layout that is picked on a surface is shown on it from then on, and every other
/// surface shows what it did.
pub proof fn picked_layouts_are_shown(before: Editor, after: Editor, surface: u64, other: u64, layout_id: Seq<char>)
    requires
        after.selected(before, surface, layout_id),
        before.outputs@.contains_key(surface),
        before.config.layouts@.contains_key(layout_id),
        other != surface,
    ensures
        after.shown(surface) == Some(before.config.layouts@[layout_id]),
        after.shown(other) == before.shown(other),
{
}

/// An output that appears gets an overlay, with the layout that is assigned to it, or
/// the default where none is.
pub proof fn new_overlays_show_the_assigned_layout(
    before: Editor,
    after: Editor,
    wl_output: u64,
    info: OutputInfoLite,
    surface: u64,
    task: EditorTask,
)
    requires
        after.handles(before, Message::Output(OutputEvent::Created, wl_output, info), surface, task),
        info.name@.len() > 0,
        !before.is_shown(wl_output),
    ensures
        task == (EditorTask::OpenOverlay { surface, wl_output }),
        after.is_shown(wl_output),
        after.outputs@[surface].layout_id@ == match before.config.assigned_id((info.name@, None), None) {
            Some(id) => id,
            None => DEFAULT_LAYOUT_ID@,
        },
{
    assert(after.outputs@.contains_key(surface) && after.outputs@[surface].wl_output == wl_output);
}

/// An output without a name gets no overlay.
pub proof fn nameless_outputs_are_left_alone(
    before: Editor,
    after: Editor,
    wl_output: u64,
    info: OutputInfoLite,
    surface: u64,
    task: EditorTask,
)
    requires
        after.handles(before, Message::Output(OutputEvent::Created, wl_output, info), surface, task),
        info.name@.len() == 0,
    ensures
        after.outputs == before.outputs,
        task is Nothing,
{
}

/// An edit keeps the name of a layout of the user's own. A fork of a template begins
/// with the template's name and has more to it.
pub proof fn edits_keep_the_name(before: Editor, after: Editor, surface: u64, zones: Seq<ZoneRect>, id: Seq<char>)
    requires
        before.outputs@.contains_key(surface),
        id == before.outputs@[surface].layout_id@,
        before.config.layouts@.contains_key(id),
        after.edited(before, surface, zones),
    ensures
        after.shown(surface) matches Some(layout) && {
            let name = before.config.layouts@[id]@.name;
            &&& builtin(id) is None ==> layout@.name == name
            &&& builtin(id) is Some ==> layout@.name.len() > name.len() && layout@.name.take(name.len() as int) == name
        },
{
    reveal_strlit(" (edited)");
    let name = before.config.layouts@[id]@.name;
    assert((name + " (edited)"@).take(name.len() as int) =~= name);
}

} // verus!
