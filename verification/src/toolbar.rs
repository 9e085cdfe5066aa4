//! What the editor's overlay shows on an output: its heading, the layouts to pick
//! from, and the canvas.

use crate::binary64::{one_units, Binary64};
use crate::drawing::{is_drawn_at, lemma_whole_is_drawn};
use crate::editor::Editor;
use crate::layout::ZoneLayout;
use crate::table::{distinct_keys, lemma_mapping, mapping, Key, Table};
use crate::text::{decimal, digits, lemma_sorts_total, lemma_sorts_transitive, sorts_before, text_before};
use vstd::prelude::*;
use vstd::string::*;

verus! {

/// A layout that can be picked.
#[derive(Debug)]
pub struct Choice {
    pub id: String,
    pub name: String,
    /// Whether it is the one shown. It cannot be picked again.
    pub selected: bool,
}

/// What an overlay has to show.
#[derive(Debug)]
pub enum OverlayView {
    /// The surface belongs to no output.
    Empty,
    /// There is no layout to show.
    NoLayouts,
    Layout { heading: String, picker: Vec<Choice> },
}

/// The heading of an overlay.
pub open spec fn heading_text(output_name: Seq<char>, logical_size: (u32, u32)) -> Seq<char> {
    "Zones — "@ + output_name + " ("@ + digits(logical_size.0 as nat) + "x"@ + digits(logical_size.1 as nat) + ")"@
}

/// The heading of an overlay.
pub fn heading(output_name: &str, logical_size: (u32, u32)) -> (r: String)
    ensures
        r@ == heading_text(output_name@, logical_size),
{
    let mut text = "Zones — ".to_owned();
    text.append(output_name);
    text.append(" (");
    text.append(decimal(logical_size.0 as u128).as_str());
    text.append("x");
    text.append(decimal(logical_size.1 as u128).as_str());
    text.append(")");
    text
}

/// Whether a choice is that of a layout.
pub open spec fn is_choice(choice: Choice, layouts: Map<Seq<char>, ZoneLayout>, layout_name: Seq<char>) -> bool {
    &&& layouts.contains_key(choice.id@)
    &&& choice.name@ == layouts[choice.id@]@.name
    &&& choice.selected == (choice.name@ == layout_name)
}

/// Whether choices are in the order of their ids, each once.
pub open spec fn in_order(choices: Seq<Choice>) -> bool {
    forall|i: int, j: int|
        #![trigger choices[i], choices[j]]
        0 <= i < j < choices.len() ==> sorts_before(choices[i].id@, choices[j].id@, 0)
}

/// Whether a layout is among the choices.
pub open spec fn is_offered(choices: Seq<Choice>, id: Seq<char>) -> bool {
    exists|i: int| 0 <= i < choices.len() && (#[trigger] choices[i]).id@ == id
}

/// Put a choice in its place among others that are in order.
fn place(choices: &mut Vec<Choice>, choice: Choice)
    requires
        in_order(old(choices)@),
        !is_offered(old(choices)@, choice.id@),
    ensures
        in_order(final(choices)@),
        forall|id: Seq<char>|
            #[trigger] is_offered(final(choices)@, id) <==> is_offered(old(choices)@, id) || id == choice.id@,
        forall|k: int|
            0 <= k < final(choices)@.len() ==> #[trigger] final(choices)@[k] == choice || old(choices)@.contains(
                final(choices)@[k],
            ),
{
    let ghost before = choices@;
    let mut p: usize = 0;
    while p < choices.len() && text_before(&choices[p].id, &choice.id)
        invariant
            p <= choices@.len(),
            choices@ == before,
            forall|k: int| 0 <= k < p ==> sorts_before((#[trigger] before[k]).id@, choice.id@, 0),
        decreases choices@.len() - p,
    {
        p = p + 1;
    }
    proof {
        if p < before.len() {
            assert(before[p as int].id@ != choice.id@);
            lemma_sorts_total(before[p as int].id@, choice.id@, 0);
            assert forall|k: int| p <= k < before.len() implies sorts_before(
                choice.id@,
                (#[trigger] before[k]).id@,
                0,
            ) by {
                if k > p {
                    let q = before[p as int];
                    lemma_sorts_transitive(choice.id@, before[p as int].id@, before[k].id@, 0);
                }
            }
        }
    }
    choices.insert(p, choice);
    proof {
        let after = choices@;
        assert forall|i: int, j: int|
            #![trigger after[i], after[j]]
            0 <= i < j < after.len() implies sorts_before(after[i].id@, after[j].id@, 0) by {
            if i < p && j < p {
                assert(after[i] == before[i] && after[j] == before[j]);
            } else if i < p && j > p {
                assert(after[i] == before[i] && after[j] == before[j - 1]);
            } else if i > p {
                assert(after[i] == before[i - 1] && after[j] == before[j - 1]);
            } else if i < p {
                assert(after[i] == before[i]);
            } else {
                assert(after[j] == before[j - 1]);
            }
        }
        assert forall|id: Seq<char>| #[trigger] is_offered(after, id) <==> is_offered(before, id) || id
            == choice.id@ by {
            if is_offered(after, id) {
                let k = choose|k: int| 0 <= k < after.len() && (#[trigger] after[k]).id@ == id;
                if k < p {
                    assert(before[k].id@ == id);
                } else if k > p {
                    assert(before[k - 1].id@ == id);
                }
            }
            if is_offered(before, id) {
                let k = choose|k: int| 0 <= k < before.len() && (#[trigger] before[k]).id@ == id;
                if k < p {
                    assert(after[k].id@ == id);
                } else {
                    assert(after[k + 1].id@ == id);
                }
            }
            assert(after[p as int].id@ == choice.id@);
        }
        assert forall|k: int| 0 <= k < after.len() implies #[trigger] after[k] == choice || before.contains(
            after[k],
        ) by {
            if k < p {
                assert(before[k] == after[k]);
            } else if k > p {
                assert(before[k - 1] == after[k]);
            }
        }
    }
}

/// The layouts to pick from, in the order of their ids so that the picker does not
/// reshuffle, with the one of a name selected.
pub fn choices(layouts: &Table<String, ZoneLayout>, layout_name: &str) -> (r: Vec<Choice>)
    ensures
        in_order(r@),
        forall|i: int| 0 <= i < r@.len() ==> is_choice(#[trigger] r@[i], layouts@, layout_name@),
        forall|id: Seq<char>| #[trigger] layouts@.contains_key(id) ==> is_offered(r@, id),
{
    let wanted = layout_name.to_owned();
    let n: usize = layouts.len();
    let mut found: Vec<Choice> = Vec::new();
    let mut i: usize = 0;
    proof {
        lemma_mapping(layouts.list());
    }
    while i < n
        invariant
            i <= n,
            n == layouts.list().len(),
            wanted@ == layout_name@,
            distinct_keys(layouts.list()),
            in_order(found@),
            forall|k: int| 0 <= k < found@.len() ==> is_choice(#[trigger] found@[k], layouts@, layout_name@),
            forall|id: Seq<char>|
                #[trigger] is_offered(found@, id) <==> exists|j: int|
                    0 <= j < i && (#[trigger] layouts.list()[j]).0@ == id,
        decreases n - i,
    {
        let entry = layouts.entry(i);
        let name = entry.1.name.clone();
        let selected = name.same_key(&wanted);
        let choice = Choice { id: entry.0.clone(), name, selected };
        let ghost before = found@;
        proof {
            if is_offered(found@, choice.id@) {
                let j = choose|j: int| 0 <= j < i && (#[trigger] layouts.list()[j]).0@ == choice.id@;
                assert(layouts.list()[j].0@ != layouts.list()[i as int].0@);
            }
        }
        place(&mut found, choice);
        proof {
            assert forall|k: int| 0 <= k < found@.len() implies is_choice(
                #[trigger] found@[k],
                layouts@,
                layout_name@,
            ) by {
                if found@[k] != choice {
                    let m = choose|m: int| 0 <= m < before.len() && before[m] == found@[k];
                    assert(is_choice(before[m], layouts@, layout_name@));
                }
            }
            assert forall|id: Seq<char>| #[trigger] is_offered(found@, id) <==> exists|j: int|
                0 <= j < i + 1 && (#[trigger] layouts.list()[j]).0@ == id by {
                if id == choice.id@ {
                    assert(layouts.list()[i as int].0@ == id);
                }
                if is_offered(before, id) {
                    let j = choose|j: int| 0 <= j < i && (#[trigger] layouts.list()[j]).0@ == id;
                    assert(layouts.list()[j].0@ == id);
                }
            }
        }
        i = i + 1;
    }
    let _ = layouts.len();
    proof {
        lemma_mapping(layouts.list());
        assert forall|id: Seq<char>| #[trigger] layouts@.contains_key(id) implies is_offered(found@, id) by {
            assert(mapping(layouts.list()).contains_key(id));
        }
    }
    found
}

/// Space between snapped windows as the canvas draws it, in single precision.
pub open spec fn drawn_gap(gap: Option<u32>, theme_gap: u32) -> Binary64 {
    Binary64::spec_count(
        match gap {
            Some(g) => g as u64,
            None => theme_gap as u64,
        },
    ).narrowed()
}

/// The canvas draws the configured gap whatever the theme's is, and the theme's where
/// none is configured, pixel for pixel.
pub proof fn the_configured_gap_is_drawn(gap: u32, theme_gap: u32, other: u32)
    ensures
        drawn_gap(Some(gap), theme_gap) == drawn_gap(Some(gap), other),
        drawn_gap(None, gap) == drawn_gap(Some(gap), other),
        gap <= 0x1_0000 ==> is_drawn_at(drawn_gap(Some(gap), theme_gap), gap * (one_units() * one_units())),
{
    if gap <= 0x1_0000 {
        lemma_whole_is_drawn(gap as i32);
        assert(Binary64::spec_count(gap as u64) == Binary64::spec_whole(gap as i32));
    }
}

/// Space between snapped windows as the canvas draws it, in single precision: the
/// configured gap, else the theme's.
pub fn canvas_gap(gap: Option<u32>, theme_gap: u32) -> (r: Binary64)
    ensures
        r == drawn_gap(gap, theme_gap),
{
    let pixels: u64 = match gap {
        Some(g) => g as u64,
        None => theme_gap as u64,
    };
    Binary64::count(pixels).narrowed()
}

/// The layout that is shown is selected, and only layouts of its name are.
pub proof fn the_layout_that_is_shown_is_selected(
    choice: Choice,
    layouts: Map<Seq<char>, ZoneLayout>,
    layout_name: Seq<char>,
)
    requires
        is_choice(choice, layouts, layout_name),
    ensures
        layouts.contains_key(choice.id@),
        choice.name@ == layouts[choice.id@]@.name,
        choice.selected <==> layouts[choice.id@]@.name == layout_name,
{
}

/// What the overlay on a surface shows.
pub fn view(editor: &Editor, surface: u64) -> (r: OverlayView)
    ensures
        r is Empty <==> !editor.outputs@.contains_key(surface),
        r is NoLayouts <==> editor.outputs@.contains_key(surface) && editor.shown(surface) is None,
        r matches OverlayView::Layout { heading, picker } ==> {
            let output = editor.outputs@[surface];
            &&& heading@ == heading_text(output.name@, output.logical_size)
            &&& in_order(picker@)
            &&& forall|i: int|
                0 <= i < picker@.len() ==> is_choice(
                    #[trigger] picker@[i],
                    editor.config.layouts@,
                    editor.shown(surface)->0@.name,
                )
            &&& forall|id: Seq<char>|
                #[trigger] editor.config.layouts@.contains_key(id) ==> is_offered(picker@, id)
        },
{
    let output = match editor.outputs.get(&surface) {
        Some(output) => output,
        None => return OverlayView::Empty,
    };
    let layout = match editor.layout_for(surface) {
        Some(layout) => layout,
        None => return OverlayView::NoLayouts,
    };
    OverlayView::Layout {
        heading: heading(output.name.as_str(), output.logical_size),
        picker: choices(&editor.config.layouts, layout.name.as_str()),
    }
}

} // verus!
