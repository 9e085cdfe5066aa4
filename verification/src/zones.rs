//! Resolving user-defined snap zones for an output.
//!
//! The layout that applies to an output and a workspace is picked, laid out over
//! the area that panels and docks leave, and converted between pixels and
//! fractions.

use crate::binary64::{lemma_signed, one_units, Binary64};
use crate::config::{characters, AppZoneMemories, AppZoneMemory, EdidProduct, OutputMatch, ZonesConfig};
use crate::layout::{bounding, copied_zones, targets, usable, LayoutView, ZoneLayout};
use crate::pixel::{zone_pixels, zone_relative_geometry, PixelPoint, PixelRect, TiledCorners};
use crate::precision::{apart, lemma_rounded_finite, lemma_rounded_near, lemma_whole};
use crate::rect::ZoneRect;
use crate::rounding::{lemma_units_small, rounded, units, STEPS};
use crate::spans::{copied, same_indices};
use vstd::arithmetic::power2::{lemma2_to64, lemma_pow2_pos, lemma_pow2_strictly_increases, pow2};
use vstd::prelude::*;

verus! {

/// A layout resolved against a specific output, ready to hit-test and render.
///
/// Built once when a drag arms zone snapping and reused for every motion event.
#[derive(Debug)]
pub struct ZoneContext {
    /// Id of the resolved layout, carried onto the window when it snaps.
    pub layout_id: String,
    /// The usable zones of that layout.
    pub layout: ZoneLayout,
    /// The output's non-exclusive area, output-relative: zones are laid out over
    /// what panels and docks leave behind, not the raw output.
    pub area: PixelRect,
    pub gaps: (i32, i32),
    /// Gap override in force when this was resolved, recorded onto each snap so
    /// placement matches what the overlay drew.
    pub gap: Option<u32>,
    /// Shared-edge span threshold, in fraction units. Zero disables spanning.
    pub edge_threshold: Binary64,
}

/// A resolved drop target: which zones, and the pixels they add up to.
#[derive(Clone, Debug, PartialEq)]
pub struct ZoneHit {
    pub zones: Vec<usize>,
    pub rect: ZoneRect,
    pub geometry: PixelRect,
}

/// Where a floating window is snapped to.
#[derive(Clone, Debug, PartialEq)]
pub enum FloatingTiled {
    /// Half and quarter snapping.
    Corner(TiledCorners),
    /// A zone or several zones of a layout.
    Zone { layout: String, zones: Vec<usize>, rect: ZoneRect, gap: Option<u32> },
}

/// The gaps that a recorded gap stands for, else those of the theme.
pub open spec fn gaps_of(gap: Option<u32>, theme: (i32, i32)) -> (i32, i32) {
    match gap {
        Some(g) => if g <= i32::MAX {
            (g as i32, g as i32)
        } else {
            (i32::MAX, i32::MAX)
        },
        None => theme,
    }
}

/// Where a point lies in an area, as fractions of it.
pub open spec fn fraction_in(area: PixelRect, point: PixelPoint) -> Option<(Binary64, Binary64)> {
    if area.contains(point) {
        Some(
            (
                Binary64::spec_whole((point.x - area.loc.x) as i32).over(Binary64::spec_whole(area.size.w)),
                Binary64::spec_whole((point.y - area.loc.y) as i32).over(Binary64::spec_whole(area.size.h)),
            ),
        )
    } else {
        None
    }
}

impl FloatingTiled {
    pub open spec fn spec_relative_geometry(&self, area: PixelRect, gaps: (i32, i32)) -> PixelRect {
        match self {
            FloatingTiled::Corner(corner) => corner.relative_geometry(area, gaps),
            FloatingTiled::Zone { rect, gap, .. } => zone_pixels(*rect, area, gaps_of(*gap, gaps).1),
        }
    }

    /// Pixels that a window snapped this way takes up. `gaps` are those of the
    /// theme; a zone is laid out with the gap it was snapped with.
    #[verifier::when_used_as_spec(spec_relative_geometry)]
    pub fn relative_geometry(&self, area: PixelRect, gaps: (i32, i32)) -> (r: PixelRect)
        ensures
            r == self.spec_relative_geometry(area, gaps),
    {
        match self {
            FloatingTiled::Corner(corner) => corner.relative_geometry(area, gaps),
            FloatingTiled::Zone { rect, gap, .. } => {
                let with = match gap {
                    Some(g) => if *g <= i32::MAX as u32 {
                        (*g as i32, *g as i32)
                    } else {
                        (i32::MAX, i32::MAX)
                    },
                    None => gaps,
                };
                zone_relative_geometry(*rect, area, with)
            },
        }
    }

    /// The zones of a layout that a window is snapped to.
    pub open spec fn names_zones(self, layout: Seq<char>, zones: Seq<usize>, rect: ZoneRect, gap: Option<u32>) -> bool {
        self matches FloatingTiled::Zone { layout: l, zones: z, rect: r, gap: g } && l@ == layout && z@ == zones && r
            == rect && g == gap
    }
}

impl Clone for ZoneContext {
    fn clone(&self) -> (r: Self)
        ensures
            r.layout_id == self.layout_id,
            r.layout@ == self.layout@,
            r.area == self.area,
            r.gaps == self.gaps,
            r.gap == self.gap,
            r.edge_threshold == self.edge_threshold,
    {
        ZoneContext {
            layout_id: self.layout_id.clone(),
            layout: ZoneLayout::new(self.layout.name.as_str(), copied_zones(self.layout.zones.as_slice())),
            area: self.area,
            gaps: self.gaps,
            gap: self.gap,
            edge_threshold: self.edge_threshold,
        }
    }
}

impl ZoneContext {
    /// Whether this is what a layout resolves to.
    pub open spec fn resolves(
        self,
        config: ZonesConfig,
        id: Seq<char>,
        area: PixelRect,
        gaps: (i32, i32),
    ) -> bool {
        &&& self.layout_id@ == id
        &&& self.layout@ == LayoutView {
            name: config.layouts@[id]@.name,
            zones: usable(config.layouts@[id]@.zones),
        }
        &&& self.area == area
        &&& self.gaps == gaps
        &&& self.gap == config.gap
        &&& self.edge_threshold == config.threshold(area.size.w, area.size.h)
    }

    /// Whether `hit` is what a cursor at a point snaps to.
    pub open spec fn hits(self, point: PixelPoint, hit: Option<ZoneHit>) -> bool {
        match fraction_in(self.area, point) {
            None => hit is None,
            Some((fx, fy)) => match hit {
                None => targets(self.layout.zones@, fx, fy, self.edge_threshold, None),
                Some(h) => targets(self.layout.zones@, fx, fy, self.edge_threshold, Some((h.zones@, h.rect)))
                    && h.geometry == zone_pixels(h.rect, self.area, self.gaps.1),
            },
        }
    }

    /// Resolve the layout that applies to an output on the given workspace. `area`
    /// is what panels and docks leave of the output.
    ///
    /// Returns `None` when zones are disabled, no layout is assigned, the assigned
    /// layout has no usable zones, or there is no area. In each case the caller
    /// falls back to the built-in edge snapping.
    pub fn resolve(
        config: &ZonesConfig,
        output: &OutputMatch,
        area: PixelRect,
        workspace_id: Option<&str>,
        gaps: (i32, i32),
    ) -> (r: Option<Self>)
        ensures
            r is Some <==> is_resolvable(*config, output@, characters(workspace_id), area),
            r matches Some(context) ==> context.resolves(
                *config,
                config.assigned_id(output@, characters(workspace_id))->0,
                area,
                gaps,
            ),
    {
        if !config.enabled {
            return None;
        }
        let layout = match config.layout_for(output, workspace_id) {
            Some(layout) => layout.sanitized(),
            None => return None,
        };
        if layout.zones.len() == 0 {
            return None;
        }
        let layout_id = match config.layout_id_for(output, workspace_id) {
            Some(id) => id.clone(),
            None => return None,
        };
        if area.size.w <= 0 || area.size.h <= 0 {
            return None;
        }
        let edge_threshold = config.edge_threshold_fraction(area.size.w, area.size.h);
        Some(ZoneContext { layout_id, layout, area, gaps, gap: config.gap, edge_threshold })
    }

    /// A layout over an area, whatever any config says of it.
    pub fn with_layout(
        layout_id: &str,
        layout: ZoneLayout,
        area: PixelRect,
        gaps: (i32, i32),
        edge_threshold: Binary64,
    ) -> (r: Self)
        ensures
            r.layout_id@ == layout_id@,
            r.layout == layout,
            r.area == area,
            r.gaps == gaps,
            r.gap is None,
            r.edge_threshold == edge_threshold,
    {
        ZoneContext { layout_id: layout_id.to_owned(), layout, area, gaps, gap: None, edge_threshold }
    }

    /// Gap override to stamp onto snaps made from this layout.
    pub fn gap(&self) -> (r: Option<u32>)
        ensures
            r == self.gap,
    {
        self.gap
    }

    pub fn len(&self) -> (r: usize)
        ensures
            r == self.layout.zones@.len(),
    {
        self.layout.zones.len()
    }

    pub fn is_empty(&self) -> (r: bool)
        ensures
            r == (self.layout.zones@.len() == 0),
    {
        self.layout.zones.len() == 0
    }

    pub fn name(&self) -> (r: &str)
        ensures
            r@ == self.layout.name@,
    {
        self.layout.name.as_str()
    }

    /// The usable layout these zones came from, for callers that need to reason
    /// about the zones themselves rather than hit-test them.
    pub fn layout(&self) -> (r: &ZoneLayout)
        ensures
            *r == self.layout,
    {
        &self.layout
    }

    /// Pixel geometry of a single zone.
    pub fn zone_geometry(&self, index: usize) -> (r: Option<PixelRect>)
        ensures
            r == if index < self.layout.zones@.len() {
                Some(zone_pixels(self.layout.zones@[index as int], self.area, self.gaps.1))
            } else {
                None
            },
    {
        if index < self.layout.zones.len() {
            Some(zone_relative_geometry(self.layout.zones[index], self.area, self.gaps))
        } else {
            None
        }
    }

    /// Pixel geometry of every zone, for drawing the overlay.
    pub fn geometries(&self) -> (r: Vec<PixelRect>)
        ensures
            r@ == Seq::new(
                self.layout.zones@.len(),
                |i: int| zone_pixels(self.layout.zones@[i], self.area, self.gaps.1),
            ),
    {
        let mut found: Vec<PixelRect> = Vec::new();
        let mut i: usize = 0;
        while i < self.layout.zones.len()
            invariant
                i <= self.layout.zones@.len(),
                found@.len() == i,
                forall|j: int|
                    0 <= j < i ==> #[trigger] found@[j] == zone_pixels(
                        self.layout.zones@[j],
                        self.area,
                        self.gaps.1,
                    ),
            decreases self.layout.zones@.len() - i,
        {
            found.push(zone_relative_geometry(self.layout.zones[i], self.area, self.gaps));
            i = i + 1;
        }
        found
    }

    /// Resolve what a cursor at `point` would snap to.
    ///
    /// `point` is output-relative. Points outside the zone area, over a panel say,
    /// yield `None` rather than clamping, so dragging onto a panel does not
    /// spuriously target the nearest zone.
    pub fn hit(&self, point: PixelPoint) -> (r: Option<ZoneHit>)
        ensures
            self.hits(point, r),
    {
        let (fx, fy) = match self.to_fraction(point) {
            Some(fraction) => fraction,
            None => return None,
        };
        match self.layout.target_at(fx, fy, self.edge_threshold) {
            Some(target) => Some(
                ZoneHit {
                    geometry: zone_relative_geometry(target.rect, self.area, self.gaps),
                    zones: target.zones,
                    rect: target.rect,
                },
            ),
            None => None,
        }
    }

    /// Geometry for an explicit set of zone indices, used by keyboard snapping
    /// where there is no cursor to hit-test.
    pub fn hit_for(&self, zones: &[usize]) -> (r: Option<ZoneHit>)
        ensures
            match r {
                Some(hit) => {
                    &&& bounding(self.layout.zones@, zones@) == Some(hit.rect)
                    &&& hit.zones@ == zones@
                    &&& hit.geometry == zone_pixels(hit.rect, self.area, self.gaps.1)
                },
                None => bounding(self.layout.zones@, zones@) is None,
            },
    {
        match self.layout.span(zones) {
            Some(rect) => Some(
                ZoneHit {
                    zones: copied(zones),
                    rect,
                    geometry: zone_relative_geometry(rect, self.area, self.gaps),
                },
            ),
            None => None,
        }
    }

    /// Where a point lies in the zone area, as fractions of it.
    pub fn to_fraction(&self, point: PixelPoint) -> (r: Option<(Binary64, Binary64)>)
        ensures
            r == fraction_in(self.area, point),
    {
        if !self.area.contains(point) {
            return None;
        }
        Some(
            (
                Binary64::whole(point.x - self.area.loc.x).over(Binary64::whole(self.area.size.w)),
                Binary64::whole(point.y - self.area.loc.y).over(Binary64::whole(self.area.size.h)),
            ),
        )
    }

    /// The snap that a drop on a target makes.
    pub fn snap(&self, hit: &ZoneHit) -> (r: FloatingTiled)
        ensures
            r.names_zones(self.layout_id@, hit.zones@, hit.rect, self.gap),
    {
        FloatingTiled::Zone {
            layout: self.layout_id.clone(),
            zones: copied(hit.zones.as_slice()),
            rect: hit.rect,
            gap: self.gap,
        }
    }
}

/// Whether there is anything to snap to: zones are enabled, and the layout
/// assigned to the output has usable zones on an area that is there.
pub open spec fn is_resolvable(
    config: ZonesConfig,
    output: (Seq<char>, Option<EdidProduct>),
    workspace: Option<Seq<char>>,
    area: PixelRect,
) -> bool {
    &&& config.enabled
    &&& config.assigned_id(output, workspace) matches Some(id)
    &&& config.layouts@.contains_key(id)
    &&& usable(config.layouts@[id]@.zones).len() > 0
    &&& area.size.w > 0
    &&& area.size.h > 0
}

/// Zone index a window currently occupies, if it is zone-snapped.
///
/// A spanned window reports its first zone, so cycling from a span lands somewhere
/// predictable rather than doing nothing.
pub fn current_zone(tiled: Option<&FloatingTiled>) -> (r: Option<(String, usize)>)
    ensures
        match r {
            Some((id, index)) => tiled matches Some(FloatingTiled::Zone { layout, zones, .. }) && id@ == layout@
                && zones@.contains(index) && forall|i: int| 0 <= i < zones@.len() ==> index <= #[trigger] zones@[i],
            None => match tiled {
                Some(FloatingTiled::Zone { zones, .. }) => zones@.len() == 0,
                _ => true,
            },
        },
{
    match tiled {
        Some(FloatingTiled::Zone { layout, zones, .. }) => {
            if zones.len() == 0 {
                return None;
            }
            let mut least: usize = zones[0];
            let mut i: usize = 1;
            while i < zones.len()
                invariant
                    1 <= i <= zones@.len(),
                    zones@.contains(least),
                    forall|j: int| 0 <= j < i ==> least <= #[trigger] zones@[j],
                decreases zones@.len() - i,
            {
                if zones[i] < least {
                    least = zones[i];
                }
                i = i + 1;
            }
            Some((layout.clone(), least))
        },
        _ => None,
    }
}

/// Where a remembered zone places a window: the layout, its zones and what they
/// add up to.
pub open spec fn recalled(
    config: ZonesConfig,
    memories: Map<Seq<char>, AppZoneMemory>,
    app_id: Seq<char>,
    output: (Seq<char>, Option<EdidProduct>),
    workspace: Option<Seq<char>>,
) -> Option<(Seq<char>, Seq<usize>, ZoneRect)> {
    let memory = memories[app_id];
    let id = memory.layout@;
    if config.remember_apps && memories.contains_key(app_id) && config.assigned_id(output, workspace) == Some(id)
        && config.layouts@.contains_key(id) {
        match bounding(usable(config.layouts@[id]@.zones), memory.zones@) {
            Some(rect) => Some((id, memory.zones@, rect)),
            None => None,
        }
    } else {
        None
    }
}

/// Zone a newly mapped window of `app_id` should be placed in, if any.
///
/// Only applies when the remembered layout is still the one assigned to this
/// output and workspace: a window should not jump into coordinates from a layout
/// that is no longer in use.
pub fn remembered_zone(
    config: &ZonesConfig,
    memories: &AppZoneMemories,
    app_id: &str,
    output: &OutputMatch,
    workspace_id: Option<&str>,
) -> (r: Option<FloatingTiled>)
    ensures
        match recalled(*config, memories@, app_id@, output@, characters(workspace_id)) {
            Some((layout, zones, rect)) => r matches Some(tiled) && tiled.names_zones(layout, zones, rect, config.gap),
            None => r is None,
        },
{
    if !config.remember_apps {
        return None;
    }
    let memory = match memories.get(&app_id.to_owned()) {
        Some(memory) => memory,
        None => return None,
    };
    let active = match config.layout_id_for(output, workspace_id) {
        Some(id) => id,
        None => return None,
    };
    if *active != memory.layout {
        return None;
    }
    let layout = match config.layouts.get(&memory.layout) {
        Some(layout) => layout.sanitized(),
        None => return None,
    };
    let rect = match layout.span(memory.zones.as_slice()) {
        Some(rect) => rect,
        None => return None,
    };
    Some(
        FloatingTiled::Zone {
            layout: memory.layout.clone(),
            zones: copied(memory.zones.as_slice()),
            rect,
            gap: config.gap,
        },
    )
}

/// Whether a snap changes what is remembered of an app.
pub open spec fn is_news(
    remember_apps: bool,
    memories: Map<Seq<char>, AppZoneMemory>,
    app_id: Seq<char>,
    layout: Seq<char>,
    zones: Seq<usize>,
) -> bool {
    &&& remember_apps
    &&& app_id.len() > 0
    &&& !(memories.contains_key(app_id) && memories[app_id].layout@ == layout && memories[app_id].zones@ == zones)
}

/// Remember where an app was last snapped. Tells whether anything changed, and so
/// whether the memory has to be saved.
pub fn remember_app_zone(
    remember_apps: bool,
    memories: &mut AppZoneMemories,
    app_id: String,
    layout: String,
    zones: Vec<usize>,
) -> (r: bool)
    ensures
        r == is_news(remember_apps, old(memories)@, app_id@, layout@, zones@),
        final(memories)@ == if r {
            old(memories)@.insert(app_id@, (AppZoneMemory { layout, zones }))
        } else {
            old(memories)@
        },
{
    if app_id.as_str().is_empty() || !remember_apps {
        return false;
    }
    if let Some(known) = memories.get(&app_id) {
        if known.layout == layout && same_indices(known.zones.as_slice(), zones.as_slice()) {
            return false;
        }
    }
    memories.insert(app_id, AppZoneMemory { layout, zones });
    true
}

/// What is remembered of an app brings its next window back to the same zones, as
/// long as the layout is still the one assigned.
pub proof fn remembered_zones_come_back(
    config: ZonesConfig,
    before: Map<Seq<char>, AppZoneMemory>,
    app_id: Seq<char>,
    memory: AppZoneMemory,
    output: (Seq<char>, Option<EdidProduct>),
    workspace: Option<Seq<char>>,
    rect: ZoneRect,
)
    requires
        config.remember_apps,
        config.assigned_id(output, workspace) == Some(memory.layout@),
        config.layouts@.contains_key(memory.layout@),
        bounding(usable(config.layouts@[memory.layout@]@.zones), memory.zones@) == Some(rect),
    ensures
        recalled(config, before.insert(app_id, memory), app_id, output, workspace) == Some(
            (memory.layout@, memory.zones@, rect),
        ),
{
}

/// A zone remembered from a layout other than the one assigned is ignored.
pub proof fn memory_is_ignored_under_another_layout(
    config: ZonesConfig,
    memories: Map<Seq<char>, AppZoneMemory>,
    app_id: Seq<char>,
    output: (Seq<char>, Option<EdidProduct>),
    workspace: Option<Seq<char>>,
)
    requires
        config.assigned_id(output, workspace) != Some(memories[app_id].layout@),
    ensures
        recalled(config, memories, app_id, output, workspace) is None,
{
}

/// With remembering switched off, nothing is recalled and nothing is recorded.
pub proof fn nothing_is_remembered_when_off(
    config: ZonesConfig,
    memories: Map<Seq<char>, AppZoneMemory>,
    app_id: Seq<char>,
    output: (Seq<char>, Option<EdidProduct>),
    workspace: Option<Seq<char>>,
    layout: Seq<char>,
    zones: Seq<usize>,
)
    requires
        !config.remember_apps,
    ensures
        recalled(config, memories, app_id, output, workspace) is None,
        !is_news(config.remember_apps, memories, app_id, layout, zones),
{
}

/// A snap is placed where the overlay showed it, whatever the theme's gaps are at
/// that time, provided that a gap is configured.
pub proof fn placement_matches_preview(
    config: ZonesConfig,
    context: ZoneContext,
    id: Seq<char>,
    area: PixelRect,
    theme: (i32, i32),
    later: (i32, i32),
    hit: ZoneHit,
    snap: FloatingTiled,
)
    requires
        context.resolves(config, id, area, config.gaps_in_force(theme)),
        hit.geometry == zone_pixels(hit.rect, context.area, context.gaps.1),
        snap.names_zones(context.layout_id@, hit.zones@, hit.rect, context.gap),
        config.gap is Some || later == theme,
    ensures
        snap.relative_geometry(area, later) == hit.geometry,
{
}

/// Zones are opt-in: as long as nothing is assigned, no output resolves to any.
pub proof fn nothing_resolves_until_assigned(
    config: ZonesConfig,
    output: (Seq<char>, Option<EdidProduct>),
    workspace: Option<Seq<char>>,
    area: PixelRect,
)
    requires
        config.per_output@ == Map::<(Seq<char>, Option<EdidProduct>), String>::empty(),
        config.per_workspace@ == Map::<Seq<char>, String>::empty(),
    ensures
        !is_resolvable(config, output, workspace, area),
{
}

/// What was just remembered is no news.
pub proof fn remembering_twice_is_remembering_once(
    remember_apps: bool,
    memories: Map<Seq<char>, AppZoneMemory>,
    app_id: Seq<char>,
    memory: AppZoneMemory,
)
    ensures
        !is_news(remember_apps, memories.insert(app_id, memory), app_id, memory.layout@, memory.zones@),
{
}

/// Where a point lies in an area is a fraction of it, from nothing up to but not
/// including all of it.
pub proof fn points_in_the_area_are_fractions(area: PixelRect, point: PixelPoint)
    requires
        area.contains(point),
    ensures
        fraction_in(area, point) matches Some((fx, fy)) && 0 <= fx.value() < one_units() && 0 <= fy.value()
            < one_units() && fx.is_finite() && fy.is_finite(),
{
    lemma_part_of((point.x - area.loc.x) as i32, area.size.w);
    lemma_part_of((point.y - area.loc.y) as i32, area.size.h);
}

proof fn lemma_part_of(part: i32, whole: i32)
    requires
        0 <= part < whole,
    ensures
        Binary64::spec_whole(part).over(Binary64::spec_whole(whole)).is_finite(),
        0 <= Binary64::spec_whole(part).over(Binary64::spec_whole(whole)).value() < one_units(),
{
    lemma_whole(part);
    lemma_whole(whole);
    lemma_units_small(0);
    reveal(Binary64::spec_over);
    let one = one_units();
    lemma_pow2_pos(1074);
    lemma_pow2_strictly_increases(1074, 1990);
    lemma2_to64();
    vstd::arithmetic::power2::lemma2_to64_rest();
    lemma_pow2_strictly_increases(62, 1074);
    let a = Binary64::spec_whole(part);
    let b = Binary64::spec_whole(whole);
    let n = (part * one) * one;
    let d = whole * one;
    assert(d >= one) by (nonlinear_arith)
        requires
            d == whole * one,
            whole >= 1,
    ;
    assert(n >= 0) by (nonlinear_arith)
        requires
            n == (part * one) * one,
            part >= 0,
    ;
    assert(n <= d * pow2(1990)) by (nonlinear_arith)
        requires
            n == (part * one) * one,
            d == whole * one,
            part < whole,
            part >= 0,
            one <= pow2(1990),
            one > 0,
    ;
    assert(b.code() != 0);
    assert(units(a.code()) * one == n);
    lemma_rounded_finite(n as nat, d as nat);
    lemma_rounded_near(n as nat, d as nat);
    let code = rounded(n as nat, d as nat);
    lemma_signed(false, code);
    let u = units(code) as int;
    if u >= one {
        let off = apart(u * d, n);
        assert(u * d >= one * d) by (nonlinear_arith)
            requires
                u >= one,
                d >= 0,
        ;
        assert(d >= part * one + one) by (nonlinear_arith)
            requires
                d == whole * one,
                part + 1 <= whole,
                one > 0,
        ;
        assert(one * d >= (part * one) * one + one * one) by (nonlinear_arith)
            requires
                d >= part * one + one,
                one > 0,
        ;
        assert(off >= one * one);
        assert(n + STEPS * d < 2 * STEPS * (one * one)) by (nonlinear_arith)
            requires
                n == (part * one) * one,
                d == whole * one,
                0 <= part < 0x8000_0000,
                0 <= whole < 0x8000_0000,
                one > 0x4000_0000_0000_0000,
                STEPS == 0x10_0000_0000_0000,
        ;
        assert(2 * STEPS * (one * one) <= 2 * STEPS * off) by (nonlinear_arith)
            requires
                off >= one * one,
        ;
        assert(false);
    }
}

/// Nothing resolves while zones are switched off, where there is no room, or where the
/// layout that is assigned is not there or has no zone of use.
pub proof fn nothing_resolves_without_zones_or_room(
    config: ZonesConfig,
    output: (Seq<char>, Option<EdidProduct>),
    workspace: Option<Seq<char>>,
    area: PixelRect,
)
    requires
        !config.enabled || area.size.w <= 0 || area.size.h <= 0 || (config.assigned_id(output, workspace) matches Some(id)
            && (!config.layouts@.contains_key(id) || forall|i: int|
            0 <= i < config.layouts@[id]@.zones.len() ==> !(#[trigger] config.layouts@[id]@.zones[i]).is_valid())),
    ensures
        !is_resolvable(config, output, workspace, area),
{
    if let Some(id) = config.assigned_id(output, workspace) {
        if config.layouts@.contains_key(id) {
            lemma_none_usable(config.layouts@[id]@.zones);
        }
    }
}

proof fn lemma_none_usable(zones: Seq<ZoneRect>)
    ensures
        (forall|i: int| 0 <= i < zones.len() ==> !(#[trigger] zones[i]).is_valid()) ==> usable(zones).len() == 0,
    decreases zones.len(),
{
    if zones.len() > 0 {
        lemma_none_usable(zones.drop_last());
        if forall|i: int| 0 <= i < zones.len() ==> !(#[trigger] zones[i]).is_valid() {
            assert(!zones[zones.len() - 1].is_valid());
            assert forall|i: int| 0 <= i < zones.drop_last().len() implies !(#[trigger] zones.drop_last()[i]).is_valid() by {
                assert(!zones[i].is_valid());
            }
        }
    }
}

/// A window without an app id is not remembered.
pub proof fn nameless_windows_are_not_remembered(
    remember_apps: bool,
    memories: Map<Seq<char>, AppZoneMemory>,
    layout: Seq<char>,
    zones: Seq<usize>,
)
    ensures
        !is_news(remember_apps, memories, Seq::<char>::empty(), layout, zones),
{
}

/// With remembering switched on, a snap of an app to other zones, or to zones of another
/// layout, than those that are remembered is remembered.
pub proof fn snaps_elsewhere_are_remembered(
    memories: Map<Seq<char>, AppZoneMemory>,
    app_id: Seq<char>,
    layout: Seq<char>,
    zones: Seq<usize>,
)
    requires
        app_id.len() > 0,
        memories.contains_key(app_id) ==> memories[app_id].layout@ != layout || memories[app_id].zones@ != zones,
    ensures
        is_news(true, memories, app_id, layout, zones),
{
}

} // verus!
