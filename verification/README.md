# COSMIC Fancy Pants

FancyZones-style window snapping: user-defined zone layouts, a drag that snaps a
window into the zone under the cursor or across the zones that share an edge near
it, keyboard cycling and spans, and an editor for the layouts.

`src/` is the library. Every item of it is verified with Verus, and nothing in it is
taken on trust. `app/` connects it to the desktop: `app/main.rs` is the layout
editor, `app/compositor/` is what a compositor calls.

## Layout of `src/`

| Modules | What they hold |
| --- | --- |
| `rounding`, `binary64`, `conversion`, `precision` | Double precision numbers told by their bits, each operation rounded exactly once, and how far a rounded result can be off |
| `rect`, `layout`, `templates`, `table`, `config` | Zones as fractions of an output, layouts, the built-in templates, the settings |
| `spans`, `targeting`, `tolerance`, `stability`, `spanning`, `tiling` | Growing and shrinking spans, and what holds of hit-testing, spans and edits of a zone |
| `counting`, `covering`, `equal_parts`, `retiling`, `rejoining`, `undoing` | Layouts as a whole: what it means that one is tiled, that templates are, that edits keep it so, and which edits undo one another |
| `pixel`, `alignment`, `zones`, `snapping` | Fractions to pixels, halves and quarters, layouts resolved for an output, snapping at the edges |
| `drag`, `zone_number`, `shortcuts` | A drag from start to drop, what is drawn during it, key bindings |
| `dividers`, `canvas`, `editor`, `toolbar`, `text` | Editing a layout: boundaries, the canvas, the editor's state and what it shows |

Zones are stored as fractions of the area that panels and docks leave of an output,
never as pixels. The fractions are binary64 numbers held as integers, and each
operation is proved to round the exact result once, to nearest, ties to even;
`tests/numbers.rs` compares the operations with those of the hardware.
