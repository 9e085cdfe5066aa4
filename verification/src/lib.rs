//! FancyZones-style window snapping.
//!
//! A layout is a list of zones in fractions of an output ([`layout`], [`rect`]).
//! [`zones`] resolves the layout that applies to an output and converts between
//! fractions and pixels, [`drag`] follows a window from the start of a drag to the
//! drop, and [`spans`] moves a window through the zones from the keyboard. [`editor`]
//! and [`canvas`] change layouts, by way of [`dividers`].
//!
//! Fractions are numbers of double precision, held and computed with as integers
//! ([`binary64`]).

pub mod alignment;
pub mod binary64;
pub mod canvas;
pub mod config;
pub mod counting;
pub mod covering;
pub mod conversion;
pub mod dividers;
pub mod drag;
pub mod drawing;
pub mod edges;
pub mod editor;
pub mod equal_parts;
pub mod following;
pub mod layout;
pub mod measuring;
pub mod pixel;
pub mod placing;
pub mod precision;
pub mod rect;
pub mod rejoining;
pub mod retiling;
pub mod rounding;
pub mod shortcuts;
pub mod snapping;
pub mod spanning;
pub mod spans;
pub mod stability;
pub mod table;
pub mod targeting;
pub mod templates;
pub mod text;
pub mod tiling;
pub mod tolerance;
pub mod toolbar;
pub mod undoing;
pub mod zone_number;
pub mod zones;
