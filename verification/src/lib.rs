//! The verified core of a GPU text renderer.
//!
//! Everything that decides something without touching a GPU, a font rasterizer
//! or floating-point arithmetic lives here, each function with a contract:
//! instance arenas, the glyph atlas bookkeeping, color-glyph tables, curve
//! block layout, document indexing, cursor motion and the terminal grid.
//!
//! Floating-point values that only pass through, or are only compared, are held
//! as their IEEE 754 bit patterns (see [`bits`]).

pub mod arena;
pub mod atlas;
pub mod bands;
pub mod bits;
pub mod blocks;
pub mod box_table;
pub mod boxes;
pub mod cells;
pub mod color;
pub mod colr;
pub mod curves;
pub mod decoration;
pub mod document;
pub mod font;
pub mod frames;
pub mod graphemes;
pub mod grid;
pub mod halves;
pub mod indexed;
pub mod inspect;
pub mod layers;
pub mod lines;
pub mod mirror;
pub mod outline;
pub mod readout;
pub mod renderer;
pub mod retained;
pub mod scene;
pub mod search;
pub mod selection;
pub mod text;
pub mod view;
pub mod width;
