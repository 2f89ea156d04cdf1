//! A small text-rendering substrate: glyph-aware line breaking, a bounded history
//! buffer, glyph compositing and block blitting, plus the page state and
//! configuration parsing around them.

pub mod font;
pub mod text;
pub mod wrapped_text;
pub mod render;
pub mod history;
pub mod layout;
pub mod state;
pub mod config;
pub mod address;
