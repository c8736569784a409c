//! An incremental lexer for a C-like scripting language, made to serve a
//! line-oriented editor: one classified token per call, with just enough
//! state carried between calls to resume inside a block comment and to
//! propose an indentation for the next line.

pub mod codemirror;

pub mod cm_rhai_mode;
pub mod scripting;
