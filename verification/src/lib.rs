//! Jupyter notebooks edited in an embedded Neovim: the document, its structural changes with
//! undo, execution state, the editor's grid, and the notebook view.

pub mod acting;
pub mod adapter;
pub mod ansi;
pub mod app;
pub mod call;
pub mod changed;
pub mod commanding;
pub mod compose;
pub mod decor;
pub mod document;
pub mod editor;
pub mod executor;
pub mod grid;
pub mod history;
pub mod json;
pub mod kernel;
pub mod key;
pub mod keys;
pub mod layout;
pub mod load;
pub mod memory;
pub mod msg;
pub mod nav;
pub mod notebook;
pub mod notice;
pub mod nvim;
pub mod outputs;
pub mod paint;
pub mod painted;
pub mod parts;
pub mod path;
pub mod projection;
pub mod query;
pub mod redraw;
pub mod redrawn;
pub mod running;
pub mod save;
pub mod structure;
pub mod session;
pub mod showing;
pub mod stream;
pub mod style;
pub mod table;
pub mod tagging;
pub mod terminal;
pub mod text;
pub mod ui;
pub mod version;
pub mod viewing;
pub mod wrapping;
