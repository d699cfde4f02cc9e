//! Headless core of a small modal text editor: the piece-table buffer, the
//! modal key handlers, and everything the front end needs to decide.
pub mod action;
pub mod buffer;
pub mod completion;
pub mod edit;
pub mod editor;
pub mod ex;
pub mod format;
pub mod highlight;
pub mod indent;
pub mod input;
pub mod insert;
pub mod json;
pub mod jumps;
pub mod lsp;
pub mod motion;
pub mod normal;
pub mod object;
pub mod palette;
pub mod path_complete;
pub mod popup;
pub mod present;
pub mod prompt;
pub mod protocol;
pub mod relocate;
pub mod render;
pub mod search;
pub mod selection;
pub mod session;
pub mod sort;
pub mod strings;
pub mod suggest;
pub mod syntax;
pub mod term;
pub mod text;
pub mod theme;
pub mod trace;
pub mod view;
pub mod watch;
pub mod wrap;
