//! State and logic of a JSON formatter, viewer and editor, with machine-checked contracts.
//!
//! The window that a user sees is drawn elsewhere. This crate holds what the window is
//! about: the JSON tree ([`value`]), the pointers that address its nodes ([`pointer`]), the
//! edits that the tree view queues and the queue that applies them ([`edit`]), the way from
//! text to tree and back ([`codec`]), the state of the window and its events ([`app`]), the
//! context menu of the tree ([`context_menu`]) and the margin of the editor ([`ui`]).
//! [`laws`] holds what is proved of all edits and pointers.

pub mod value;
pub mod text;
pub mod decimal;
pub mod pointer;
pub mod codec;
pub mod edit;
pub mod laws;
pub mod ui;
pub mod app;
pub mod context_menu;
