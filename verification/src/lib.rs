//! Shadow panes for herdr: what is typed into one console goes to several panes
//! at once, and what they show is mirrored side by side.

#![allow(unused_imports)]

pub mod anchor;
pub mod ansi;
pub mod broadcast;
pub mod cli;
pub mod cursor;
pub mod herdr;
pub mod herdr_socket;
pub mod input;
pub mod layout;
pub mod line;
pub mod mirror;
pub mod picker;
pub mod sender;
pub mod table;
pub mod text;
pub mod width;
pub mod wrap;
