//! The document pipeline of a small browser: HTML and CSS text in, a DOM tree,
//! a layout tree and a list of display items out.
//!
//! Every function states what it returns over plain mathematical values
//! (sequences of characters, integers, ghost copies of the data types), and
//! every body is proved against that statement.

pub mod constants;
pub mod display_item;
pub mod error;
pub mod http;
pub mod renderer;
pub mod text;
pub mod ui;
pub mod url;
