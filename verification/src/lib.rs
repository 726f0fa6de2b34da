//! Terminal teleprompter core: Markdown to styled terminal lines, ANSI
//! handling, layout, wrapping and focus navigation.

pub mod text;
pub mod layout;
pub mod ansi;
pub mod parser;
pub mod renderer;
pub mod table;
pub mod events;
pub mod highlight;
pub mod controller;
pub mod screen;
pub mod markdown;
