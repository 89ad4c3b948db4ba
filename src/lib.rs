//! A small source-level debugger core: a program model built from DWARF
//! debugging entries, a resolver that finds the active scopes at an
//! instruction pointer, and an interpreter that turns typed reads of a
//! stopped child's memory into text.

pub mod table;
pub mod program;
pub mod context;
pub mod primitive;
pub mod render;
pub mod command;
pub mod location;
pub mod dwarf;
pub mod controller;
