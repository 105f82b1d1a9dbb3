//! A small low-code automation engine: a declarative graph of typed nodes and
//! edges is compiled into a shared executable tree, which an event dispatcher
//! walks with bounded recursion to produce a list of side effects.

pub mod data;
pub mod index;
pub mod tree;
pub mod parse;
pub mod event;
pub mod host;
pub mod laws;
