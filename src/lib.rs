//! A small task tracker: a line-oriented record codec, the store's text
//! format, and the command rules that act on an in-memory task list.

pub mod cli;
pub mod codec;
pub mod decimal;
pub mod store;
pub mod tasks;
pub mod text;
