//! Turns the entries of layered stat files into one list of compact records:
//! reads the stat language, looks attributes up across layers and bases,
//! sorts and splits the groups of entries, and encodes the records with a
//! shared dictionary of attribute names.

pub mod classify;
pub mod codec;
pub mod encode;
pub mod entry;
pub mod group;
pub mod lookup;
pub mod parser;
pub mod pattern;
pub mod proto;
pub mod source;
pub mod text;
