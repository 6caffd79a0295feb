//! Reader and writer support for a game engine's flat "bank" archive format:
//! a linear header of fixed-layout entry records, a property table carried by
//! a version record, and packed entry payloads that may be LZSS-compressed.
//!
//! The crate is organised bottom-up: byte cursors, the LZSS codec, the entry
//! record codec, the archive skimmer, and the payload reader.

pub mod bank;
pub mod binar;
pub mod codec;
pub mod cursor;
pub mod define;
pub mod entry;
pub mod errors;
pub mod preproc;
pub mod lzss;
pub mod param;
pub mod path;
pub mod proclex;
pub mod skim;
