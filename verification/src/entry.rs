//! Entry records as stored in an archive header.
//!
//! A record carries a NUL-terminated name, a four-byte content-kind magic,
//! and four little-endian `u32` fields. A record with an empty name is either
//! a version record (kind `Version`) or the header terminator (any other
//! kind). `BankEntry` is the record as read from the wire; `BankSkimEntry` is
//! the same record after the skimmer has attached the absolute payload
//! offset it computed.

use vstd::prelude::*;
use crate::path::lower;

verus! {

/// Longest accepted name, in bytes, not counting the NUL terminator.
pub const MAX_PATH_LENGTH: usize = 1023;

/// The content kind of one entry, stored as a four-byte magic number.
#[derive(Clone, Copy, Debug, PartialEq, Eq, Structural)]
pub enum EntryMime {
    Decompressed,
    Compressed,
    Encrypted,
    Version,
}

/// The magic number that encodes a content kind on the wire.
pub open spec fn mime_code(m: EntryMime) -> u32 {
    match m {
        EntryMime::Decompressed => 0x00000000,
        EntryMime::Compressed => 0x43707273,
        EntryMime::Encrypted => 0x456e6372,
        EntryMime::Version => 0x56657273,
    }
}

/// The content kind a magic number denotes, if any.
pub open spec fn mime_of_code(v: u32) -> Option<EntryMime> {
    if v == 0x00000000 {
        Some(EntryMime::Decompressed)
    } else if v == 0x43707273 {
        Some(EntryMime::Compressed)
    } else if v == 0x456e6372 {
        Some(EntryMime::Encrypted)
    } else if v == 0x56657273 {
        Some(EntryMime::Version)
    } else {
        None
    }
}

/// Decode a content-kind magic number.
pub fn mime_try_from(value: u32) -> (result: Option<EntryMime>)
    ensures
        result == mime_of_code(value),
{
    if value == 0x00000000 {
        Some(EntryMime::Decompressed)
    } else if value == 0x43707273 {
        Some(EntryMime::Compressed)
    } else if value == 0x456e6372 {
        Some(EntryMime::Encrypted)
    } else if value == 0x56657273 {
        Some(EntryMime::Version)
    } else {
        None
    }
}

/// Encode a content kind as its magic number.
pub fn mime_to_code(m: EntryMime) -> (result: u32)
    ensures
        result == mime_code(m),
{
    match m {
        EntryMime::Decompressed => 0x00000000,
        EntryMime::Compressed => 0x43707273,
        EntryMime::Encrypted => 0x456e6372,
        EntryMime::Version => 0x56657273,
    }
}

/// One entry record as laid out in the header, before offset computation.
/// `start_offset` holds the deprecated offset field exactly as stored.
#[derive(Clone, Debug)]
pub struct BankEntry {
    pub filename: Vec<u8>,
    pub mime: EntryMime,
    pub size_unpacked: u32,
    pub start_offset: u32,
    pub timestamp: u32,
    pub size_packed: u32,
}

/// One entry of a skimmed archive: the record fields plus the absolute
/// payload offset the skimmer assigned.
#[derive(Clone, Debug)]
pub struct BankSkimEntry {
    pub filename: Vec<u8>,
    pub mime: EntryMime,
    pub size_unpacked: u32,
    pub stored_offset: u32,
    pub timestamp: u32,
    pub size_packed: u32,
    pub start_offset: u64,
}

/// The mathematical content of one entry record: the name as a byte
/// sequence beside the plain fields.
pub ghost struct EntryView {
    pub name: Seq<u8>,
    pub mime: EntryMime,
    pub size_unpacked: u32,
    pub start_offset: u32,
    pub timestamp: u32,
    pub size_packed: u32,
}

impl View for BankEntry {
    type V = EntryView;

    open spec fn view(&self) -> EntryView {
        EntryView {
            name: self.filename@,
            mime: self.mime,
            size_unpacked: self.size_unpacked,
            start_offset: self.start_offset,
            timestamp: self.timestamp,
            size_packed: self.size_packed,
        }
    }
}

/// The mathematical content of one skimmed entry.
pub ghost struct SkimEntryView {
    pub name: Seq<u8>,
    pub mime: EntryMime,
    pub size_unpacked: u32,
    pub stored_offset: u32,
    pub timestamp: u32,
    pub size_packed: u32,
    pub start_offset: u64,
}

impl View for BankSkimEntry {
    type V = SkimEntryView;

    open spec fn view(&self) -> SkimEntryView {
        SkimEntryView {
            name: self.filename@,
            mime: self.mime,
            size_unpacked: self.size_unpacked,
            stored_offset: self.stored_offset,
            timestamp: self.timestamp,
            size_packed: self.size_packed,
            start_offset: self.start_offset,
        }
    }
}

/// A well-formed record name: within the length limit, free of NUL bytes,
/// and already lower-cased (the reader lower-cases names, so every name this
/// crate produces satisfies this).
pub open spec fn wf_name(name: Seq<u8>) -> bool {
    &&& name.len() <= MAX_PATH_LENGTH
    &&& forall|i: int| 0 <= i < name.len() ==> name[i] != 0
    &&& forall|i: int| 0 <= i < name.len() ==> lower(name[i]) == name[i]
}

/// A well-formed entry record.
pub open spec fn wf_entry(e: EntryView) -> bool {
    wf_name(e.name)
}

/// Whether a record is a well-blanked version record: version kind with no
/// payload and no timestamp.
pub open spec fn spec_is_version(e: EntryView) -> bool {
    e.mime == EntryMime::Version && e.size_packed == 0 && e.timestamp == 0
}

/// Whether a record has the empty name that marks version records and the
/// header terminator.
pub open spec fn spec_empty_name(e: EntryView) -> bool {
    e.name.len() == 0
}

/// Runtime check for a well-blanked version record.
pub fn is_version(entry: &BankEntry) -> (result: bool)
    ensures
        result == spec_is_version(entry@),
{
    matches!(entry.mime, EntryMime::Version) && entry.size_packed == 0 && entry.timestamp == 0
}

/// Runtime check for an empty record name.
pub fn empty_name(entry: &BankEntry) -> (result: bool)
    ensures
        result == spec_empty_name(entry@),
{
    entry.filename.len() == 0
}

} // verus!
