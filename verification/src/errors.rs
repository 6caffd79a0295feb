//! Error types for the archive reader.
//!
//! Three tiers: structural format errors (bad magic, over-long or truncated
//! fields), policy violations judged by the skim options, and stream faults
//! (here: running off the end of the in-memory buffer). All are fatal to the
//! operation that raised them.

use vstd::prelude::*;

verus! {

/// A fault while reading one record name.
#[derive(Clone, Copy, Debug, PartialEq, Eq, Structural)]
pub enum EntryNameError {
    /// No NUL terminator within the permitted name length.
    NameTooLong,
    /// The buffer ended before the terminator.
    Truncated,
    /// A name byte that cannot begin a name (reserved; never produced for
    /// plain byte input).
    Underflow,
}

/// A fault while reading one entry record or the property table.
#[derive(Clone, Copy, Debug, PartialEq, Eq, Structural)]
pub enum EntryMetadataError {
    /// The four-byte content-kind magic matched no known kind.
    EntryMimeNotSupported(u32),
    /// The record announces an obfuscation scheme this crate refuses.
    Obfuscated,
    /// The record name was malformed.
    EntryNameError(EntryNameError),
    /// The archive announces an encryption scheme.
    Encryption(BankEncryptionError),
    /// The buffer ended inside the fixed-layout fields.
    Truncated,
}

/// A fault while skimming a whole archive header.
#[derive(Clone, Copy, Debug, PartialEq, Eq, Structural)]
pub enum BankSkimError {
    /// The options require the first record to be a blanked version record.
    FirstNotVersion,
    /// The options require a version record but none was found.
    VersionNotFound,
    /// A second version record was found and the options forbid that.
    MultipleVersionsFound,
    /// A computed payload offset points into the header and the options
    /// neither allow nor drop such entries.
    ImpossibleDataOffset,
    /// A version record carried a payload size or timestamp and the options
    /// require blanked version records.
    VersionNotBlanked,
    /// The archive checksum did not match (checksum validation is not
    /// implemented; reserved).
    InvalidChecksum,
    /// The archive is obfuscated and the options forbid that.
    Obfuscated,
    /// More entries than the options permit.
    TooManyEntries,
    /// A record could not be decoded.
    EntryDebinarization(EntryMetadataError),
}

/// A fault while decompressing one payload.
#[derive(Clone, Copy, Debug, PartialEq, Eq, Structural)]
pub enum DecodeError {
    /// A control or data byte was required past the end of the input.
    TruncatedInput,
    /// A back-reference would produce more bytes than the caller asked for.
    Overflow,
}

/// A fault while reading one entry payload from a skimmed archive.
#[derive(Clone, Copy, Debug, PartialEq, Eq, Structural)]
pub enum EntryError {
    /// The payload window lies beyond the end of the archive bytes.
    SeekFailed,
    /// The entry is not a member of this archive index.
    EntryNotFound,
    /// The entry is encrypted, which this crate does not support.
    UnsupportedEncryption,
    /// The payload did not decompress to the promised size.
    Decode(DecodeError),
}

/// A fault in the obfuscation-mode probe.
#[derive(Clone, Copy, Debug, PartialEq, Eq, Structural)]
pub enum BankEncryptionError {
    /// The announced encryption format is not supported.
    NotSupported,
}

/// A fault while mounting an archive by prefix.
#[derive(Clone, Copy, Debug, PartialEq, Eq, Structural)]
pub enum BankLoadError {
    /// The header could not be skimmed.
    EntryDebinarization(BankSkimError),
    /// A bank with the same prefix is already loaded.
    PreexistingPrefix,
    /// No prefix property and no usable file name.
    FileNameUnknown,
}

} // verus!
