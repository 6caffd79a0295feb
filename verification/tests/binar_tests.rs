//! Tests for the binary-object interfaces and the remaining macro
//! operations.

use rvbank::bank::{get_encryption_mode, EncryptionType};
use rvbank::errors::{BankEncryptionError, EntryMetadataError};
use rvbank::binar::{Binarizable, CustomDebinarizable, Debinarizable, Validatable};
use rvbank::codec::{PboReader, write_entry};
use rvbank::define::{Macro, MacroError};
use rvbank::entry::{BankEntry, EntryMime};
use rvbank::skim::{BankSkimOptions, OffsetLocationStrategy, PboFileSkim};

fn sample_entry() -> BankEntry {
    BankEntry {
        filename: b"some\\file".to_vec(),
        mime: EntryMime::Compressed,
        size_unpacked: 11,
        start_offset: 22,
        timestamp: 33,
        size_packed: 44,
    }
}

#[test]
fn binarize_then_debinarize() {
    let e = sample_entry();
    let mut bytes = Vec::new();
    e.binarize(&mut bytes);
    let mut reader = PboReader::new(bytes);
    let back = BankEntry::debinarize(&mut reader).expect("debinarize failed");
    assert_eq!(back.filename, e.filename);
    assert_eq!(back.mime, e.mime);
    assert_eq!(back.size_packed, e.size_packed);
}

#[test]
fn validate_checks_the_name() {
    assert!(sample_entry().validate());
    let mut bad = sample_entry();
    bad.filename = b"Upper".to_vec();
    assert!(!bad.validate());
    let mut nul = sample_entry();
    nul.filename = vec![0x61, 0x00, 0x62];
    assert!(!nul.validate());
}

#[test]
fn debinarize_with_options_skims() {
    let mut bytes = Vec::new();
    write_entry(
        &mut bytes,
        &BankEntry {
            filename: Vec::new(),
            mime: EntryMime::Decompressed,
            size_unpacked: 0,
            start_offset: 0,
            timestamp: 0,
            size_packed: 0,
        },
    );
    let options = BankSkimOptions {
        offset_location_strategy: OffsetLocationStrategy::Calculate,
        ..Default::default()
    };
    let skim = PboFileSkim::debinarize_with_options(bytes, options).expect("skim failed");
    assert!(skim.entries.is_empty());
}

#[test]
fn encryption_probe_refuses_announced_scheme() {
    let props = vec![(b"hprotect".to_vec(), b"1".to_vec())];
    assert_eq!(
        get_encryption_mode(&props),
        Err(EntryMetadataError::Encryption(BankEncryptionError::NotSupported))
    );
}

#[test]
fn encryption_probe_passes_plain_tables() {
    let props = vec![(b"prefix".to_vec(), b"x\\".to_vec())];
    assert_eq!(get_encryption_mode(&props), Ok(EncryptionType::Plain));
    assert_eq!(get_encryption_mode(&Vec::new()), Ok(EncryptionType::Plain));
}

#[test]
fn macro_refactor_rewrites_twice() {
    // Refactoring replaces in the body, then renames, which replaces once
    // more: a new name containing the old one is rewritten again.
    let mut m = Macro::create_simple(vec![b"a".to_vec()], b"a".to_vec());
    let mut name = b"a".to_vec();
    assert!(m.refactor_param(&mut name, b"xa".to_vec()).is_ok());
    assert_eq!(name, b"xa".to_vec());
    assert_eq!(m.get_value(), &b"xxa".to_vec());
}

#[test]
fn macro_refactor_refuses_existing_name() {
    let mut m = Macro::create_simple(vec![b"a".to_vec(), b"b".to_vec()], b"a b".to_vec());
    let mut name = b"a".to_vec();
    assert_eq!(
        m.refactor_param(&mut name, b"b".to_vec()),
        Err(MacroError::UnknownMacroParameter)
    );
    assert_eq!(m.get_value(), &b"a b".to_vec());
}

#[test]
fn macro_force_rename_needs_no_membership() {
    let mut m = Macro::create_simple(Vec::new(), b"k k".to_vec());
    let mut name = b"k".to_vec();
    assert!(m.force_rename_param(&mut name, b"q".to_vec()).is_ok());
    assert_eq!(m.get_value(), &b"q q".to_vec());
    assert_eq!(name, b"q".to_vec());
}
