//! Archive skimming tests: the policy matrix, offset computation, and
//! whole-archive payload reads.

use rvbank::codec::{PboReader, write_entry, write_name};
use rvbank::entry::{BankEntry, EntryMime};
use rvbank::errors::{BankSkimError, EntryError};
use rvbank::lzss::encode;
use rvbank::skim::{BankSkimOptions, MultipleVersionStrategy, OffsetLocationStrategy};

fn record(name: &[u8], mime: EntryMime, sizes: (u32, u32, u32, u32)) -> BankEntry {
    BankEntry {
        filename: name.to_vec(),
        mime,
        size_unpacked: sizes.0,
        start_offset: sizes.1,
        timestamp: sizes.2,
        size_packed: sizes.3,
    }
}

fn blanked_version() -> BankEntry {
    record(b"", EntryMime::Version, (0, 0, 0, 0))
}

fn terminator() -> BankEntry {
    record(b"", EntryMime::Decompressed, (0, 0, 0, 0))
}

fn calculate_options() -> BankSkimOptions {
    BankSkimOptions {
        offset_location_strategy: OffsetLocationStrategy::Calculate,
        ..Default::default()
    }
}

#[test]
fn version_then_terminator_skims_empty() {
    // A header with one blanked version record carrying no properties,
    // then the terminator: the skim succeeds with nothing in it.
    let mut bytes = Vec::new();
    write_entry(&mut bytes, &blanked_version());
    write_name(&mut bytes, &Vec::new()); // empty property table
    write_entry(&mut bytes, &terminator());
    let options = BankSkimOptions { require_version_first: true, ..calculate_options() };
    let skim = PboReader::skim_archive(bytes, options).expect("skim failed");
    assert_eq!(skim.entries.len(), 0);
    assert_eq!(skim.properties.len(), 0);
}

#[test]
fn first_record_not_version_is_rejected() {
    // A data record first under require_version_first.
    let mut bytes = Vec::new();
    write_entry(&mut bytes, &record(b"x", EntryMime::Decompressed, (0, 0, 0, 0)));
    write_entry(&mut bytes, &terminator());
    let options = BankSkimOptions { require_version_first: true, ..calculate_options() };
    let r = PboReader::skim_archive(bytes, options);
    assert_eq!(r.err().unwrap(), BankSkimError::FirstNotVersion);
}

#[test]
fn calculated_offsets_are_monotone() {
    // Three entries back-to-back: each offset is the previous offset plus
    // the previous packed size, starting at the header length.
    let mut bytes = Vec::new();
    write_entry(&mut bytes, &record(b"a", EntryMime::Decompressed, (10, 999, 0, 10)));
    write_entry(&mut bytes, &record(b"b", EntryMime::Decompressed, (20, 999, 0, 20)));
    write_entry(&mut bytes, &record(b"c", EntryMime::Decompressed, (30, 999, 0, 30)));
    write_entry(&mut bytes, &terminator());
    let header_len = bytes.len() as u64;
    bytes.extend(vec![0u8; 60]);
    let skim = PboReader::skim_archive(bytes, calculate_options()).expect("skim failed");
    assert_eq!(skim.buffer_start, header_len);
    assert_eq!(skim.entries.len(), 3);
    assert_eq!(skim.entries[0].start_offset, header_len);
    assert_eq!(skim.entries[1].start_offset, header_len + 10);
    assert_eq!(skim.entries[2].start_offset, header_len + 30);
}

#[test]
fn deprecated_offsets_are_kept_verbatim() {
    let mut bytes = Vec::new();
    write_entry(&mut bytes, &record(b"a", EntryMime::Decompressed, (4, 4000, 0, 4)));
    write_entry(&mut bytes, &terminator());
    let options = BankSkimOptions {
        offset_location_strategy: OffsetLocationStrategy::Deprecated,
        allow_offsets_to_header: true,
        ..Default::default()
    };
    let skim = PboReader::skim_archive(bytes, options).expect("skim failed");
    assert_eq!(skim.entries[0].start_offset, 4000);
}

#[test]
fn offset_into_header_is_rejected_by_default() {
    let mut bytes = Vec::new();
    write_entry(&mut bytes, &record(b"a", EntryMime::Decompressed, (4, 1, 0, 4)));
    write_entry(&mut bytes, &terminator());
    let options = BankSkimOptions {
        offset_location_strategy: OffsetLocationStrategy::Deprecated,
        ..Default::default()
    };
    let r = PboReader::skim_archive(bytes, options);
    assert_eq!(r.err().unwrap(), BankSkimError::ImpossibleDataOffset);
}

#[test]
fn offset_into_header_can_be_dropped() {
    let mut bytes = Vec::new();
    write_entry(&mut bytes, &record(b"a", EntryMime::Decompressed, (4, 1, 0, 4)));
    write_entry(&mut bytes, &record(b"b", EntryMime::Decompressed, (4, 90_000, 0, 4)));
    write_entry(&mut bytes, &terminator());
    let options = BankSkimOptions {
        offset_location_strategy: OffsetLocationStrategy::Deprecated,
        remove_impossible_offsets: true,
        ..Default::default()
    };
    let skim = PboReader::skim_archive(bytes, options).expect("skim failed");
    assert_eq!(skim.entries.len(), 1);
    assert_eq!(skim.entries[0].filename, b"b".to_vec());
}

#[test]
fn empty_entries_can_be_dropped() {
    let mut bytes = Vec::new();
    write_entry(&mut bytes, &record(b"a", EntryMime::Decompressed, (0, 0, 0, 0)));
    write_entry(&mut bytes, &record(b"b", EntryMime::Decompressed, (4, 0, 0, 4)));
    write_entry(&mut bytes, &terminator());
    let options = BankSkimOptions { remove_empty_entries: true, ..calculate_options() };
    let skim = PboReader::skim_archive(bytes, options).expect("skim failed");
    assert_eq!(skim.entries.len(), 1);
    assert_eq!(skim.entries[0].filename, b"b".to_vec());
}

#[test]
fn second_version_record_is_forbidden_by_default() {
    let mut bytes = Vec::new();
    write_entry(&mut bytes, &blanked_version());
    write_name(&mut bytes, &Vec::new());
    write_entry(&mut bytes, &blanked_version());
    write_name(&mut bytes, &Vec::new());
    write_entry(&mut bytes, &terminator());
    let r = PboReader::skim_archive(bytes, calculate_options());
    assert_eq!(r.err().unwrap(), BankSkimError::MultipleVersionsFound);
}

#[test]
fn second_version_record_can_be_tolerated() {
    let mut bytes = Vec::new();
    write_entry(&mut bytes, &blanked_version());
    write_name(&mut bytes, &b"k1".to_vec());
    write_name(&mut bytes, &b"v1".to_vec());
    write_name(&mut bytes, &Vec::new());
    write_entry(&mut bytes, &blanked_version());
    write_name(&mut bytes, &b"k2".to_vec());
    write_name(&mut bytes, &b"v2".to_vec());
    write_name(&mut bytes, &Vec::new());
    write_entry(&mut bytes, &terminator());
    let options = BankSkimOptions {
        multiple_version_strategy: MultipleVersionStrategy::Allow { should_read_props: true },
        ..calculate_options()
    };
    let skim = PboReader::skim_archive(bytes, options).expect("skim failed");
    assert_eq!(skim.properties.len(), 2);
    assert_eq!(skim.properties[1].0, b"k2".to_vec());
}

#[test]
fn missing_version_record_can_be_required() {
    let mut bytes = Vec::new();
    write_entry(&mut bytes, &terminator());
    let options = BankSkimOptions { require_version_entry: true, ..calculate_options() };
    let r = PboReader::skim_archive(bytes, options);
    assert_eq!(r.err().unwrap(), BankSkimError::VersionNotFound);
}

#[test]
fn unblanked_version_record_can_be_rejected() {
    let mut bytes = Vec::new();
    write_entry(&mut bytes, &record(b"", EntryMime::Version, (0, 0, 7, 0)));
    write_name(&mut bytes, &Vec::new());
    write_entry(&mut bytes, &terminator());
    let options = BankSkimOptions { require_version_blanked: true, ..calculate_options() };
    let r = PboReader::skim_archive(bytes, options);
    assert_eq!(r.err().unwrap(), BankSkimError::VersionNotBlanked);
}

#[test]
fn encrypted_entries_are_refused_by_default() {
    let mut bytes = Vec::new();
    write_entry(&mut bytes, &record(b"a", EntryMime::Encrypted, (4, 0, 0, 4)));
    write_entry(&mut bytes, &terminator());
    let r = PboReader::skim_archive(bytes, calculate_options());
    assert_eq!(r.err().unwrap(), BankSkimError::Obfuscated);
}

#[test]
fn entry_cap_is_enforced() {
    let mut bytes = Vec::new();
    write_entry(&mut bytes, &record(b"a", EntryMime::Decompressed, (1, 0, 0, 1)));
    write_entry(&mut bytes, &record(b"b", EntryMime::Decompressed, (1, 0, 0, 1)));
    write_entry(&mut bytes, &terminator());
    let options = BankSkimOptions { max_entry_count: 1, ..calculate_options() };
    let r = PboReader::skim_archive(bytes, options);
    assert_eq!(r.err().unwrap(), BankSkimError::TooManyEntries);
}

#[test]
fn truncated_header_is_reported() {
    let bytes = vec![0x61, 0x62]; // a name fragment, nothing more
    let r = PboReader::skim_archive(bytes, calculate_options());
    assert!(matches!(r, Err(BankSkimError::EntryDebinarization(_))));
}

#[test]
fn entry_names_get_canonical_separators() {
    let mut bytes = Vec::new();
    write_entry(&mut bytes, &record(b"dir/sub/file", EntryMime::Decompressed, (0, 0, 0, 0)));
    write_entry(&mut bytes, &terminator());
    let skim = PboReader::skim_archive(bytes, calculate_options()).expect("skim failed");
    assert_eq!(skim.entries[0].filename, b"dir\\sub\\file".to_vec());
}

#[test]
fn whole_archive_read_of_compressed_entry() {
    // Pack a payload, lay out a full archive, skim it, and read the entry
    // back through the index.
    let payload = b"the quick brown fox jumps over the lazy dog. the quick brown fox.";
    let packed = encode(payload);
    let mut bytes = Vec::new();
    write_entry(
        &mut bytes,
        &record(
            b"words.txt",
            EntryMime::Compressed,
            (payload.len() as u32, 0, 0, packed.len() as u32),
        ),
    );
    write_entry(&mut bytes, &terminator());
    bytes.extend_from_slice(&packed);
    let skim = PboReader::skim_archive(bytes, calculate_options()).expect("skim failed");
    let entry = skim.get_entry(b"WORDS.TXT").expect("entry not found").clone();
    let data = skim.read_entry(&entry).expect("read failed");
    assert_eq!(data, payload.to_vec());
}

#[test]
fn whole_archive_read_of_plain_entry() {
    let payload = b"plain bytes";
    let mut bytes = Vec::new();
    write_entry(
        &mut bytes,
        &record(
            b"raw.bin",
            EntryMime::Decompressed,
            (payload.len() as u32, 0, 0, payload.len() as u32),
        ),
    );
    write_entry(&mut bytes, &terminator());
    bytes.extend_from_slice(&payload[..]);
    let skim = PboReader::skim_archive(bytes, calculate_options()).expect("skim failed");
    let entry = skim.get_entry(b"raw.bin").expect("entry not found").clone();
    let data = skim.read_entry(&entry).expect("read failed");
    assert_eq!(data, payload.to_vec());
}

#[test]
fn foreign_entry_is_not_found() {
    let mut bytes = Vec::new();
    write_entry(&mut bytes, &terminator());
    let skim = PboReader::skim_archive(bytes, calculate_options()).expect("skim failed");
    let stranger = record(b"ghost", EntryMime::Decompressed, (1, 0, 0, 1));
    let stranger = rvbank::entry::BankSkimEntry {
        filename: stranger.filename,
        mime: stranger.mime,
        size_unpacked: stranger.size_unpacked,
        stored_offset: 0,
        timestamp: stranger.timestamp,
        size_packed: stranger.size_packed,
        start_offset: 0,
    };
    assert_eq!(skim.read_entry(&stranger), Err(EntryError::EntryNotFound));
}

#[test]
fn window_past_end_is_seek_failure() {
    let mut bytes = Vec::new();
    write_entry(&mut bytes, &record(b"a", EntryMime::Decompressed, (50, 0, 0, 50)));
    write_entry(&mut bytes, &terminator());
    // No payload region: the window runs past the end.
    let skim = PboReader::skim_archive(bytes, calculate_options()).expect("skim failed");
    let entry = skim.get_entry(b"a").expect("entry not found").clone();
    assert_eq!(skim.read_entry(&entry), Err(EntryError::SeekFailed));
}

#[test]
fn encrypted_entry_read_is_refused() {
    let mut bytes = Vec::new();
    write_entry(&mut bytes, &record(b"a", EntryMime::Encrypted, (4, 0, 0, 4)));
    write_entry(&mut bytes, &terminator());
    bytes.extend_from_slice(&[1, 2, 3, 4]);
    let options = BankSkimOptions { allow_obfuscated: true, ..calculate_options() };
    let skim = PboReader::skim_archive(bytes, options).expect("skim failed");
    let entry = skim.get_entry(b"a").expect("entry not found").clone();
    assert_eq!(skim.read_entry(&entry), Err(EntryError::UnsupportedEncryption));
}
