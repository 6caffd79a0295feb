//! Entry record and property table codec tests.

use rvbank::codec::{PboReader, get_property, write_entry, write_name, write_u32};
use rvbank::entry::{BankEntry, EntryMime};
use rvbank::errors::{EntryMetadataError, EntryNameError};

fn record(name: &[u8], mime: EntryMime, sizes: (u32, u32, u32, u32)) -> BankEntry {
    BankEntry {
        filename: name.to_vec(),
        mime,
        size_unpacked: sizes.0,
        start_offset: sizes.1,
        timestamp: sizes.2,
        size_packed: sizes.3,
    }
}

fn assert_same(a: &BankEntry, b: &BankEntry) {
    assert_eq!(a.filename, b.filename);
    assert_eq!(a.mime, b.mime);
    assert_eq!(a.size_unpacked, b.size_unpacked);
    assert_eq!(a.start_offset, b.start_offset);
    assert_eq!(a.timestamp, b.timestamp);
    assert_eq!(a.size_packed, b.size_packed);
}

#[test]
fn record_round_trip() {
    let e = record(b"dir\\file.paa", EntryMime::Compressed, (512, 77, 12345678, 300));
    let mut bytes = Vec::new();
    write_entry(&mut bytes, &e);
    let mut reader = PboReader::new(bytes);
    let back = reader.read_entry().expect("read failed");
    assert_same(&e, &back);
    assert_eq!(reader.pos, reader.data.len());
}

#[test]
fn record_round_trip_extremes() {
    let e = record(b"x", EntryMime::Version, (u32::MAX, 0, 0, u32::MAX));
    let mut bytes = Vec::new();
    write_entry(&mut bytes, &e);
    let mut reader = PboReader::new(bytes);
    let back = reader.read_entry().expect("read failed");
    assert_same(&e, &back);
}

#[test]
fn names_are_lower_cased_on_read() {
    let e = record(b"Dir\\File.PAA", EntryMime::Decompressed, (1, 2, 3, 4));
    let mut bytes = Vec::new();
    write_entry(&mut bytes, &e);
    let mut reader = PboReader::new(bytes);
    let back = reader.read_entry().expect("read failed");
    assert_eq!(back.filename, b"dir\\file.paa".to_vec());
}

#[test]
fn unknown_kind_is_reported_with_its_code() {
    let mut bytes = Vec::new();
    write_name(&mut bytes, &b"f".to_vec());
    write_u32(&mut bytes, 0xDEAD_BEEF);
    write_u32(&mut bytes, 0);
    write_u32(&mut bytes, 0);
    write_u32(&mut bytes, 0);
    write_u32(&mut bytes, 0);
    let mut reader = PboReader::new(bytes);
    let r = reader.read_entry();
    assert_eq!(r.unwrap_err(), EntryMetadataError::EntryMimeNotSupported(0xDEAD_BEEF));
}

#[test]
fn truncated_fields_are_reported() {
    let mut bytes = Vec::new();
    write_name(&mut bytes, &b"f".to_vec());
    write_u32(&mut bytes, 0); // kind only; the four fields are missing
    let mut reader = PboReader::new(bytes);
    let r = reader.read_entry();
    assert_eq!(r.unwrap_err(), EntryMetadataError::Truncated);
}

#[test]
fn unterminated_name_is_reported() {
    let bytes = vec![0x61; 5]; // five name bytes, no terminator, then end
    let mut reader = PboReader::new(bytes);
    let r = reader.read_entry();
    assert_eq!(
        r.unwrap_err(),
        EntryMetadataError::EntryNameError(EntryNameError::Truncated)
    );
}

#[test]
fn over_long_name_is_reported() {
    let mut bytes = vec![0x61; 1100]; // longer than the limit, terminator too late
    bytes.push(0);
    let mut reader = PboReader::new(bytes);
    let r = reader.read_entry();
    assert_eq!(
        r.unwrap_err(),
        EntryMetadataError::EntryNameError(EntryNameError::NameTooLong)
    );
}

#[test]
fn property_table_pairs_in_order() {
    let mut bytes = Vec::new();
    write_name(&mut bytes, &b"version".to_vec());
    write_name(&mut bytes, &b"1.23".to_vec());
    write_name(&mut bytes, &b"author".to_vec());
    write_name(&mut bytes, &b"Someone".to_vec());
    write_name(&mut bytes, &Vec::new()); // empty key terminates
    let mut reader = PboReader::new(bytes);
    let props = reader.read_properties().expect("read failed");
    assert_eq!(props.len(), 2);
    assert_eq!(props[0].0, b"version".to_vec());
    assert_eq!(props[0].1, b"1.23".to_vec());
    // Keys and plain values keep their case.
    assert_eq!(props[1].0, b"author".to_vec());
    assert_eq!(props[1].1, b"Someone".to_vec());
}

#[test]
fn prefix_value_is_normalized_with_trailing_separator() {
    let mut bytes = Vec::new();
    write_name(&mut bytes, &b"prefix".to_vec());
    write_name(&mut bytes, &b"My//Mod/Addons".to_vec());
    write_name(&mut bytes, &Vec::new());
    let mut reader = PboReader::new(bytes);
    let props = reader.read_properties().expect("read failed");
    assert_eq!(props.len(), 1);
    assert_eq!(props[0].1, b"my\\mod\\addons\\".to_vec());
}

#[test]
fn property_lookup_reads_as_a_map() {
    // A later pair for the same key overwrites the earlier one.
    let props = vec![
        (b"k".to_vec(), b"first".to_vec()),
        (b"other".to_vec(), b"x".to_vec()),
        (b"k".to_vec(), b"second".to_vec()),
    ];
    assert_eq!(get_property(&props, &b"k".to_vec()), Some(&b"second".to_vec()));
    assert_eq!(get_property(&props, &b"other".to_vec()), Some(&b"x".to_vec()));
    assert_eq!(get_property(&props, &b"missing".to_vec()), None);
}

#[test]
fn property_table_truncation_is_reported() {
    let mut bytes = Vec::new();
    write_name(&mut bytes, &b"key".to_vec());
    // value and terminator missing
    let mut reader = PboReader::new(bytes);
    assert!(reader.read_properties().is_err());
}
