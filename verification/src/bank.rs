//! Reading entry payloads out of a skimmed archive: locate an entry by
//! name, seek its computed window, and undo the optional compression.

use vstd::prelude::*;
use crate::codec::{PboReader, lower_seq};
use crate::entry::{BankSkimEntry, EntryMime, SkimEntryView};
use crate::errors::{BankEncryptionError, EntryError, EntryMetadataError};
use crate::lzss::decode_spec;
use crate::skim::PboFileSkim;

verus! {

/// How an archive announces encryption. Encryption is not implemented:
/// an archive that announces a scheme is refused.
#[derive(Clone, Copy, Debug, PartialEq, Eq, Structural)]
pub enum EncryptionType {
    Header { version: i32 },
    Data { headers_size: i32, encoded_headers_size: i32 },
    Plain,
}

/// The property key that announces header encryption.
pub open spec fn hprotect_key() -> Seq<u8> {
    seq![104u8, 112u8, 114u8, 111u8, 116u8, 101u8, 99u8, 116u8]
}

/// Whether a property table announces header encryption.
pub open spec fn has_hprotect(ps: Seq<(Seq<u8>, Seq<u8>)>) -> bool {
    exists|i: int| 0 <= i < ps.len() && (#[trigger] ps[i]).0 == hprotect_key()
}

/// Probe the property table for an encryption scheme. No scheme is
/// implemented, so an archive that announces one is refused outright;
/// anything else reads as plain.
pub fn get_encryption_mode(properties: &Vec<(Vec<u8>, Vec<u8>)>) -> (r: Result<
    EncryptionType,
    EntryMetadataError,
>)
    ensures
        has_hprotect(crate::codec::props_view(properties@)) ==> r == Err::<
            EncryptionType,
            EntryMetadataError,
        >(EntryMetadataError::Encryption(BankEncryptionError::NotSupported)),
        !has_hprotect(crate::codec::props_view(properties@)) ==> r == Ok::<
            EncryptionType,
            EntryMetadataError,
        >(EncryptionType::Plain),
{
    let key: [u8; 8] = [104, 112, 114, 111, 116, 101, 99, 116];
    proof {
        assert(key@ =~= hprotect_key());
    }
    let mut i: usize = 0;
    while i < properties.len()
        invariant
            i <= properties@.len(),
            key@ == hprotect_key(),
            forall|j: int|
                0 <= j < i ==> (#[trigger] crate::codec::props_view(properties@)[j]).0
                    != hprotect_key(),
        decreases properties@.len() - i,
    {
        if key_matches(&properties[i].0, &key) {
            proof {
                assert(crate::codec::props_view(properties@)[i as int].0 == hprotect_key());
            }
            return Err(EntryMetadataError::Encryption(BankEncryptionError::NotSupported));
        }
        i = i + 1;
    }
    Ok(EncryptionType::Plain)
}

/// Whether a property key is the eight-byte encryption key.
fn key_matches(k: &Vec<u8>, key: &[u8; 8]) -> (r: bool)
    requires
        key@ == hprotect_key(),
    ensures
        r == (k@ == hprotect_key()),
{
    if k.len() != 8 {
        proof {
            assert(k@ != hprotect_key());
        }
        return false;
    }
    let mut i: usize = 0;
    while i < 8
        invariant
            i <= 8,
            k@.len() == 8,
            key@ == hprotect_key(),
            forall|j: int| 0 <= j < i ==> k@[j] == hprotect_key()[j],
        decreases 8 - i,
    {
        if k[i] != key[i] {
            proof {
                assert(k@[i as int] != hprotect_key()[i as int]);
            }
            return false;
        }
        i = i + 1;
    }
    proof {
        assert(k@ =~= hprotect_key());
    }
    true
}

/// What reading one entry's payload yields: the packed window sliced out of
/// the archive bytes, decompressed when the entry is compressed, refused
/// when it is encrypted, and `SeekFailed` when the window runs past the end
/// of the archive.
pub open spec fn read_entry_spec(data: Seq<u8>, e: SkimEntryView) -> Result<Seq<u8>, EntryError> {
    if e.start_offset + e.size_packed > data.len() {
        Err(EntryError::SeekFailed)
    } else {
        let window = data.subrange(
            e.start_offset as int,
            e.start_offset + e.size_packed,
        );
        match e.mime {
            EntryMime::Encrypted => Err(EntryError::UnsupportedEncryption),
            EntryMime::Compressed => match decode_spec(window, e.size_unpacked as nat) {
                Ok(o) => Ok(o),
                Err(err) => Err(EntryError::Decode(err)),
            },
            _ => Ok(window),
        }
    }
}

/// Whether one entry equals another, field for field.
pub open spec fn same_entry(a: SkimEntryView, b: SkimEntryView) -> bool {
    &&& a.name == b.name
    &&& a.mime == b.mime
    &&& a.size_unpacked == b.size_unpacked
    &&& a.stored_offset == b.stored_offset
    &&& a.timestamp == b.timestamp
    &&& a.size_packed == b.size_packed
    &&& a.start_offset == b.start_offset
}

/// Whether an entry answers to a name, without regard to ASCII case.
pub open spec fn name_match(e: SkimEntryView, name: Seq<u8>) -> bool {
    lower_seq(e.name) == lower_seq(name)
}

/// Case-insensitive byte-string comparison.
fn bytes_eq_nocase(a: &Vec<u8>, b: &[u8]) -> (r: bool)
    ensures
        r == (lower_seq(a@) == lower_seq(b@)),
{
    if a.len() != b.len() {
        proof {
            assert(lower_seq(a@).len() != lower_seq(b@).len());
        }
        return false;
    }
    let mut i: usize = 0;
    while i < a.len()
        invariant
            i <= a@.len(),
            a@.len() == b@.len(),
            forall|j: int| 0 <= j < i ==> crate::path::lower(a@[j]) == crate::path::lower(b@[j]),
        decreases a@.len() - i,
    {
        let ca = a[i];
        let cb = b[i];
        let la = if 65 <= ca && ca <= 90 {
            ca + 32
        } else {
            ca
        };
        let lb = if 65 <= cb && cb <= 90 {
            cb + 32
        } else {
            cb
        };
        if la != lb {
            proof {
                assert(lower_seq(a@)[i as int] != lower_seq(b@)[i as int]);
            }
            return false;
        }
        i = i + 1;
    }
    proof {
        assert(lower_seq(a@) =~= lower_seq(b@));
    }
    true
}

/// Whether two owned entries hold the same record.
fn entry_eq(a: &BankSkimEntry, b: &BankSkimEntry) -> (r: bool)
    ensures
        r == same_entry(a@, b@),
{
    crate::path::bytes_eq(&a.filename, &b.filename) && a.mime == b.mime && a.size_unpacked == b.size_unpacked
        && a.stored_offset == b.stored_offset && a.timestamp == b.timestamp && a.size_packed
        == b.size_packed && a.start_offset == b.start_offset
}

/// Slice out and unpack one entry's payload window from the archive bytes.
fn read_window(data: &Vec<u8>, entry: &BankSkimEntry) -> (r: Result<Vec<u8>, EntryError>)
    ensures
        match read_entry_spec(data@, entry@) {
            Ok(bytes) => r matches Ok(v) && v@ == bytes,
            Err(e) => r == Err::<Vec<u8>, EntryError>(e),
        },
{
    let dlen = data.len();
    if entry.size_packed as u64 > dlen as u64 || entry.start_offset > dlen as u64
        - entry.size_packed as u64 {
        return Err(EntryError::SeekFailed);
    }
    let start = entry.start_offset as usize;
    let end = start + entry.size_packed as usize;
    let window = vstd::slice::slice_subrange(data.as_slice(), start, end);
    match entry.mime {
        EntryMime::Encrypted => Err(EntryError::UnsupportedEncryption),
        EntryMime::Compressed => match crate::lzss::decode(window, entry.size_unpacked as usize) {
            Ok(v) => Ok(v),
            Err(err) => Err(EntryError::Decode(err)),
        },
        _ => {
            let mut out: Vec<u8> = Vec::new();
            let mut i: usize = 0;
            while i < window.len()
                invariant
                    i <= window@.len(),
                    out@ =~= window@.take(i as int),
                decreases window@.len() - i,
            {
                out.push(window[i]);
                i = i + 1;
            }
            proof {
                assert(window@.take(window@.len() as int) =~= window@);
            }
            Ok(out)
        },
    }
}

impl PboReader {
    /// Read one entry's payload from the archive bytes this reader holds:
    /// seek to its computed offset, take its packed window, and decompress
    /// it if its kind asks for that.
    pub fn read_entry_data(&self, entry: &BankSkimEntry) -> (r: Result<Vec<u8>, EntryError>)
        ensures
            match read_entry_spec(self.data@, entry@) {
                Ok(bytes) => r matches Ok(v) && v@ == bytes,
                Err(e) => r == Err::<Vec<u8>, EntryError>(e),
            },
    {
        read_window(&self.data, entry)
    }
}

impl PboFileSkim {
    /// Find the first entry answering to a name, compared without regard
    /// to ASCII case.
    pub fn get_entry(&self, entry_name: &[u8]) -> (r: Option<&BankSkimEntry>)
        ensures
            match r {
                Some(e) => {
                    &&& exists|i: int|
                        0 <= i < self.entries@.len() && self.entries@[i] == *e && name_match(
                            #[trigger] self.entries@[i]@,
                            entry_name@,
                        )
                },
                None => forall|i: int|
                    0 <= i < self.entries@.len() ==> !name_match(
                        #[trigger] self.entries@[i]@,
                        entry_name@,
                    ),
            },
    {
        let mut i: usize = 0;
        while i < self.entries.len()
            invariant
                i <= self.entries@.len(),
                forall|j: int|
                    0 <= j < i ==> !name_match(#[trigger] self.entries@[j]@, entry_name@),
            decreases self.entries@.len() - i,
        {
            if bytes_eq_nocase(&self.entries[i].filename, entry_name) {
                proof {
                    assert(name_match(self.entries@[i as int]@, entry_name@));
                }
                return Some(&self.entries[i]);
            }
            i = i + 1;
        }
        None
    }

    /// Read one entry's payload. The entry must be a member of this index;
    /// anything else is `EntryNotFound`.
    pub fn read_entry(&self, entry: &BankSkimEntry) -> (r: Result<Vec<u8>, EntryError>)
        ensures
            (exists|i: int|
                0 <= i < self.entries@.len() && same_entry(#[trigger] self.entries@[i]@, entry@))
                ==> (match read_entry_spec(self.data@, entry@) {
                Ok(bytes) => r matches Ok(v) && v@ == bytes,
                Err(e) => r == Err::<Vec<u8>, EntryError>(e),
            }),
            (forall|i: int|
                0 <= i < self.entries@.len() ==> !same_entry(#[trigger] self.entries@[i]@, entry@))
                ==> r == Err::<Vec<u8>, EntryError>(EntryError::EntryNotFound),
    {
        let mut found = false;
        let mut i: usize = 0;
        while i < self.entries.len() && !found
            invariant
                i <= self.entries@.len(),
                !found ==> forall|j: int|
                    0 <= j < i ==> !same_entry(#[trigger] self.entries@[j]@, entry@),
                found ==> exists|j: int|
                    0 <= j < self.entries@.len() && same_entry(
                        #[trigger] self.entries@[j]@,
                        entry@,
                    ),
            decreases self.entries@.len() - i, (if found { 0int } else { 1int }),
        {
            if entry_eq(&self.entries[i], entry) {
                found = true;
            } else {
                i = i + 1;
            }
        }
        if !found {
            return Err(EntryError::EntryNotFound);
        }
        read_window(&self.data, entry)
    }
}

} // verus!
