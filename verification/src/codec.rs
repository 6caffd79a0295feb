//! The entry record codec: decoding and encoding of one fixed-layout entry
//! record and of the property table that follows a version record.
//!
//! The wire layout of a record is `name NUL | kind:u32 | size_unpacked:u32 |
//! stored_offset:u32 | timestamp:u32 | size_packed:u32`, all little-endian.
//! The decoder is specified against the pure parsers below; the encoder
//! mirrors it field for field, and `lemma_entry_round_trip` states that the
//! two are inverse on well-formed records.

use vstd::prelude::*;
use vstd::bytes::*;
use vstd::slice::slice_subrange;
use crate::entry::{
    BankEntry, EntryView, MAX_PATH_LENGTH, mime_code, mime_of_code, mime_to_code, mime_try_from,
    wf_entry,
};
use crate::errors::{EntryMetadataError, EntryNameError};
use crate::path::{lower, normalize_path, normalize_spec, WIN_DIR};

verus! {

/// Lower-case every byte of a name.
pub open spec fn lower_seq(s: Seq<u8>) -> Seq<u8> {
    s.map(|_i: int, c: u8| lower(c))
}

/// Index of the first NUL byte of `s`, or `-1` when there is none.
pub open spec fn first_nul(s: Seq<u8>) -> int
    decreases s.len(),
{
    if s.len() == 0 {
        -1
    } else if s[0] == 0 {
        0
    } else {
        let r = first_nul(s.skip(1));
        if r == -1 {
            -1
        } else {
            r + 1
        }
    }
}

/// What `first_nul` returns: either `-1` with no NUL anywhere, or the least
/// index holding a NUL.
pub proof fn lemma_first_nul(s: Seq<u8>)
    ensures
        first_nul(s) >= -1,
        first_nul(s) == -1 ==> forall|k: int| 0 <= k < s.len() ==> s[k] != 0,
        first_nul(s) >= 0 ==> first_nul(s) < s.len() && s[first_nul(s)] == 0,
        first_nul(s) >= 0 ==> forall|k: int| 0 <= k < first_nul(s) ==> s[k] != 0,
    decreases s.len(),
{
    if s.len() == 0 {
    } else if s[0] == 0 {
    } else {
        lemma_first_nul(s.skip(1));
        let r = first_nul(s.skip(1));
        if r == -1 {
            assert forall|k: int| 0 <= k < s.len() implies s[k] != 0 by {
                if k > 0 {
                    assert(s.skip(1)[k - 1] != 0);
                }
            }
        } else {
            assert(s[r + 1] == s.skip(1)[r]);
            assert forall|k: int| 0 <= k < r + 1 implies s[k] != 0 by {
                if k > 0 {
                    assert(s.skip(1)[k - 1] != 0);
                }
            }
        }
    }
}

/// The converse direction: a NUL at `j` with none before it pins
/// `first_nul` to `j`, and a NUL-free prefix of length `j` pushes
/// `first_nul` past it.
pub proof fn lemma_first_nul_at(s: Seq<u8>, j: int)
    requires
        0 <= j <= s.len(),
        forall|k: int| 0 <= k < j ==> s[k] != 0,
    ensures
        j < s.len() && s[j] == 0 ==> first_nul(s) == j,
        j == s.len() ==> first_nul(s) == -1,
        j < s.len() && s[j] != 0 ==> (first_nul(s) == -1 || first_nul(s) > j),
{
    lemma_first_nul(s);
    if j < s.len() && s[j] == 0 {
        if first_nul(s) == -1 {
            assert(s[j] != 0);
        }
        if first_nul(s) > j {
            assert(s[j] != 0);
        }
        if 0 <= first_nul(s) < j {
            assert(s[first_nul(s)] != 0);
        }
    } else if j < s.len() && s[j] != 0 {
        if 0 <= first_nul(s) <= j {
            assert(s[first_nul(s)] == 0);
            if first_nul(s) < j {
                assert(s[first_nul(s)] != 0);
            }
        }
    } else {
        if first_nul(s) >= 0 {
            assert(s[first_nul(s)] != 0);
        }
    }
}

/// Parse one NUL-terminated, length-limited name: the lower-cased bytes
/// before the first NUL, and how many bytes that consumed.
pub open spec fn parse_name(s: Seq<u8>) -> Option<(Seq<u8>, int)> {
    let i = first_nul(s);
    if 0 <= i <= MAX_PATH_LENGTH {
        Some((lower_seq(s.take(i)), i + 1))
    } else {
        None
    }
}

/// Which error a failed name parse reports: the name ran past its length
/// limit, or the buffer ended first.
pub open spec fn name_err(s: Seq<u8>) -> EntryNameError {
    if s.len() > MAX_PATH_LENGTH {
        EntryNameError::NameTooLong
    } else {
        EntryNameError::Truncated
    }
}

/// Parse one entry record: name, content-kind magic, then four more `u32`
/// fields in wire order. Returns the record's content and the bytes
/// consumed.
pub open spec fn parse_entry(s: Seq<u8>) -> Option<(EntryView, int)> {
    match parse_name(s) {
        None => None,
        Some((name, n0)) => {
            let s1 = s.skip(n0);
            if s1.len() < 4 {
                None
            } else {
                match mime_of_code(spec_u32_from_le_bytes(s1.take(4))) {
                    None => None,
                    Some(mime) => {
                        if s1.len() >= 20 {
                            Some(
                                (
                                    EntryView {
                                        name,
                                        mime,
                                        size_unpacked: spec_u32_from_le_bytes(s1.subrange(4, 8)),
                                        start_offset: spec_u32_from_le_bytes(s1.subrange(8, 12)),
                                        timestamp: spec_u32_from_le_bytes(s1.subrange(12, 16)),
                                        size_packed: spec_u32_from_le_bytes(s1.subrange(16, 20)),
                                    },
                                    n0 + 20,
                                ),
                            )
                        } else {
                            None
                        }
                    },
                }
            }
        },
    }
}

/// The error a failed record parse reports.
pub open spec fn entry_err(s: Seq<u8>) -> EntryMetadataError {
    match parse_name(s) {
        None => EntryMetadataError::EntryNameError(name_err(s)),
        Some((name, n0)) => {
            let s1 = s.skip(n0);
            if s1.len() < 4 {
                EntryMetadataError::Truncated
            } else {
                match mime_of_code(spec_u32_from_le_bytes(s1.take(4))) {
                    None => EntryMetadataError::EntryMimeNotSupported(
                        spec_u32_from_le_bytes(s1.take(4)),
                    ),
                    Some(_) => EntryMetadataError::Truncated,
                }
            }
        },
    }
}

/// A successful record parse consumes between 21 bytes and the whole
/// buffer.
pub proof fn lemma_parse_entry_bounds(s: Seq<u8>)
    ensures
        parse_entry(s) is Some ==> 21 <= parse_entry(s).unwrap().1 <= s.len(),
{
    lemma_first_nul(s);
    if parse_entry(s) is Some {
        let i = first_nul(s);
        assert(0 <= i < s.len());
        assert(s.skip(i + 1).len() >= 20);
    }
}

/// A successful property table parse consumes between 1 byte and the whole
/// buffer.
pub proof fn lemma_parse_props_bounds(s: Seq<u8>)
    ensures
        parse_props(s) is Some ==> 1 <= parse_props(s).unwrap().1 <= s.len(),
    decreases s.len(),
{
    lemma_first_nul(s);
    if parse_props(s) is Some {
        let i = first_nul(s);
        assert(0 <= i < s.len());
        match parse_raw_name(s) {
            None => {},
            Some((key, n)) => {
                if key.len() == 0 {
                } else {
                    let m = parse_raw_name(s.skip(n)).unwrap().1;
                    lemma_first_nul(s.skip(n));
                    lemma_parse_props_bounds(s.skip(n + m));
                }
            },
        }
    }
}

/// The wire encoding of one name: its bytes followed by a NUL.
pub open spec fn enc_name(name: Seq<u8>) -> Seq<u8> {
    name + seq![0u8]
}

/// The wire encoding of one entry record.
pub open spec fn enc_entry(e: EntryView) -> Seq<u8> {
    enc_name(e.name) + spec_u32_to_le_bytes(mime_code(e.mime)) + spec_u32_to_le_bytes(
        e.size_unpacked,
    ) + spec_u32_to_le_bytes(e.start_offset) + spec_u32_to_le_bytes(e.timestamp)
        + spec_u32_to_le_bytes(e.size_packed)
}

/// A cursor over the raw bytes of one archive, advanced only forward.
pub struct PboReader {
    pub data: Vec<u8>,
    pub pos: usize,
}

impl PboReader {
    /// The cursor's place is inside its buffer.
    pub open spec fn wf(&self) -> bool {
        self.pos <= self.data@.len()
    }

    /// The bytes not yet consumed.
    pub open spec fn remaining(&self) -> Seq<u8> {
        self.data@.skip(self.pos as int)
    }

    /// Wrap a byte buffer in a cursor at its start.
    pub fn new(data: Vec<u8>) -> (r: PboReader)
        ensures
            r.wf(),
            r.data@ == data@,
            r.pos == 0,
    {
        PboReader { data, pos: 0 }
    }

    /// Read one little-endian `u32`.
    fn read_u32(&mut self) -> (r: Result<u32, EntryMetadataError>)
        requires
            old(self).wf(),
        ensures
            final(self).wf(),
            final(self).data@ == old(self).data@,
            old(self).remaining().len() >= 4 ==> r == Ok::<u32, EntryMetadataError>(
                spec_u32_from_le_bytes(old(self).remaining().take(4)),
            ) && final(self).pos == old(self).pos + 4,
            old(self).remaining().len() < 4 ==> r == Err::<u32, EntryMetadataError>(
                EntryMetadataError::Truncated,
            ) && final(self).pos == old(self).pos,
    {
        if self.data.len() - self.pos < 4 {
            return Err(EntryMetadataError::Truncated);
        }
        let s = slice_subrange(self.data.as_slice(), self.pos, self.pos + 4);
        let x = u32_from_le_bytes(s);
        proof {
            assert(s@ =~= self.remaining().take(4));
        }
        self.pos = self.pos + 4;
        Ok(x)
    }

    /// Read one NUL-terminated name, lower-casing it, and enforcing the
    /// length limit.
    pub fn read_entry_name(&mut self) -> (r: Result<Vec<u8>, EntryNameError>)
        requires
            old(self).wf(),
        ensures
            final(self).wf(),
            final(self).data@ == old(self).data@,
            match parse_name(old(self).remaining()) {
                Some((name, n)) => {
                    &&& r matches Ok(v) && v@ == name
                    &&& final(self).pos == old(self).pos + n
                },
                None => r == Err::<Vec<u8>, EntryNameError>(name_err(old(self).remaining())),
            },
    {
        let ghost rem = self.remaining();
        // Scan for the terminator, stopping once the name would be too long.
        let mut j: usize = 0;
        while j < self.data.len() - self.pos && self.data[self.pos + j] != 0 && j
            <= MAX_PATH_LENGTH
            invariant
                self.wf(),
                0 <= j <= rem.len(),
                j <= MAX_PATH_LENGTH + 1,
                rem == self.data@.skip(self.pos as int),
                forall|k: int| 0 <= k < j ==> rem[k] != 0,
            decreases self.data@.len() - self.pos - j,
        {
            j = j + 1;
        }
        proof {
            lemma_first_nul_at(rem, j as int);
        }
        if j < self.data.len() - self.pos && j <= MAX_PATH_LENGTH {
            // The scan stopped on a NUL within the limit: the name is the
            // lower-cased bytes before it.
            let ghost nlen = j as int;
            assert(rem[nlen] == 0);
            let mut name: Vec<u8> = Vec::new();
            let mut k: usize = 0;
            let dlen = self.data.len();
            while k < j
                invariant
                    self.wf(),
                    0 <= k <= j,
                    j < rem.len(),
                    dlen == self.data@.len(),
                    rem == self.data@.skip(self.pos as int),
                    name@ == lower_seq(rem.take(k as int)),
                decreases j - k,
            {
                proof {
                    assert(self.pos + k < self.data@.len());
                }
                let b = self.data[self.pos + k];
                proof {
                    assert(rem[k as int] == b);
                }
                let lc = if 65 <= b && b <= 90 {
                    b + 32
                } else {
                    b
                };
                name.push(lc);
                proof {
                    assert(lower_seq(rem.take(k as int + 1)) =~= lower_seq(
                        rem.take(k as int),
                    ).push(lower(rem[k as int])));
                }
                k = k + 1;
            }
            self.pos = self.pos + j + 1;
            Ok(name)
        } else if j == self.data.len() - self.pos {
            // The buffer ended before any terminator.
            proof {
                lemma_first_nul_at(rem, j as int);
                if rem.len() > MAX_PATH_LENGTH {
                    assert(name_err(rem) == EntryNameError::NameTooLong);
                }
            }
            if j > MAX_PATH_LENGTH {
                Err(EntryNameError::NameTooLong)
            } else {
                Err(EntryNameError::Truncated)
            }
        } else {
            // The limit was exceeded before any terminator.
            proof {
                lemma_first_nul(rem);
                assert(j == MAX_PATH_LENGTH + 1);
                assert(rem.len() > MAX_PATH_LENGTH);
            }
            Err(EntryNameError::NameTooLong)
        }
    }

    /// Read one entry record.
    pub fn read_entry(&mut self) -> (r: Result<BankEntry, EntryMetadataError>)
        requires
            old(self).wf(),
        ensures
            final(self).wf(),
            final(self).data@ == old(self).data@,
            match parse_entry(old(self).remaining()) {
                Some((e, n)) => {
                    &&& r matches Ok(v) && v@ == e
                    &&& final(self).pos == old(self).pos + n
                },
                None => r == Err::<BankEntry, EntryMetadataError>(
                    entry_err(old(self).remaining()),
                ),
            },
    {
        let ghost rem = self.remaining();
        let filename = match self.read_entry_name() {
            Ok(v) => v,
            Err(e) => {
                return Err(EntryMetadataError::EntryNameError(e));
            },
        };
        let ghost s1 = self.remaining();
        proof {
            let n0 = parse_name(rem).unwrap().1;
            assert(s1 =~= rem.skip(n0));
        }
        let code = match self.read_u32() {
            Ok(v) => v,
            Err(e) => {
                return Err(e);
            },
        };
        proof {
            assert(self.remaining() =~= s1.skip(4));
        }
        let mime = match mime_try_from(code) {
            Some(m) => m,
            None => {
                return Err(EntryMetadataError::EntryMimeNotSupported(code));
            },
        };
        let size_unpacked = match self.read_u32() {
            Ok(v) => v,
            Err(e) => {
                return Err(e);
            },
        };
        proof {
            assert(self.remaining() =~= s1.skip(8));
            assert(s1.skip(4).take(4) =~= s1.subrange(4, 8));
        }
        let start_offset = match self.read_u32() {
            Ok(v) => v,
            Err(e) => {
                return Err(e);
            },
        };
        proof {
            assert(self.remaining() =~= s1.skip(12));
            assert(s1.skip(8).take(4) =~= s1.subrange(8, 12));
        }
        let timestamp = match self.read_u32() {
            Ok(v) => v,
            Err(e) => {
                return Err(e);
            },
        };
        proof {
            assert(self.remaining() =~= s1.skip(16));
            assert(s1.skip(12).take(4) =~= s1.subrange(12, 16));
        }
        let size_packed = match self.read_u32() {
            Ok(v) => v,
            Err(e) => {
                return Err(e);
            },
        };
        proof {
            assert(s1.skip(16).take(4) =~= s1.subrange(16, 20));
        }
        let result = BankEntry {
            filename,
            mime,
            size_unpacked,
            start_offset,
            timestamp,
            size_packed,
        };
        proof {
            assert(result@ == parse_entry(rem).unwrap().0);
        }
        Ok(result)
    }
}

/// Parse one NUL-terminated, length-limited property string, verbatim:
/// property keys and values keep their case.
pub open spec fn parse_raw_name(s: Seq<u8>) -> Option<(Seq<u8>, int)> {
    let i = first_nul(s);
    if 0 <= i <= MAX_PATH_LENGTH {
        Some((s.take(i), i + 1))
    } else {
        None
    }
}

/// The reserved property key naming the archive's mount prefix.
pub open spec fn prefix_key() -> Seq<u8> {
    seq![112u8, 114u8, 101u8, 102u8, 105u8, 120u8]
}

/// How a property value is stored: the value of the prefix key is
/// normalized as a directory path and given a trailing separator; every
/// other value is kept verbatim.
pub open spec fn prop_value(key: Seq<u8>, value: Seq<u8>) -> Seq<u8> {
    if key == prefix_key() {
        let r = normalize_spec(value, true);
        if r.len() > 0 && r[r.len() - 1] == WIN_DIR {
            r
        } else {
            r + seq![WIN_DIR]
        }
    } else {
        value
    }
}

/// Parse the property table: key/value pairs, in order, terminated by an
/// empty key. Returns the stored pairs and the bytes consumed.
pub open spec fn parse_props(s: Seq<u8>) -> Option<(Seq<(Seq<u8>, Seq<u8>)>, int)>
    decreases s.len(),
{
    match parse_raw_name(s) {
        None => None,
        Some((key, n)) => {
            if key.len() == 0 {
                Some((Seq::empty(), n))
            } else {
                match parse_raw_name(s.skip(n)) {
                    None => None,
                    Some((value, m)) => {
                        if n + m > s.len() {
                            None  // cannot happen; keeps the recursion well-founded
                        } else {
                            match parse_props(s.skip(n + m)) {
                                None => None,
                                Some((ps, t)) => Some(
                                    (seq![(key, prop_value(key, value))] + ps, n + m + t),
                                ),
                            }
                        }
                    },
                }
            }
        },
    }
}

/// The pairs a vector of owned properties stands for.
pub open spec fn props_view(v: Seq<(Vec<u8>, Vec<u8>)>) -> Seq<(Seq<u8>, Seq<u8>)> {
    v.map(|_i: int, p: (Vec<u8>, Vec<u8>)| (p.0@, p.1@))
}

impl PboReader {
    /// Read one NUL-terminated property string, verbatim.
    fn read_raw_name(&mut self) -> (r: Result<Vec<u8>, EntryNameError>)
        requires
            old(self).wf(),
        ensures
            final(self).wf(),
            final(self).data@ == old(self).data@,
            match parse_raw_name(old(self).remaining()) {
                Some((name, n)) => {
                    &&& r matches Ok(v) && v@ == name
                    &&& final(self).pos == old(self).pos + n
                },
                None => r == Err::<Vec<u8>, EntryNameError>(name_err(old(self).remaining())),
            },
    {
        let ghost rem = self.remaining();
        let mut j: usize = 0;
        while j < self.data.len() - self.pos && self.data[self.pos + j] != 0 && j
            <= MAX_PATH_LENGTH
            invariant
                self.wf(),
                0 <= j <= rem.len(),
                j <= MAX_PATH_LENGTH + 1,
                rem == self.data@.skip(self.pos as int),
                forall|k: int| 0 <= k < j ==> rem[k] != 0,
            decreases self.data@.len() - self.pos - j,
        {
            j = j + 1;
        }
        proof {
            lemma_first_nul_at(rem, j as int);
        }
        if j < self.data.len() - self.pos && j <= MAX_PATH_LENGTH {
            let ghost nlen = j as int;
            assert(rem[nlen] == 0);
            let mut name: Vec<u8> = Vec::new();
            let mut k: usize = 0;
            let dlen = self.data.len();
            while k < j
                invariant
                    self.wf(),
                    0 <= k <= j,
                    j < rem.len(),
                    dlen == self.data@.len(),
                    rem == self.data@.skip(self.pos as int),
                    name@ == rem.take(k as int),
                decreases j - k,
            {
                proof {
                    assert(self.pos + k < self.data@.len());
                }
                let b = self.data[self.pos + k];
                proof {
                    assert(rem[k as int] == b);
                }
                name.push(b);
                proof {
                    assert(rem.take(k as int + 1) =~= rem.take(k as int).push(rem[k as int]));
                }
                k = k + 1;
            }
            self.pos = self.pos + j + 1;
            proof {
                assert(name@ =~= rem.take(nlen));
            }
            Ok(name)
        } else if j == self.data.len() - self.pos {
            proof {
                lemma_first_nul_at(rem, j as int);
            }
            if j > MAX_PATH_LENGTH {
                Err(EntryNameError::NameTooLong)
            } else {
                Err(EntryNameError::Truncated)
            }
        } else {
            proof {
                lemma_first_nul(rem);
                assert(j == MAX_PATH_LENGTH + 1);
                assert(rem.len() > MAX_PATH_LENGTH);
            }
            Err(EntryNameError::NameTooLong)
        }
    }

    /// Read the property table that follows a version record: key/value
    /// pairs until an empty key, in order, with the prefix value normalized.
    pub fn read_properties(&mut self) -> (r: Result<
        Vec<(Vec<u8>, Vec<u8>)>,
        EntryMetadataError,
    >)
        requires
            old(self).wf(),
        ensures
            final(self).wf(),
            final(self).data@ == old(self).data@,
            match parse_props(old(self).remaining()) {
                Some((ps, t)) => {
                    &&& r matches Ok(v) && props_view(v@) == ps
                    &&& final(self).pos == old(self).pos + t
                },
                None => r == Err::<Vec<(Vec<u8>, Vec<u8>)>, EntryMetadataError>(
                    EntryMetadataError::Truncated,
                ),
            },
    {
        let ghost rem0 = self.remaining();
        let ghost pos0 = self.pos as int;
        let mut props: Vec<(Vec<u8>, Vec<u8>)> = Vec::new();
        proof {
            if parse_props(rem0) is Some {
                let p = parse_props(rem0).unwrap();
                assert(props_view(props@) + p.0 =~= p.0);
            }
        }
        loop
            invariant_except_break
                match parse_props(self.remaining()) {
                    Some((ps, t)) => parse_props(rem0) == Some::<
                        (Seq<(Seq<u8>, Seq<u8>)>, int),
                    >((props_view(props@) + ps, self.pos - pos0 + t)),
                    None => parse_props(rem0) == None::<(Seq<(Seq<u8>, Seq<u8>)>, int)>,
                },
            invariant
                self.wf(),
                self.data@ == old(self).data@,
                pos0 <= self.pos,
                pos0 == old(self).pos,
                rem0 == self.data@.skip(pos0),
                rem0 == old(self).remaining(),
            ensures
                final(self).wf(),
                final(self).data@ == old(self).data@,
                parse_props(rem0) is Some,
                props_view(props@) == parse_props(rem0).unwrap().0,
                final(self).pos == pos0 + parse_props(rem0).unwrap().1,
            decreases self.data@.len() - self.pos,
        {
            let ghost rem = self.remaining();
            let ghost pos_start = self.pos as int;
            let key = match self.read_raw_name() {
                Ok(v) => v,
                Err(_) => {
                    return Err(EntryMetadataError::Truncated);
                },
            };
            let ghost n = parse_raw_name(rem).unwrap().1;
            if key.len() == 0 {
                proof {
                    assert(parse_props(rem) == Some::<(Seq<(Seq<u8>, Seq<u8>)>, int)>(
                        (Seq::empty(), n),
                    ));
                    assert(props_view(props@) + Seq::<(Seq<u8>, Seq<u8>)>::empty() =~= props_view(
                        props@,
                    ));
                }
                break;
            }
            proof {
                assert(self.remaining() =~= rem.skip(n));
            }
            let value = match self.read_raw_name() {
                Ok(v) => v,
                Err(_) => {
                    return Err(EntryMetadataError::Truncated);
                },
            };
            let ghost m = parse_raw_name(rem.skip(n)).unwrap().1;
            proof {
                assert(self.remaining() =~= rem.skip(n + m));
                assert(n + m <= rem.len());
            }
            let stored = if is_prefix_key(&key) {
                let mut nv = normalize_path(value.as_slice(), true);
                let needs_sep = nv.len() == 0 || nv[nv.len() - 1] != WIN_DIR;
                if needs_sep {
                    nv.push(WIN_DIR);
                }
                proof {
                    assert(nv@ == prop_value(key@, value@));
                }
                nv
            } else {
                proof {
                    assert(value@ == prop_value(key@, value@));
                }
                value
            };
            let ghost old_props = props@;
            let ghost pair = (key@, prop_value(key@, value@));
            props.push((key, stored));
            proof {
                assert(props_view(props@) =~= props_view(old_props).push(pair));
                if parse_props(self.remaining()) is Some {
                    let sub = parse_props(self.remaining()).unwrap();
                    assert(parse_props(rem) == Some::<(Seq<(Seq<u8>, Seq<u8>)>, int)>(
                        (seq![pair] + sub.0, n + m + sub.1),
                    ));
                    assert(props_view(old_props) + (seq![pair] + sub.0) =~= props_view(props@)
                        + sub.0);
                }
            }
        }
        Ok(props)
    }
}

/// The value a property table maps a key to: the table reads as a mapping
/// in which a later pair for the same key overwrites an earlier one.
pub open spec fn lookup_prop(ps: Seq<(Seq<u8>, Seq<u8>)>, key: Seq<u8>) -> Option<Seq<u8>>
    decreases ps.len(),
{
    if ps.len() == 0 {
        None
    } else if ps.last().0 == key {
        Some(ps.last().1)
    } else {
        lookup_prop(ps.drop_last(), key)
    }
}

/// Read a property as from a mapping: the value of the last pair bound to
/// the key, exactly `lookup_prop`.
pub fn get_property<'a>(props: &'a Vec<(Vec<u8>, Vec<u8>)>, key: &Vec<u8>) -> (r: Option<
    &'a Vec<u8>,
>)
    ensures
        match lookup_prop(props_view(props@), key@) {
            Some(v) => r matches Some(x) && x@ == v,
            None => r is None,
        },
{
    let mut i: usize = props.len();
    proof {
        assert(props_view(props@).take(props@.len() as int) =~= props_view(props@));
    }
    while i > 0
        invariant
            i <= props@.len(),
            lookup_prop(props_view(props@), key@) == lookup_prop(
                props_view(props@).take(i as int),
                key@,
            ),
        decreases i,
    {
        i = i - 1;
        let ghost pv = props_view(props@);
        if crate::path::bytes_eq(&props[i].0, key) {
            proof {
                assert(pv.take(i as int + 1).last() == pv[i as int]);
                assert(pv[i as int].0 == key@);
            }
            return Some(&props[i].1);
        }
        proof {
            assert(pv.take(i as int + 1).last() == pv[i as int]);
            assert(pv.take(i as int + 1).drop_last() =~= pv.take(i as int));
        }
    }
    proof {
        assert(props_view(props@).take(0) =~= Seq::<(Seq<u8>, Seq<u8>)>::empty());
    }
    None
}

/// Whether a key is the reserved prefix key.
fn is_prefix_key(key: &Vec<u8>) -> (r: bool)
    ensures
        r == (key@ == prefix_key()),
{
    if key.len() != 6 {
        proof {
            assert(key@ != prefix_key());
        }
        return false;
    }
    let r = key[0] == 112 && key[1] == 114 && key[2] == 101 && key[3] == 102 && key[4] == 105
        && key[5] == 120;
    proof {
        if r {
            assert(key@ =~= prefix_key());
        } else {
            assert(key@ != prefix_key());
        }
    }
    r
}

/// Append the wire encoding of one name.
pub fn write_name(out: &mut Vec<u8>, name: &Vec<u8>)
    ensures
        final(out)@ == old(out)@ + enc_name(name@),
{
    let mut i: usize = 0;
    while i < name.len()
        invariant
            0 <= i <= name@.len(),
            out@ == old(out)@ + name@.take(i as int),
        decreases name@.len() - i,
    {
        out.push(name[i]);
        proof {
            assert(old(out)@ + name@.take(i as int) + seq![name@[i as int]] =~= old(out)@
                + name@.take(i as int + 1));
        }
        i = i + 1;
    }
    out.push(0);
    proof {
        assert(name@.take(name@.len() as int) =~= name@);
        assert(old(out)@ + name@ + seq![0u8] =~= old(out)@ + enc_name(name@));
    }
}

/// Append one little-endian `u32`.
pub fn write_u32(out: &mut Vec<u8>, v: u32)
    ensures
        final(out)@ == old(out)@ + spec_u32_to_le_bytes(v),
{
    let mut bytes = u32_to_le_bytes(v);
    out.append(&mut bytes);
}

/// Append the wire encoding of one entry record.
pub fn write_entry(out: &mut Vec<u8>, e: &BankEntry)
    ensures
        final(out)@ == old(out)@ + enc_entry(e@),
{
    write_name(out, &e.filename);
    write_u32(out, mime_to_code(e.mime));
    write_u32(out, e.size_unpacked);
    write_u32(out, e.start_offset);
    write_u32(out, e.timestamp);
    write_u32(out, e.size_packed);
    proof {
        assert(final(out)@ =~= old(out)@ + enc_entry(e@));
    }
}

/// Record round-trip: parsing the encoding of any well-formed record yields
/// that record back, consuming exactly its encoding, whatever bytes follow.
pub proof fn lemma_entry_round_trip(e: EntryView, rest: Seq<u8>)
    requires
        wf_entry(e),
    ensures
        parse_entry(enc_entry(e) + rest) == Some((e, enc_entry(e).len() as int)),
{
    lemma_auto_spec_u32_to_from_le_bytes();
    let s = enc_entry(e) + rest;
    let nlen = e.name.len() as int;
    assert forall|k: int| 0 <= k < nlen implies s[k] != 0 by {
        assert(s[k] == e.name[k]);
    }
    assert(s[nlen] == 0);
    lemma_first_nul_at(s, nlen);
    assert(first_nul(s) == nlen);
    assert(s.take(nlen) =~= e.name);
    assert forall|k: int| 0 <= k < nlen implies lower_seq(s.take(nlen))[k] == e.name[k] by {
        assert(lower(e.name[k]) == e.name[k]);
    }
    assert(lower_seq(s.take(nlen)) =~= e.name);
    let s1 = s.skip(nlen + 1);
    assert(s1.take(4) =~= spec_u32_to_le_bytes(mime_code(e.mime)));
    assert(mime_of_code(spec_u32_from_le_bytes(s1.take(4))) == Some(e.mime));
    assert(s1.subrange(4, 8) =~= spec_u32_to_le_bytes(e.size_unpacked));
    assert(s1.subrange(8, 12) =~= spec_u32_to_le_bytes(e.start_offset));
    assert(s1.subrange(12, 16) =~= spec_u32_to_le_bytes(e.timestamp));
    assert(s1.subrange(16, 20) =~= spec_u32_to_le_bytes(e.size_packed));
    assert(s1.len() >= 20);
}

} // verus!
