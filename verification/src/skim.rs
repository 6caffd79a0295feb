//! The archive skimmer: a single pass over the header's entry records that
//! applies the configured validation policies, collects the property table,
//! computes each data entry's absolute payload offset, and freezes the
//! result as an archive index.
//!
//! The whole pass is specified by the pure pipeline `skim_spec`:
//! `scan_records` walks the record sequence, `assign_offsets` attaches
//! payload offsets, and `apply_filters` drops or rejects entries according
//! to the options.

use vstd::prelude::*;
use crate::codec::{
    entry_err, lemma_parse_entry_bounds, lemma_parse_props_bounds, parse_entry, parse_props,
    props_view,
};
use crate::entry::{
    BankEntry, BankSkimEntry, EntryMime, EntryView, SkimEntryView, spec_empty_name,
    spec_is_version,
};
use crate::errors::{BankSkimError, EntryMetadataError};
use crate::path::convert_spec;

verus! {

/// Where a data entry's payload offset comes from: the deprecated stored
/// field, or a running total of packed sizes.
#[derive(Clone, Copy, Debug, PartialEq, Eq, Structural)]
pub enum OffsetLocationStrategy {
    Deprecated,
    Calculate,
}

/// What to do with a second version record.
#[derive(Clone, Copy, Debug, PartialEq, Eq, Structural)]
pub enum MultipleVersionStrategy {
    Forbid,
    Allow { should_read_props: bool },
}

/// The validation policy matrix for one skim call.
#[derive(Clone, Copy, Debug, PartialEq, Eq, Structural)]
pub struct BankSkimOptions {
    pub multiple_version_strategy: MultipleVersionStrategy,
    pub offset_location_strategy: OffsetLocationStrategy,
    pub allow_offsets_to_header: bool,
    pub remove_impossible_offsets: bool,
    pub require_version_first: bool,
    pub require_version_entry: bool,
    pub require_version_blanked: bool,
    pub ignore_unused_properties: bool,
    pub max_entry_count: usize,
    pub remove_empty_entries: bool,
    pub allow_obfuscated: bool,
    pub require_valid_checksum: bool,
}

impl Default for BankSkimOptions {
    /// The permissive defaults: compute payload offsets from the packed
    /// sizes (the stored offset field is deprecated), tolerate everything,
    /// cap nothing.
    fn default() -> (r: Self)
        ensures
            r.multiple_version_strategy == MultipleVersionStrategy::Forbid,
            r.offset_location_strategy == OffsetLocationStrategy::Calculate,
            !r.allow_offsets_to_header,
            !r.remove_impossible_offsets,
            !r.require_version_first,
            !r.require_version_entry,
            !r.require_version_blanked,
            !r.ignore_unused_properties,
            r.max_entry_count == usize::MAX,
            !r.remove_empty_entries,
            !r.allow_obfuscated,
            !r.require_valid_checksum,
    {
        BankSkimOptions {
            multiple_version_strategy: MultipleVersionStrategy::Forbid,
            offset_location_strategy: OffsetLocationStrategy::Calculate,
            allow_offsets_to_header: false,
            remove_impossible_offsets: false,
            require_version_first: false,
            require_version_entry: false,
            require_version_blanked: false,
            ignore_unused_properties: false,
            max_entry_count: usize::MAX,
            remove_empty_entries: false,
            allow_obfuscated: false,
            require_valid_checksum: false,
        }
    }
}

/// What one header scan yields before offsets are assigned: the data
/// entries in scan order (names separator-converted), the property pairs,
/// and the header length in bytes.
pub ghost struct ScanOut {
    pub entries: Seq<EntryView>,
    pub props: Seq<(Seq<u8>, Seq<u8>)>,
    pub consumed: int,
}

/// A data entry as accumulated: forward slashes in its name become the
/// canonical separator.
pub open spec fn normalize_entry(e: EntryView) -> EntryView {
    EntryView { name: convert_spec(e.name), ..e }
}

/// Whether the property table of a version record is folded into the
/// running table: always for the first version record, and as configured
/// for the ones a permissive strategy tolerates after it.
pub open spec fn keeps_props(o: BankSkimOptions, seen_version: bool) -> bool {
    !seen_version || (o.multiple_version_strategy matches MultipleVersionStrategy::Allow {
        should_read_props,
    } && should_read_props)
}

/// One step of the header state machine per record, from the state `(first
/// record still pending, a version record was seen, data entries so far)`.
///
/// A record with an empty name is a version record (kind `Version`) or the
/// terminator (any other kind); anything else is a data entry. The policy
/// checks happen in the order the decoder meets them: the first-record
/// check, then blanking, multiplicity, obfuscation and the entry cap.
pub open spec fn scan_records(
    s: Seq<u8>,
    o: BankSkimOptions,
    first: bool,
    seen_version: bool,
    count: int,
) -> Result<ScanOut, BankSkimError>
    decreases s.len(),
    via scan_records_decreases
{
    match parse_entry(s) {
        None => Err(BankSkimError::EntryDebinarization(entry_err(s))),
        Some((e, n)) => {
            if first && o.require_version_first && !(spec_empty_name(e) && spec_is_version(e)) {
                Err(BankSkimError::FirstNotVersion)
            } else if spec_empty_name(e) && e.mime == EntryMime::Version {
                if !spec_is_version(e) && o.require_version_blanked {
                    Err(BankSkimError::VersionNotBlanked)
                } else if seen_version && o.multiple_version_strategy
                    == MultipleVersionStrategy::Forbid {
                    Err(BankSkimError::MultipleVersionsFound)
                } else {
                    match parse_props(s.skip(n)) {
                        None => Err(
                            BankSkimError::EntryDebinarization(EntryMetadataError::Truncated),
                        ),
                        Some((ps, t)) => match scan_records(s.skip(n + t), o, false, true, count) {
                            Err(err) => Err(err),
                            Ok(out) => Ok(
                                ScanOut {
                                    entries: out.entries,
                                    props: (if keeps_props(o, seen_version) {
                                        ps
                                    } else {
                                        Seq::empty()
                                    }) + out.props,
                                    consumed: n + t + out.consumed,
                                },
                            ),
                        },
                    }
                }
            } else if spec_empty_name(e) {
                if o.require_version_entry && !seen_version {
                    Err(BankSkimError::VersionNotFound)
                } else {
                    Ok(ScanOut { entries: Seq::empty(), props: Seq::empty(), consumed: n })
                }
            } else {
                if e.mime == EntryMime::Encrypted && !o.allow_obfuscated {
                    Err(BankSkimError::Obfuscated)
                } else if count >= o.max_entry_count {
                    Err(BankSkimError::TooManyEntries)
                } else {
                    match scan_records(s.skip(n), o, false, seen_version, count + 1) {
                        Err(err) => Err(err),
                        Ok(out) => Ok(
                            ScanOut {
                                entries: seq![normalize_entry(e)] + out.entries,
                                props: out.props,
                                consumed: n + out.consumed,
                            },
                        ),
                    }
                }
            }
        },
    }
}

#[via_fn]
proof fn scan_records_decreases(
    s: Seq<u8>,
    o: BankSkimOptions,
    first: bool,
    seen_version: bool,
    count: int,
) {
    lemma_parse_entry_bounds(s);
    if parse_entry(s) is Some {
        let n = parse_entry(s).unwrap().1;
        lemma_parse_props_bounds(s.skip(n));
    }
}

/// Sum of the packed sizes of a record sequence.
pub open spec fn sum_packed(es: Seq<EntryView>) -> int
    decreases es.len(),
{
    if es.len() == 0 {
        0
    } else {
        es[0].size_packed + sum_packed(es.skip(1))
    }
}

/// Attach payload offsets: under `Calculate`, entries are laid out
/// back-to-back after the header; under `Deprecated`, each keeps its stored
/// offset verbatim.
pub open spec fn assign_offsets(es: Seq<EntryView>, o: BankSkimOptions, base: int) -> Seq<
    SkimEntryView,
>
    decreases es.len(),
{
    if es.len() == 0 {
        Seq::empty()
    } else {
        let e = es[0];
        let off: int = if o.offset_location_strategy == OffsetLocationStrategy::Calculate {
            base
        } else {
            e.start_offset as int
        };
        seq![
            SkimEntryView {
                name: e.name,
                mime: e.mime,
                size_unpacked: e.size_unpacked,
                stored_offset: e.start_offset,
                timestamp: e.timestamp,
                size_packed: e.size_packed,
                start_offset: off as u64,
            },
        ] + assign_offsets(es.skip(1), o, base + e.size_packed)
    }
}

/// Drop or reject entries after offset assignment: empty entries go first
/// when `remove_empty_entries` is set; then an offset inside the header is
/// tolerated, dropped, or rejected, in that order of policy.
pub open spec fn apply_filters(
    es: Seq<SkimEntryView>,
    o: BankSkimOptions,
    header_len: int,
) -> Result<Seq<SkimEntryView>, BankSkimError>
    decreases es.len(),
{
    if es.len() == 0 {
        Ok(Seq::empty())
    } else {
        let e = es.last();
        match apply_filters(es.drop_last(), o, header_len) {
            Err(err) => Err(err),
            Ok(kept) => {
                if o.remove_empty_entries && e.size_packed == 0 {
                    Ok(kept)
                } else if e.start_offset < header_len && !o.allow_offsets_to_header {
                    if o.remove_impossible_offsets {
                        Ok(kept)
                    } else {
                        Err(BankSkimError::ImpossibleDataOffset)
                    }
                } else {
                    Ok(kept.push(e))
                }
            },
        }
    }
}

/// A skimmed archive index as a mathematical value.
pub ghost struct SkimView {
    pub entries: Seq<SkimEntryView>,
    pub properties: Seq<(Seq<u8>, Seq<u8>)>,
    pub buffer_start: int,
}

/// The whole skim as a pure function of the archive bytes and the options:
/// scan the header, check that computed offsets fit the offset field, assign
/// offsets, and filter.
pub open spec fn skim_spec(s: Seq<u8>, o: BankSkimOptions) -> Result<SkimView, BankSkimError> {
    match scan_records(s, o, true, false, 0) {
        Err(err) => Err(err),
        Ok(out) => {
            if o.offset_location_strategy == OffsetLocationStrategy::Calculate && out.consumed
                + sum_packed(out.entries) > u64::MAX {
                Err(BankSkimError::ImpossibleDataOffset)
            } else {
                match apply_filters(assign_offsets(out.entries, o, out.consumed), o, out.consumed) {
                    Err(err) => Err(err),
                    Ok(es) => Ok(
                        SkimView { entries: es, properties: out.props, buffer_start: out.consumed },
                    ),
                }
            }
        },
    }
}

/// The views of a vector of raw records.
pub open spec fn entries_view(v: Seq<BankEntry>) -> Seq<EntryView> {
    v.map(|_i: int, e: BankEntry| e@)
}

/// The views of a vector of skimmed entries.
pub open spec fn skim_entries_view(v: Seq<BankSkimEntry>) -> Seq<SkimEntryView> {
    v.map(|_i: int, e: BankSkimEntry| e@)
}

/// The frozen result of one successful skim: the archive bytes, the data
/// entries with their computed offsets, the property table, and where the
/// payload region starts.
pub struct PboFileSkim {
    pub data: Vec<u8>,
    pub entries: Vec<BankSkimEntry>,
    pub options: BankSkimOptions,
    pub properties: Vec<(Vec<u8>, Vec<u8>)>,
    pub buffer_start: u64,
}

impl PboFileSkim {
    /// The index matches what `skim_spec` says of bytes it was built from.
    pub open spec fn matches(&self, v: SkimView) -> bool {
        &&& skim_entries_view(self.entries@) == v.entries
        &&& props_view(self.properties@) == v.properties
        &&& self.buffer_start == v.buffer_start
    }
}

/// Splitting a record sequence splits its packed-size sum.
proof fn lemma_sum_push(es: Seq<EntryView>, e: EntryView)
    ensures
        sum_packed(es.push(e)) == sum_packed(es) + e.size_packed,
    decreases es.len(),
{
    if es.len() == 0 {
        assert(es.push(e)[0] == e);
        assert(es.push(e).skip(1) =~= Seq::<EntryView>::empty());
        assert(sum_packed(es.push(e)) == e.size_packed + sum_packed(Seq::<EntryView>::empty()));
    } else {
        assert(es.push(e)[0] == es[0]);
        assert(es.push(e).skip(1) =~= es.skip(1).push(e));
        lemma_sum_push(es.skip(1), e);
        assert(sum_packed(es.push(e)) == es[0].size_packed + sum_packed(es.skip(1).push(e)));
        assert(sum_packed(es) == es[0].size_packed + sum_packed(es.skip(1)));
    }
}

/// The packed-size sum is never negative.
proof fn lemma_sum_nonneg(es: Seq<EntryView>)
    ensures
        sum_packed(es) >= 0,
    decreases es.len(),
{
    if es.len() > 0 {
        lemma_sum_nonneg(es.skip(1));
    }
}

impl crate::codec::PboReader {
    /// Skim a whole archive: scan the header records under the given
    /// options, compute payload offsets, filter, and freeze the index.
    /// The result is exactly what `skim_spec` says of the archive bytes.
    pub fn skim_archive(data: Vec<u8>, options: BankSkimOptions) -> (r: Result<
        PboFileSkim,
        BankSkimError,
    >)
        ensures
            match skim_spec(data@, options) {
                Ok(v) => {
                    &&& r matches Ok(f)
                    &&& f.matches(v)
                    &&& f.data@ == data@
                    &&& f.options == options
                },
                Err(e) => r == Err::<PboFileSkim, BankSkimError>(e),
            },
    {
        let ghost s0 = data@;
        let mut reader = crate::codec::PboReader::new(data);
        let mut raw: Vec<BankEntry> = Vec::new();
        let mut props: Vec<(Vec<u8>, Vec<u8>)> = Vec::new();
        let mut first: bool = true;
        let mut seen_version: bool = false;
        proof {
            assert(reader.remaining() =~= s0);
            assert(entries_view(raw@) =~= Seq::<EntryView>::empty());
            assert(props_view(props@) =~= Seq::<(Seq<u8>, Seq<u8>)>::empty());
            if scan_records(s0, options, true, false, 0) is Ok {
                let out = scan_records(s0, options, true, false, 0).unwrap();
                assert(Seq::<EntryView>::empty() + out.entries =~= out.entries);
                assert(Seq::<(Seq<u8>, Seq<u8>)>::empty() + out.props =~= out.props);
            }
        }
        loop
            invariant_except_break
                match scan_records(
                    reader.remaining(),
                    options,
                    first,
                    seen_version,
                    raw@.len() as int,
                ) {
                    Ok(out) => scan_records(s0, options, true, false, 0) == Ok::<
                        ScanOut,
                        BankSkimError,
                    >(
                        ScanOut {
                            entries: entries_view(raw@) + out.entries,
                            props: props_view(props@) + out.props,
                            consumed: reader.pos + out.consumed,
                        },
                    ),
                    Err(e) => scan_records(s0, options, true, false, 0) == Err::<
                        ScanOut,
                        BankSkimError,
                    >(e),
                },
            invariant
                reader.wf(),
                reader.data@ == s0,
                s0 == data@,
            ensures
                reader.wf(),
                reader.data@ == s0,
                scan_records(s0, options, true, false, 0) == Ok::<ScanOut, BankSkimError>(
                    ScanOut {
                        entries: entries_view(raw@),
                        props: props_view(props@),
                        consumed: reader.pos as int,
                    },
                ),
            decreases reader.data@.len() - reader.pos,
        {
            let ghost rem = reader.remaining();
            let ghost count0 = raw@.len() as int;
            let e = match reader.read_entry() {
                Ok(e) => e,
                Err(err) => {
                    return Err(BankSkimError::EntryDebinarization(err));
                },
            };
            let ghost n = parse_entry(rem).unwrap().1;
            proof {
                lemma_parse_entry_bounds(rem);
                assert(reader.remaining() =~= rem.skip(n));
            }
            let e_empty = crate::entry::empty_name(&e);
            let e_ver = crate::entry::is_version(&e);
            if first && options.require_version_first && !(e_empty && e_ver) {
                return Err(BankSkimError::FirstNotVersion);
            }
            if e_empty && matches!(e.mime, EntryMime::Version) {
                if !e_ver && options.require_version_blanked {
                    return Err(BankSkimError::VersionNotBlanked);
                }
                if seen_version && matches!(
                    options.multiple_version_strategy,
                    MultipleVersionStrategy::Forbid,
                ) {
                    return Err(BankSkimError::MultipleVersionsFound);
                }
                let ghost rem2 = reader.remaining();
                let mut ps = match reader.read_properties() {
                    Ok(ps) => ps,
                    Err(_) => {
                        return Err(
                            BankSkimError::EntryDebinarization(EntryMetadataError::Truncated),
                        );
                    },
                };
                let ghost t = parse_props(rem2).unwrap().1;
                proof {
                    lemma_parse_props_bounds(rem2);
                    assert(reader.remaining() =~= rem.skip(n + t));
                }
                let keep = !seen_version || match options.multiple_version_strategy {
                    MultipleVersionStrategy::Allow { should_read_props } => should_read_props,
                    MultipleVersionStrategy::Forbid => false,
                };
                let ghost props0 = props@;
                let ghost psv = parse_props(rem2).unwrap().0;
                if keep {
                    props.append(&mut ps);
                }
                proof {
                    assert(keep == keeps_props(options, seen_version));
                    if keep {
                        assert(props_view(props@) =~= props_view(props0) + psv);
                    } else {
                        assert(props_view(props@) =~= props_view(props0) + Seq::<
                            (Seq<u8>, Seq<u8>),
                        >::empty());
                    }
                }
                first = false;
                seen_version = true;
                proof {
                    if scan_records(reader.remaining(), options, false, true, count0) is Ok {
                        let out2 = scan_records(
                            reader.remaining(),
                            options,
                            false,
                            true,
                            count0,
                        ).unwrap();
                        assert(props_view(props0) + ((if keep {
                            psv
                        } else {
                            Seq::<(Seq<u8>, Seq<u8>)>::empty()
                        }) + out2.props) =~= props_view(props@) + out2.props);
                    }
                }
            } else if e_empty {
                if options.require_version_entry && !seen_version {
                    return Err(BankSkimError::VersionNotFound);
                }
                proof {
                    assert(entries_view(raw@) + Seq::<EntryView>::empty() =~= entries_view(raw@));
                    assert(props_view(props@) + Seq::<(Seq<u8>, Seq<u8>)>::empty() =~= props_view(
                        props@,
                    ));
                }
                break;
            } else {
                if matches!(e.mime, EntryMime::Encrypted) && !options.allow_obfuscated {
                    return Err(BankSkimError::Obfuscated);
                }
                if raw.len() >= options.max_entry_count {
                    return Err(BankSkimError::TooManyEntries);
                }
                let converted = crate::path::convert_dir_slash(&e.filename);
                let ghost ev = e@;
                let e2 = BankEntry {
                    filename: converted,
                    mime: e.mime,
                    size_unpacked: e.size_unpacked,
                    start_offset: e.start_offset,
                    timestamp: e.timestamp,
                    size_packed: e.size_packed,
                };
                let ghost raw0 = raw@;
                raw.push(e2);
                first = false;
                proof {
                    assert(e2@ == normalize_entry(ev));
                    assert(entries_view(raw@) =~= entries_view(raw0).push(normalize_entry(ev)));
                    if scan_records(reader.remaining(), options, false, seen_version, count0 + 1)
                        is Ok {
                        let out2 = scan_records(
                            reader.remaining(),
                            options,
                            false,
                            seen_version,
                            count0 + 1,
                        ).unwrap();
                        assert(entries_view(raw0) + (seq![normalize_entry(ev)] + out2.entries)
                            =~= entries_view(raw@) + out2.entries);
                    }
                }
            }
        }
        // The header is scanned; attach offsets and filter, in one pass.
        let ghost ev = entries_view(raw@);
        let header_len: u64 = reader.pos as u64;
        let calculate = matches!(options.offset_location_strategy, OffsetLocationStrategy::Calculate);
        let mut entries: Vec<BankSkimEntry> = Vec::new();
        let mut base: u64 = header_len;
        let mut i: usize = 0;
        let ghost hlen = header_len as int;
        proof {
            assert(ev.skip(0) =~= ev);
            assert(ev.take(0) =~= Seq::<EntryView>::empty());
            assert(skim_entries_view(entries@) =~= Seq::<SkimEntryView>::empty());
            assert(Seq::<SkimEntryView>::empty() + assign_offsets(ev, options, hlen)
                =~= assign_offsets(ev, options, hlen));
            assert(apply_filters(Seq::<SkimEntryView>::empty(), options, hlen) == Ok::<
                Seq<SkimEntryView>,
                BankSkimError,
            >(Seq::<SkimEntryView>::empty()));
        }
        let ghost mut assigned: Seq<SkimEntryView> = Seq::empty();
        let ghost mut gbase: int = hlen;
        while i < raw.len()
            invariant
                0 <= i <= raw@.len(),
                ev == entries_view(raw@),
                hlen == header_len as int,
                s0 == data@,
                calculate == (options.offset_location_strategy
                    == OffsetLocationStrategy::Calculate),
                scan_records(s0, options, true, false, 0) == Ok::<ScanOut, BankSkimError>(
                    ScanOut { entries: ev, props: props_view(props@), consumed: hlen },
                ),
                gbase == hlen + sum_packed(ev.take(i as int)),
                calculate ==> base as int == gbase,
                assigned == assign_offsets(ev.take(i as int), options, hlen),
                assign_offsets(ev, options, hlen) == assigned + assign_offsets(
                    ev.skip(i as int),
                    options,
                    gbase,
                ),
                apply_filters(assigned, options, hlen) == Ok::<Seq<SkimEntryView>, BankSkimError>(
                    skim_entries_view(entries@),
                ),
            decreases raw@.len() - i,
        {
            let name = crate::path::copy_bytes(&raw[i].filename);
            let off: u64 = if calculate {
                base
            } else {
                raw[i].start_offset as u64
            };
            let sv = BankSkimEntry {
                filename: name,
                mime: raw[i].mime,
                size_unpacked: raw[i].size_unpacked,
                stored_offset: raw[i].start_offset,
                timestamp: raw[i].timestamp,
                size_packed: raw[i].size_packed,
                start_offset: off,
            };
            proof {
                assert(ev.skip(i as int)[0] == ev[i as int]);
                assert(ev[i as int] == raw@[i as int]@);
                assert(ev.skip(i as int).skip(1) =~= ev.skip(i as int + 1));
                assert(sv@ == assign_offsets(ev.skip(i as int), options, gbase)[0]);
            }
            // Under the calculated strategy the running offset must fit the
            // offset field for every entry, kept or not.
            if calculate {
                let size64: u64 = raw[i].size_packed as u64;
                if base > u64::MAX - size64 {
                    proof {
                        lemma_sum_nonneg(ev.skip(i as int + 1));
                        assert(ev.take(i as int).push(ev[i as int]) =~= ev.take(i as int + 1));
                        lemma_sum_push(ev.take(i as int), ev[i as int]);
                        lemma_sum_split(ev, i as int + 1);
                        assert(hlen + sum_packed(ev) > u64::MAX);
                    }
                    return Err(BankSkimError::ImpossibleDataOffset);
                }
                base = base + size64;
            }
            let ghost assigned0 = assigned;
            proof {
                assert(ev.take(i as int).push(ev[i as int]) =~= ev.take(i as int + 1));
                lemma_sum_push(ev.take(i as int), ev[i as int]);
                gbase = gbase + ev[i as int].size_packed;
                assigned = assigned.push(sv@);
                assert(assigned.drop_last() =~= assigned0);
                assert(assigned.last() == sv@);
                lemma_assign_take_succ(ev, i as int, options, hlen);
                assert(assign_offsets(seq![ev[i as int]], options, hlen + sum_packed(
                    ev.take(i as int),
                )) =~= seq![sv@]) by {
                    assert(seq![ev[i as int]].skip(1) =~= Seq::<EntryView>::empty());
                    assert(assign_offsets(Seq::<EntryView>::empty(), options, hlen + sum_packed(
                        ev.take(i as int),
                    ) + ev[i as int].size_packed) =~= Seq::<SkimEntryView>::empty());
                }
                assert(assigned =~= assign_offsets(ev.take(i as int + 1), options, hlen));
                assert(assign_offsets(ev.skip(i as int), options, gbase
                    - ev[i as int].size_packed) == seq![sv@] + assign_offsets(
                    ev.skip(i as int + 1),
                    options,
                    gbase,
                ));
                assert(assigned0 + (seq![sv@] + assign_offsets(ev.skip(i as int + 1), options, gbase))
                    =~= assigned + assign_offsets(ev.skip(i as int + 1), options, gbase));
            }
            // Apply the filter policies to this entry.
            let drop_empty = options.remove_empty_entries && raw[i].size_packed == 0;
            let in_header = off < header_len && !options.allow_offsets_to_header;
            if drop_empty {
            } else if in_header {
                if !options.remove_impossible_offsets {
                    proof {
                        assert(apply_filters(assigned, options, hlen) == Err::<
                            Seq<SkimEntryView>,
                            BankSkimError,
                        >(BankSkimError::ImpossibleDataOffset));
                        lemma_filters_err_prefix(
                            assigned,
                            assign_offsets(ev.skip(i as int + 1), options, gbase),
                            options,
                            hlen,
                        );
                        assert(apply_filters(assign_offsets(ev, options, hlen), options, hlen)
                            == Err::<Seq<SkimEntryView>, BankSkimError>(
                            BankSkimError::ImpossibleDataOffset,
                        ));
                    }
                    return Err(BankSkimError::ImpossibleDataOffset);
                }
            } else {
                let ghost kept0 = entries@;
                entries.push(sv);
                proof {
                    assert(skim_entries_view(entries@) =~= skim_entries_view(kept0).push(sv@));
                }
            }
            i = i + 1;
        }
        proof {
            assert(ev.take(raw@.len() as int) =~= ev);
            assert(ev.skip(raw@.len() as int) =~= Seq::<EntryView>::empty());
            assert(assigned == assign_offsets(ev, options, hlen));
            if options.offset_location_strategy == OffsetLocationStrategy::Calculate {
                assert(hlen + sum_packed(ev) <= u64::MAX);
            }
        }
        let skim = PboFileSkim {
            data: reader.data,
            entries,
            options,
            properties: props,
            buffer_start: header_len,
        };
        Ok(skim)
    }
}

/// Splitting a record sequence splits its packed-size sum.
proof fn lemma_sum_split(es: Seq<EntryView>, k: int)
    requires
        0 <= k <= es.len(),
    ensures
        sum_packed(es) == sum_packed(es.take(k)) + sum_packed(es.skip(k)),
    decreases k,
{
    if k == 0 {
        assert(es.take(0) =~= Seq::<EntryView>::empty());
        assert(es.skip(0) =~= es);
    } else {
        lemma_sum_split(es, k - 1);
        assert(es.take(k - 1).push(es[k - 1]) =~= es.take(k));
        lemma_sum_push(es.take(k - 1), es[k - 1]);
        assert(es.skip(k - 1)[0] == es[k - 1]);
        assert(es.skip(k - 1).skip(1) =~= es.skip(k));
    }
}

/// One more assigned entry extends the assigned prefix.
proof fn lemma_assign_take_succ(es: Seq<EntryView>, i: int, o: BankSkimOptions, base: int)
    requires
        0 <= i < es.len(),
    ensures
        assign_offsets(es.take(i + 1), o, base) == assign_offsets(es.take(i), o, base)
            + assign_offsets(seq![es[i]], o, base + sum_packed(es.take(i))),
    decreases i,
{
    if i == 0 {
        assert(es.take(0) =~= Seq::<EntryView>::empty());
        assert(es.take(1) =~= seq![es[0]]);
        assert(assign_offsets(es.take(0), o, base) + assign_offsets(seq![es[0]], o, base + 0)
            =~= assign_offsets(seq![es[0]], o, base));
    } else {
        assert(es.take(i + 1)[0] == es[0]);
        assert(es.take(i + 1).skip(1) =~= es.skip(1).take(i));
        assert(es.take(i)[0] == es[0]);
        assert(es.take(i).skip(1) =~= es.skip(1).take(i - 1));
        lemma_assign_take_succ(es.skip(1), i - 1, o, base + es[0].size_packed);
        assert(es.skip(1)[i - 1] == es[i]);
        assert(es.skip(1).take(i - 1) =~= es.take(i).skip(1));
        assert(sum_packed(es.take(i)) == es[0].size_packed + sum_packed(es.skip(1).take(i - 1)))
            by {
            assert(es.take(i).skip(1) =~= es.skip(1).take(i - 1));
        }
        assert(assign_offsets(es.take(i + 1), o, base) =~= assign_offsets(es.take(i), o, base)
            + assign_offsets(seq![es[i]], o, base + sum_packed(es.take(i))));
    }
}

/// The offsets of an entry sequence are laid out back-to-back from `base`:
/// the first entry sits at `base`, and each further entry starts where the
/// previous one's packed bytes end.
pub open spec fn chained(es: Seq<SkimEntryView>, base: int) -> bool {
    &&& es.len() > 0 ==> es[0].start_offset == base
    &&& forall|i: int|
        0 <= i < es.len() - 1 ==> es[i + 1].start_offset == es[i].start_offset + es[i].size_packed
}

/// Where the payload bytes of a chained sequence end.
pub open spec fn end_off(es: Seq<SkimEntryView>, base: int) -> int {
    if es.len() == 0 {
        base
    } else {
        es.last().start_offset + es.last().size_packed
    }
}

/// In a chained sequence every offset is at least the base.
proof fn lemma_chained_ge_at(es: Seq<SkimEntryView>, base: int, i: int)
    requires
        chained(es, base),
        0 <= i < es.len(),
    ensures
        es[i].start_offset >= base,
    decreases i,
{
    if i > 0 {
        lemma_chained_ge_at(es, base, i - 1);
        assert(es[(i - 1) + 1].start_offset == es[i - 1].start_offset + es[i - 1].size_packed);
    }
}

/// Offset assignment produces the same number of entries it was given.
proof fn lemma_assign_len(es: Seq<EntryView>, o: BankSkimOptions, base: int)
    ensures
        assign_offsets(es, o, base).len() == es.len(),
    decreases es.len(),
{
    if es.len() > 0 {
        lemma_assign_len(es.skip(1), o, base + es[0].size_packed);
    }
}

/// Under the calculated strategy, offset assignment yields a chained
/// sequence whenever the running total fits the offset field.
proof fn lemma_assign_calc_chained(es: Seq<EntryView>, o: BankSkimOptions, base: int)
    requires
        o.offset_location_strategy == OffsetLocationStrategy::Calculate,
        0 <= base,
        base + sum_packed(es) <= u64::MAX,
    ensures
        chained(assign_offsets(es, o, base), base),
    decreases es.len(),
{
    if es.len() == 0 {
    } else {
        lemma_sum_nonneg(es.skip(1));
        lemma_assign_calc_chained(es.skip(1), o, base + es[0].size_packed);
        lemma_assign_len(es.skip(1), o, base + es[0].size_packed);
        let r = assign_offsets(es, o, base);
        let r1 = assign_offsets(es.skip(1), o, base + es[0].size_packed);
        assert(r[0].start_offset == base);
        assert(r[0].size_packed == es[0].size_packed);
        assert forall|i: int| 0 <= i < r.len() - 1 implies r[i + 1].start_offset == r[i].start_offset + r[i].size_packed by {
            if i == 0 {
                assert(r[1] == r1[0]);
                assert(r1[0].start_offset == base + es[0].size_packed);
            } else {
                assert(r[i] == r1[i - 1]);
                assert(r[i + 1] == r1[i]);
            }
        }
    }
}

/// Filtering a chained sequence cannot fail when its base is past the
/// header, and what it keeps is chained from the same base: the dropped
/// entries carry no payload bytes.
proof fn lemma_filters_chained(
    es: Seq<SkimEntryView>,
    o: BankSkimOptions,
    header_len: int,
    base: int,
)
    requires
        chained(es, base),
        base >= header_len,
    ensures
        apply_filters(es, o, header_len) is Ok,
        chained(apply_filters(es, o, header_len).unwrap(), base),
        end_off(apply_filters(es, o, header_len).unwrap(), base) == end_off(es, base),
        apply_filters(es, o, header_len).unwrap().len() == 0 ==> end_off(es, base) == base,
    decreases es.len(),
{
    if es.len() == 0 {
    } else {
        let pre = es.drop_last();
        assert(chained(pre, base)) by {
            assert(pre.len() > 0 ==> pre[0] == es[0]);
            assert forall|i: int| 0 <= i < pre.len() - 1 implies pre[i + 1].start_offset == pre[i].start_offset + pre[i].size_packed by {
                assert(pre[i] == es[i]);
                assert(pre[i + 1] == es[i + 1]);
            }
        }
        lemma_filters_chained(pre, o, header_len, base);
        let f0 = apply_filters(pre, o, header_len).unwrap();
        let last = es.last();
        lemma_chained_ge_at(es, base, es.len() - 1);
        assert(last.start_offset >= header_len);
        // The boundary fact: the last record starts where the kept prefix ends.
        assert(last.start_offset == end_off(pre, base)) by {
            if es.len() >= 2 {
                assert(pre.last() == es[es.len() - 2]);
                assert(es[es.len() - 1].start_offset == es[es.len() - 2].start_offset + es[es.len()
                    - 2].size_packed);
            }
        }
        if o.remove_empty_entries && last.size_packed == 0 {
            assert(end_off(es, base) == last.start_offset);
        } else {
            let f = f0.push(last);
            assert(f.len() > 0 ==> f[0].start_offset == base) by {
                if f0.len() > 0 {
                    assert(f[0] == f0[0]);
                } else {
                    assert(f[0] == last);
                    assert(end_off(pre, base) == base);
                }
            }
            assert forall|i: int| 0 <= i < f.len() - 1 implies f[i + 1].start_offset == f[i].start_offset + f[i].size_packed by {
                if i < f0.len() - 1 {
                    assert(f[i] == f0[i]);
                    assert(f[i + 1] == f0[i + 1]);
                } else {
                    assert(i == f0.len() - 1);
                    assert(f[i] == f0[i]);
                    assert(f[i + 1] == last);
                    assert(end_off(f0, base) == end_off(pre, base));
                }
            }
        }
    }
}

/// Offset monotonicity: under the calculated strategy, a successful skim
/// lays the entries out back-to-back, the first at the header's end and each
/// further one exactly where the previous entry's packed bytes stop.
pub proof fn lemma_offset_monotonicity(s: Seq<u8>, o: BankSkimOptions)
    requires
        o.offset_location_strategy == OffsetLocationStrategy::Calculate,
        skim_spec(s, o) is Ok,
    ensures
        chained(skim_spec(s, o).unwrap().entries, skim_spec(s, o).unwrap().buffer_start),
{
    let out = scan_records(s, o, true, false, 0).unwrap();
    lemma_scan_consumed_nonneg(s, o, true, false, 0);
    lemma_assign_calc_chained(out.entries, o, out.consumed);
    lemma_filters_chained(assign_offsets(out.entries, o, out.consumed), o, out.consumed, out.consumed);
}

/// A successful scan consumes a non-negative number of bytes.
proof fn lemma_scan_consumed_nonneg(
    s: Seq<u8>,
    o: BankSkimOptions,
    first: bool,
    seen_version: bool,
    count: int,
)
    ensures
        scan_records(s, o, first, seen_version, count) is Ok ==> scan_records(
            s,
            o,
            first,
            seen_version,
            count,
        ).unwrap().consumed >= 0,
    decreases s.len(),
{
    lemma_parse_entry_bounds(s);
    if parse_entry(s) is Some {
        let n = parse_entry(s).unwrap().1;
        lemma_parse_props_bounds(s.skip(n));
        if parse_props(s.skip(n)) is Some {
            let t = parse_props(s.skip(n)).unwrap().1;
            lemma_scan_consumed_nonneg(s.skip(n + t), o, false, true, count);
        }
        lemma_scan_consumed_nonneg(s.skip(n), o, false, seen_version, count + 1);
    }
}

/// Pairwise-distinct names among scanned records.
pub open spec fn distinct_scan_names(es: Seq<EntryView>) -> bool {
    forall|i: int, j: int|
        0 <= i < j < es.len() ==> (#[trigger] es[i]).name != (#[trigger] es[j]).name
}

/// Pairwise-distinct names among indexed entries.
pub open spec fn distinct_names(es: Seq<SkimEntryView>) -> bool {
    forall|i: int, j: int|
        0 <= i < j < es.len() ==> (#[trigger] es[i]).name != (#[trigger] es[j]).name
}

/// Offset assignment keeps every entry's name in its place.
proof fn lemma_assign_names(es: Seq<EntryView>, o: BankSkimOptions, base: int)
    ensures
        assign_offsets(es, o, base).len() == es.len(),
        forall|i: int|
            0 <= i < es.len() ==> (#[trigger] assign_offsets(es, o, base)[i]).name == es[i].name,
    decreases es.len(),
{
    if es.len() > 0 {
        lemma_assign_names(es.skip(1), o, base + es[0].size_packed);
        let r = assign_offsets(es, o, base);
        let r1 = assign_offsets(es.skip(1), o, base + es[0].size_packed);
        assert forall|i: int| 0 <= i < es.len() implies (#[trigger] r[i]).name == es[i].name by {
            if i > 0 {
                assert(r[i] == r1[i - 1]);
                assert(es.skip(1)[i - 1] == es[i]);
            }
        }
    }
}

/// Filtering keeps names distinct: what it keeps is drawn from the input,
/// one entry at most once.
proof fn lemma_filters_distinct(es: Seq<SkimEntryView>, o: BankSkimOptions, header_len: int)
    requires
        distinct_names(es),
        apply_filters(es, o, header_len) is Ok,
    ensures
        distinct_names(apply_filters(es, o, header_len).unwrap()),
        forall|k: int|
            0 <= k < apply_filters(es, o, header_len).unwrap().len() ==> exists|i: int|
                0 <= i < es.len() && (#[trigger] apply_filters(es, o, header_len).unwrap()[k]).name == es[i].name,
    decreases es.len(),
{
    if es.len() == 0 {
    } else {
        let pre = es.drop_last();
        let last = es.last();
        assert(distinct_names(pre)) by {
            assert forall|i: int, j: int| 0 <= i < j < pre.len() implies (#[trigger] pre[i]).name
                != (#[trigger] pre[j]).name by {
                assert(pre[i] == es[i]);
                assert(pre[j] == es[j]);
            }
        }
        lemma_filters_distinct(pre, o, header_len);
        let f0 = apply_filters(pre, o, header_len).unwrap();
        let f = apply_filters(es, o, header_len).unwrap();
        if o.remove_empty_entries && last.size_packed == 0 {
            assert(f == f0);
            assert forall|k: int| 0 <= k < f.len() implies exists|i: int|
                0 <= i < es.len() && (#[trigger] f[k]).name == es[i].name by {
                let i0 = choose|i: int| 0 <= i < pre.len() && f0[k].name == pre[i].name;
                assert(es[i0].name == f[k].name);
            }
        } else if last.start_offset < header_len && !o.allow_offsets_to_header {
            assert(f == f0);
            assert forall|k: int| 0 <= k < f.len() implies exists|i: int|
                0 <= i < es.len() && (#[trigger] f[k]).name == es[i].name by {
                let i0 = choose|i: int| 0 <= i < pre.len() && f0[k].name == pre[i].name;
                assert(es[i0].name == f[k].name);
            }
        } else {
            assert(f == f0.push(last));
            assert forall|k: int| 0 <= k < f.len() implies exists|i: int|
                0 <= i < es.len() && (#[trigger] f[k]).name == es[i].name by {
                if k < f0.len() {
                    assert(f[k] == f0[k]);
                    let i0 = choose|i: int| 0 <= i < pre.len() && f0[k].name == pre[i].name;
                    assert(es[i0].name == f[k].name);
                } else {
                    assert(f[k] == last);
                    assert(es[es.len() - 1].name == f[k].name);
                }
            }
            assert forall|a: int, b: int| 0 <= a < b < f.len() implies (#[trigger] f[a]).name != (
            #[trigger] f[b]).name by {
                if b < f0.len() {
                    assert(f[a] == f0[a]);
                    assert(f[b] == f0[b]);
                } else {
                    assert(f[a] == f0[a]);
                    assert(f[b] == last);
                    let i0 = choose|i: int| 0 <= i < pre.len() && f0[a].name == pre[i].name;
                    assert(es[i0].name != es[es.len() - 1].name);
                }
            }
        }
    }
}

/// Uniqueness by normalized name: a skimmed index is a set of entries,
/// no two sharing a name, whenever the header's records carry pairwise
/// distinct names (after separator conversion and lower-casing, which the
/// scan applies). A header that repeats a name cannot grant this: the
/// offset law keeps every record's payload in the layout, so both records
/// stay.
pub proof fn lemma_entries_unique_by_name(s: Seq<u8>, o: BankSkimOptions)
    requires
        skim_spec(s, o) is Ok,
        distinct_scan_names(scan_records(s, o, true, false, 0).unwrap().entries),
    ensures
        distinct_names(skim_spec(s, o).unwrap().entries),
{
    let out = scan_records(s, o, true, false, 0).unwrap();
    let assigned = assign_offsets(out.entries, o, out.consumed);
    lemma_assign_names(out.entries, o, out.consumed);
    assert(distinct_names(assigned)) by {
        assert forall|i: int, j: int| 0 <= i < j < assigned.len() implies (
        #[trigger] assigned[i]).name != (#[trigger] assigned[j]).name by {
            assert(assigned[i].name == out.entries[i].name);
            assert(assigned[j].name == out.entries[j].name);
        }
    }
    lemma_filters_distinct(assigned, o, out.consumed);
}

/// An error among the first entries survives whatever follows them.
proof fn lemma_filters_err_prefix(
    a: Seq<SkimEntryView>,
    b: Seq<SkimEntryView>,
    o: BankSkimOptions,
    header_len: int,
)
    requires
        apply_filters(a, o, header_len) is Err,
    ensures
        apply_filters(a + b, o, header_len) == apply_filters(a, o, header_len),
    decreases b.len(),
{
    if b.len() == 0 {
        assert(a + b =~= a);
    } else {
        assert((a + b).drop_last() =~= a + b.drop_last());
        lemma_filters_err_prefix(a, b.drop_last(), o, header_len);
        assert((a + b).len() > 0);
    }
}

} // verus!
