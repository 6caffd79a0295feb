//! Path normalization for entry names and the archive prefix property.
//!
//! Entry names are byte strings. The archive format treats `/` and `\` as the
//! same separator, with `\` as the canonical form, and compares names without
//! regard to ASCII case. Normalization collapses runs of separators, converts
//! them to the canonical separator, and lower-cases every other byte; unless
//! the path is a directory, a trailing separator is dropped.

use vstd::prelude::*;

verus! {

/// The canonical separator written into normalized paths.
pub const WIN_DIR: u8 = 92;

/// The alternative separator accepted on input.
pub const UNIX_DIR: u8 = 47;

/// Whether a byte is one of the two accepted path separators.
pub open spec fn is_sep(c: u8) -> bool {
    c == WIN_DIR || c == UNIX_DIR
}

/// ASCII lower-casing of one byte.
pub open spec fn lower(c: u8) -> u8 {
    if 65 <= c && c <= 90 {
        (c + 32) as u8
    } else {
        c
    }
}

/// The body of normalization: collapse separator runs to one canonical
/// separator and lower-case everything else. `last_sep` records whether the
/// previous kept byte was a separator (true at the start, so leading
/// separators are dropped).
pub open spec fn norm_core(s: Seq<u8>, last_sep: bool) -> Seq<u8>
    decreases s.len(),
{
    if s.len() == 0 {
        Seq::empty()
    } else if is_sep(s[0]) {
        if last_sep {
            norm_core(s.skip(1), true)
        } else {
            seq![WIN_DIR] + norm_core(s.skip(1), true)
        }
    } else {
        seq![lower(s[0])] + norm_core(s.skip(1), false)
    }
}

/// Full normalization: run `norm_core`, then drop one trailing separator
/// unless the path names a directory.
pub open spec fn normalize_spec(s: Seq<u8>, directory: bool) -> Seq<u8> {
    let r = norm_core(s, true);
    if !directory && r.len() > 0 && r[r.len() - 1] == WIN_DIR {
        r.drop_last()
    } else {
        r
    }
}

/// A byte string is clean when every separator in it is the canonical one,
/// never leads a run of two, and every other byte is already lower-case.
pub open spec fn clean(r: Seq<u8>) -> bool
    decreases r.len(),
{
    if r.len() == 0 {
        true
    } else if is_sep(r[0]) {
        r[0] == WIN_DIR && (r.len() == 1 || !is_sep(r[1])) && clean(r.skip(1))
    } else {
        lower(r[0]) == r[0] && clean(r.skip(1))
    }
}

/// Normalized output is clean, and when `last_sep` is set it cannot begin
/// with a separator.
proof fn lemma_norm_core_clean(s: Seq<u8>, last_sep: bool)
    ensures
        clean(norm_core(s, last_sep)),
        last_sep ==> (norm_core(s, last_sep).len() == 0 || !is_sep(norm_core(s, last_sep)[0])),
        !last_sep ==> (norm_core(s, last_sep).len() == 0 || norm_core(s, last_sep)[0] == WIN_DIR
            || !is_sep(norm_core(s, last_sep)[0])),
    decreases s.len(),
{
    if s.len() == 0 {
    } else if is_sep(s[0]) {
        lemma_norm_core_clean(s.skip(1), true);
        if !last_sep {
            let rest = norm_core(s.skip(1), true);
            let r = seq![WIN_DIR] + rest;
            assert(r.skip(1) =~= rest);
        }
    } else {
        lemma_norm_core_clean(s.skip(1), false);
        let rest = norm_core(s.skip(1), false);
        let r = seq![lower(s[0])] + rest;
        assert(r.skip(1) =~= rest);
        assert(lower(lower(s[0])) == lower(s[0]));
    }
}

/// On clean input that does not begin with a separator (when `last_sep` is
/// set), normalization is the identity.
proof fn lemma_norm_core_fixed(r: Seq<u8>, last_sep: bool)
    requires
        clean(r),
        last_sep ==> (r.len() == 0 || !is_sep(r[0])),
    ensures
        norm_core(r, last_sep) == r,
    decreases r.len(),
{
    if r.len() == 0 {
        assert(norm_core(r, last_sep) =~= r);
    } else if is_sep(r[0]) {
        lemma_norm_core_fixed(r.skip(1), true);
        assert(norm_core(r, last_sep) =~= r);
    } else {
        lemma_norm_core_fixed(r.skip(1), false);
        assert(norm_core(r, last_sep) =~= r);
    }
}

/// A prefix of a clean byte string is clean.
proof fn lemma_clean_take(r: Seq<u8>, k: int)
    requires
        clean(r),
        0 <= k <= r.len(),
    ensures
        clean(r.take(k)),
    decreases r.len(),
{
    if r.len() == 0 || k == 0 {
        assert(clean(r.take(k)));
    } else {
        lemma_clean_take(r.skip(1), k - 1);
        assert(r.take(k).skip(1) =~= r.skip(1).take(k - 1));
        assert(r.take(k)[0] == r[0]);
        if k > 1 {
            assert(r.take(k)[1] == r[1]);
        }
    }
}

/// Normalization is idempotent: running it twice with the same directory flag
/// gives the same bytes as running it once.
pub proof fn lemma_normalize_idempotent(s: Seq<u8>, directory: bool)
    ensures
        normalize_spec(normalize_spec(s, directory), directory) == normalize_spec(s, directory),
{
    let r = norm_core(s, true);
    lemma_norm_core_clean(s, true);
    if !directory && r.len() > 0 && r[r.len() - 1] == WIN_DIR {
        let r2 = r.drop_last();
        assert(r2 =~= r.take(r.len() - 1));
        lemma_clean_take(r, r.len() - 1);
        if r2.len() > 0 {
            assert(!is_sep(r2[0]));
        }
        lemma_norm_core_fixed(r2, true);
        // r2 cannot end in a separator: r is clean, so a separator at the end
        // of r cannot follow another separator.
        if r2.len() > 0 && r2[r2.len() - 1] == WIN_DIR {
            lemma_clean_no_adjacent(r, r.len() - 2);
            assert(false);
        }
        assert(normalize_spec(r2, directory) == r2);
    } else {
        lemma_norm_core_fixed(r, true);
        if !directory && r.len() > 0 && r[r.len() - 1] == WIN_DIR {
            assert(false);
        }
        assert(normalize_spec(r, directory) == r);
    }
}

/// In a clean byte string, a separator is never followed by a separator.
proof fn lemma_clean_no_adjacent(r: Seq<u8>, i: int)
    requires
        clean(r),
        0 <= i,
        i + 1 < r.len(),
        is_sep(r[i]),
    ensures
        !is_sep(r[i + 1]),
    decreases i,
{
    if i == 0 {
    } else {
        lemma_clean_no_adjacent(r.skip(1), i - 1);
    }
}

/// Normalize a path: collapse separator runs to a single canonical separator,
/// lower-case every other byte, drop leading separators, and, unless
/// `directory` is set, drop a trailing separator.
pub fn normalize_path(p: &[u8], directory: bool) -> (result: Vec<u8>)
    ensures
        result@ == normalize_spec(p@, directory),
{
    let mut out: Vec<u8> = Vec::new();
    let mut last_sep = true;
    let mut i: usize = 0;
    proof {
        assert(p@.skip(0) =~= p@);
        assert(Seq::<u8>::empty() + norm_core(p@, true) =~= norm_core(p@, true));
    }
    while i < p.len()
        invariant
            0 <= i <= p@.len(),
            norm_core(p@, true) == out@ + norm_core(p@.skip(i as int), last_sep),
            last_sep ==> (out@.len() == 0 || out@[out@.len() - 1] == WIN_DIR),
            !last_sep ==> out@.len() > 0 && !is_sep(out@[out@.len() - 1]),
        decreases p@.len() - i,
    {
        let c = p[i];
        proof {
            assert(p@.skip(i as int)[0] == p@[i as int]);
            assert(p@.skip(i as int).skip(1) =~= p@.skip(i as int + 1));
        }
        if c == WIN_DIR || c == UNIX_DIR {
            if !last_sep {
                out.push(WIN_DIR);
                last_sep = true;
            }
        } else {
            let lc = if 65 <= c && c <= 90 {
                c + 32
            } else {
                c
            };
            out.push(lc);
            last_sep = false;
        }
        i = i + 1;
    }
    proof {
        assert(p@.skip(p@.len() as int) =~= Seq::<u8>::empty());
        assert(out@ + Seq::<u8>::empty() =~= out@);
    }
    if !directory && out.len() > 0 && out[out.len() - 1] == WIN_DIR {
        let ghost before = out@;
        out.pop();
        proof {
            assert(out@ =~= before.drop_last());
        }
    }
    out
}

/// Copy a byte string.
pub fn copy_bytes(v: &Vec<u8>) -> (result: Vec<u8>)
    ensures
        result@ == v@,
{
    let mut out: Vec<u8> = Vec::new();
    let mut i: usize = 0;
    while i < v.len()
        invariant
            0 <= i <= v@.len(),
            out@ =~= v@.take(i as int),
        decreases v@.len() - i,
    {
        out.push(v[i]);
        i = i + 1;
    }
    proof {
        assert(v@.take(v@.len() as int) =~= v@);
    }
    out
}

/// Byte-string equality.
pub fn bytes_eq(a: &Vec<u8>, b: &Vec<u8>) -> (r: bool)
    ensures
        r == (a@ == b@),
{
    if a.len() != b.len() {
        proof {
            assert(a@ != b@);
        }
        return false;
    }
    let mut i: usize = 0;
    while i < a.len()
        invariant
            i <= a@.len(),
            a@.len() == b@.len(),
            forall|j: int| 0 <= j < i ==> a@[j] == b@[j],
        decreases a@.len() - i,
    {
        if a[i] != b[i] {
            proof {
                assert(a@ != b@);
            }
            return false;
        }
        i = i + 1;
    }
    proof {
        assert(a@ =~= b@);
    }
    true
}

/// Convert forward slashes in a name to the canonical separator, leaving
/// every other byte alone.
pub open spec fn convert_spec(s: Seq<u8>) -> Seq<u8> {
    s.map(|_i: int, c: u8| if c == UNIX_DIR { WIN_DIR } else { c })
}

/// Replace every forward slash in `name` with the canonical separator.
pub fn convert_dir_slash(name: &Vec<u8>) -> (result: Vec<u8>)
    ensures
        result@ == convert_spec(name@),
{
    let mut out: Vec<u8> = Vec::new();
    let mut i: usize = 0;
    while i < name.len()
        invariant
            0 <= i <= name@.len(),
            out@ =~= convert_spec(name@).take(i as int),
        decreases name@.len() - i,
    {
        let c = name[i];
        if c == UNIX_DIR {
            out.push(WIN_DIR);
        } else {
            out.push(c);
        }
        i = i + 1;
    }
    proof {
        assert(convert_spec(name@).take(name@.len() as int) =~= convert_spec(name@));
    }
    out
}

} // verus!
