//! The LZSS codec used for compressed entry payloads.
//!
//! The stream is a sequence of eight-code chunks: one control byte whose
//! bits, least significant first, mark each following code as a literal
//! byte (bit set) or a two-byte back-reference (bit clear). A
//! back-reference packs a 12-bit distance and a 4-bit length: the first
//! byte holds the low eight distance bits, the second the high four in its
//! top nibble and the copy length minus three in its bottom nibble. The
//! decoder keeps a ring of the last `WINDOW` output bytes, pre-filled with
//! spaces; a distance of zero reaches the oldest byte of the ring.
//!
//! `dec` below is the reference decoder, a pure function of the stream; the
//! executable decoder equals it, and the compressor's output is proved to
//! decode back to its input through it.

use vstd::prelude::*;
use crate::errors::DecodeError;

verus! {

/// The sliding window size, in bytes.
pub const WINDOW: usize = 4096;

/// The longest match a back-reference can encode.
pub const MAX_MATCH: usize = 18;

/// Matches no longer than this are written as literals.
pub const THRESHOLD: usize = 2;

/// The byte the window is pre-filled with.
pub const FILL: u8 = 0x20;

/// The window as it stands before any output: `WINDOW` fill bytes.
pub open spec fn fill_hist() -> Seq<u8> {
    Seq::new(WINDOW as nat, |_i: int| FILL)
}

/// An overlapping copy: read the byte `dist` places before the end of the
/// history, append it, and repeat, so that a copy longer than its distance
/// repeats the bytes it has just produced.
pub open spec fn copy_from(hist: Seq<u8>, dist: int, l: nat) -> Seq<u8>
    decreases l,
{
    if l == 0 {
        Seq::empty()
    } else {
        let c = hist[hist.len() - dist];
        seq![c] + copy_from(hist.push(c), dist, (l - 1) as nat)
    }
}

/// The reference decoder. `stream` is what remains of the input; `hist` the
/// output history including the pre-filled window; `need` how many bytes
/// are still owed; `flags` and `nbits` the unconsumed control bits, least
/// significant first. It yields exactly the `need` bytes that follow, or
/// the first fault: a missing byte is `TruncatedInput`, a copy longer than
/// what is owed is `Overflow`.
pub open spec fn dec(
    stream: Seq<u8>,
    hist: Seq<u8>,
    need: nat,
    flags: int,
    nbits: int,
) -> Result<Seq<u8>, DecodeError>
    decreases need, (if nbits <= 0 { 1int } else { 0int }),
{
    if need == 0 {
        Ok(Seq::empty())
    } else if nbits <= 0 {
        if stream.len() < 1 {
            Err(DecodeError::TruncatedInput)
        } else {
            dec(stream.skip(1), hist, need, stream[0] as int, 8)
        }
    } else if flags % 2 == 1 {
        // Literal: one byte, copied through.
        if stream.len() < 1 {
            Err(DecodeError::TruncatedInput)
        } else {
            let c = stream[0];
            match dec(stream.skip(1), hist.push(c), (need - 1) as nat, flags / 2, nbits - 1) {
                Err(e) => Err(e),
                Ok(rest) => Ok(seq![c] + rest),
            }
        }
    } else {
        // Back-reference: two bytes, distance and length.
        if stream.len() < 2 {
            Err(DecodeError::TruncatedInput)
        } else {
            let d = stream[0] + 256 * (stream[1] / 16);
            let l = (stream[1] % 16) + THRESHOLD + 1;
            let dist: int = if d == 0 {
                WINDOW as int
            } else {
                d as int
            };
            if l > need {
                Err(DecodeError::Overflow)
            } else {
                let copied = copy_from(hist, dist, l as nat);
                match dec(stream.skip(2), hist + copied, (need - l) as nat, flags / 2, nbits - 1) {
                    Err(e) => Err(e),
                    Ok(rest) => Ok(copied + rest),
                }
            }
        }
    }
}

/// Decoding a whole stream to a promised number of bytes.
pub open spec fn decode_spec(stream: Seq<u8>, len: nat) -> Result<Seq<u8>, DecodeError> {
    dec(stream, fill_hist(), len, 0, 0)
}

/// An overlapping copy produces exactly the asked-for number of bytes.
pub proof fn lemma_copy_from_len(hist: Seq<u8>, dist: int, l: nat)
    ensures
        copy_from(hist, dist, l).len() == l,
    decreases l,
{
    if l > 0 {
        let c = hist[hist.len() - dist];
        lemma_copy_from_len(hist.push(c), dist, (l - 1) as nat);
    }
}

/// A successful decode produces exactly the bytes owed.
pub proof fn lemma_dec_len(stream: Seq<u8>, hist: Seq<u8>, need: nat, flags: int, nbits: int)
    ensures
        dec(stream, hist, need, flags, nbits) is Ok ==> dec(
            stream,
            hist,
            need,
            flags,
            nbits,
        ).unwrap().len() == need,
    decreases need, (if nbits <= 0 { 1int } else { 0int }),
{
    if need == 0 {
    } else if nbits <= 0 {
        if stream.len() >= 1 {
            lemma_dec_len(stream.skip(1), hist, need, stream[0] as int, 8);
        }
    } else if flags % 2 == 1 {
        if stream.len() >= 1 {
            let c = stream[0];
            lemma_dec_len(stream.skip(1), hist.push(c), (need - 1) as nat, flags / 2, nbits - 1);
        }
    } else {
        if stream.len() >= 2 {
            let d = stream[0] + 256 * (stream[1] / 16);
            let l = (stream[1] % 16) + THRESHOLD + 1;
            let dist: int = if d == 0 {
                WINDOW as int
            } else {
                d as int
            };
            if l <= need {
                let copied = copy_from(hist, dist, l as nat);
                lemma_copy_from_len(hist, dist, l as nat);
                lemma_dec_len(
                    stream.skip(2),
                    hist + copied,
                    (need - l) as nat,
                    flags / 2,
                    nbits - 1,
                );
            }
        }
    }
}

/// Decompress `input`, which must yield exactly `length` bytes.
///
/// Equals the reference decoder on every input: the bytes on success, and
/// the same fault otherwise — a truncated stream is reported, never read
/// past the end.
#[verifier::rlimit(60)]
pub fn decode(input: &[u8], length: usize) -> (r: Result<Vec<u8>, DecodeError>)
    ensures
        match decode_spec(input@, length as nat) {
            Ok(out) => r matches Ok(v) && v@ == out,
            Err(e) => r == Err::<Vec<u8>, DecodeError>(e),
        },
{
    let mut out: Vec<u8> = Vec::new();
    let mut text: Vec<u8> = Vec::new();
    let mut k: usize = 0;
    while k < WINDOW
        invariant
            0 <= k <= WINDOW,
            text@.len() == k,
            forall|j: int| 0 <= j < k ==> text@[j] == FILL,
        decreases WINDOW - k,
    {
        text.push(FILL);
        k = k + 1;
    }
    let mut rd: usize = WINDOW - MAX_MATCH;
    let mut src: usize = 0;
    let mut flags: u8 = 0;
    let mut nbits: u8 = 0;
    let ghost h0 = fill_hist();
    proof {
        assert(h0 =~= text@);
        assert forall|dist: int| 1 <= dist <= WINDOW implies text@[ring_index(rd as int, dist)]
            == (h0 + out@)[(h0 + out@).len() - dist] by {
            assert(0 <= ring_index(rd as int, dist) < WINDOW);
        }
        assert(input@.skip(0) =~= input@);
        if decode_spec(input@, length as nat) is Ok {
            let full = decode_spec(input@, length as nat).unwrap();
            assert(Seq::<u8>::empty() + full =~= full);
        }
    }
    loop
        invariant_except_break
            dec(input@, h0, length as nat, 0, 0) == (match dec(
                input@.skip(src as int),
                h0 + out@,
                (length - out@.len()) as nat,
                flags as int,
                nbits as int,
            ) {
                Ok(rest) => Ok::<Seq<u8>, DecodeError>(out@ + rest),
                Err(e) => Err::<Seq<u8>, DecodeError>(e),
            }),
        invariant
            src <= input@.len(),
            out@.len() <= length,
            rd < WINDOW,
            nbits <= 8,
            text@.len() == WINDOW,
            h0 == fill_hist(),
            forall|dist: int|
                1 <= dist <= WINDOW ==> text@[ring_index(rd as int, dist)] == (h0 + out@)[(h0
                    + out@).len() - dist],
        ensures
            dec(input@, h0, length as nat, 0, 0) == Ok::<Seq<u8>, DecodeError>(out@),
        decreases length - out@.len(), input@.len() - src, 8 - nbits,
    {
        let ghost hist = h0 + out@;
        let ghost need = (length - out@.len()) as nat;
        if out.len() == length {
            proof {
                assert(out@ + Seq::<u8>::empty() =~= out@);
            }
            break;
        }
        if nbits == 0 {
            if src >= input.len() {
                return Err(DecodeError::TruncatedInput);
            }
            flags = input[src];
            src = src + 1;
            nbits = 8;
            proof {
                assert(input@.skip(src - 1).skip(1) =~= input@.skip(src as int));
                assert(input@.skip(src - 1)[0] == input@[src - 1]);
            }
        } else if flags % 2 == 1 {
            if src >= input.len() {
                return Err(DecodeError::TruncatedInput);
            }
            let c = input[src];
            src = src + 1;
            flags = flags / 2;
            nbits = nbits - 1;
            proof {
                assert(input@.skip(src - 1).skip(1) =~= input@.skip(src as int));
                assert(input@.skip(src - 1)[0] == input@[src - 1]);
            }
            push_ring(&mut text, &mut rd, c, Ghost(hist));
            let ghost out0 = out@;
            out.push(c);
            proof {
                assert(h0 + out@ =~= (h0 + out0).push(c));
                if dec(input@.skip(src as int), (h0 + out0).push(c), (need - 1) as nat,
                    flags as int, nbits as int) is Ok {
                    let rest = dec(
                        input@.skip(src as int),
                        (h0 + out0).push(c),
                        (need - 1) as nat,
                        flags as int,
                        nbits as int,
                    ).unwrap();
                    assert(out0 + (seq![c] + rest) =~= out@ + rest);
                }
            }
        } else {
            if input.len() - src < 2 {
                return Err(DecodeError::TruncatedInput);
            }
            let b0 = input[src];
            let b1 = input[src + 1];
            src = src + 2;
            flags = flags / 2;
            nbits = nbits - 1;
            proof {
                assert(input@.skip(src - 2).skip(2) =~= input@.skip(src as int));
                assert(input@.skip(src - 2)[0] == input@[src - 2]);
                assert(input@.skip(src - 2)[1] == input@[src - 1]);
            }
            let d: usize = b0 as usize + 256 * (b1 as usize / 16);
            let l: usize = (b1 as usize % 16) + THRESHOLD + 1;
            let dist: usize = if d == 0 {
                WINDOW
            } else {
                d
            };
            if l > length - out.len() {
                return Err(DecodeError::Overflow);
            }
            let ghost copied = copy_from(hist, dist as int, l as nat);
            proof {
                lemma_copy_from_len(hist, dist as int, l as nat);
            }
            let ghost out0 = out@;
            let mut ki: usize = 0;
            while ki < l
                invariant
                    0 <= ki <= l,
                    l <= MAX_MATCH + 1,
                    1 <= dist <= WINDOW,
                    rd < WINDOW,
                    text@.len() == WINDOW,
                    out@ == out0 + copied.take(ki as int),
                    out@.len() == out0.len() + ki,
                    out0.len() + l <= length,
                    copied == copy_from(h0 + out0, dist as int, l as nat),
                    copied.len() == l,
                    h0 == fill_hist(),
                    forall|dd: int|
                        1 <= dd <= WINDOW ==> text@[ring_index(rd as int, dd)] == (h0 + out@)[(h0
                            + out@).len() - dd],
                decreases l - ki,
            {
                let ghost histk = h0 + out@;
                let idx = ring_back(rd, dist);
                let c = text[idx];
                proof {
                    assert(c == histk[histk.len() - dist]);
                    lemma_copy_from_take(h0 + out0, dist as int, l as nat, ki as int);
                    assert(histk =~= (h0 + out0) + copied.take(ki as int));
                    assert(copied[ki as int] == c);
                }
                push_ring(&mut text, &mut rd, c, Ghost(histk));
                out.push(c);
                proof {
                    assert(out@ =~= out0 + copied.take(ki as int + 1));
                    assert(h0 + out@ =~= histk.push(c));
                }
                ki = ki + 1;
            }
            proof {
                assert(copied.take(l as int) =~= copied);
                assert(h0 + out@ =~= hist + copied);
                if dec(input@.skip(src as int), hist + copied, (need - l) as nat, flags as int,
                    nbits as int) is Ok {
                    let rest = dec(
                        input@.skip(src as int),
                        hist + copied,
                        (need - l) as nat,
                        flags as int,
                        nbits as int,
                    ).unwrap();
                    assert(out0 + (copied + rest) =~= out@ + rest);
                }
            }
        }
    }
    Ok(out)
}

/// The ring slot holding the byte `dist` places back, as a mathematical
/// index.
pub open spec fn ring_index(rd: int, dist: int) -> int {
    if rd >= dist {
        rd - dist
    } else {
        rd + WINDOW - dist
    }
}

/// The ring slot holding the byte `dist` places back.
fn ring_back(rd: usize, dist: usize) -> (r: usize)
    requires
        rd < WINDOW,
        1 <= dist <= WINDOW,
    ensures
        r == ring_index(rd as int, dist as int),
        r < WINDOW,
{
    if rd >= dist {
        rd - dist
    } else {
        rd + WINDOW - dist
    }
}

/// Append one byte to the decoder ring: write it at the cursor and step
/// the cursor, so that the ring keeps holding the last `WINDOW` bytes of
/// the history.
fn push_ring(text: &mut Vec<u8>, rd: &mut usize, c: u8, Ghost(hist): Ghost<Seq<u8>>)
    requires
        old(text)@.len() == WINDOW,
        *old(rd) < WINDOW,
        hist.len() >= WINDOW,
        forall|dist: int|
            1 <= dist <= WINDOW ==> old(text)@[ring_index(*old(rd) as int, dist)] == hist[hist.len()
                - dist],
    ensures
        final(text)@.len() == WINDOW,
        *final(rd) < WINDOW,
        forall|dist: int|
            1 <= dist <= WINDOW ==> final(text)@[ring_index(*final(rd) as int, dist)]
                == hist.push(c)[hist.push(c).len() - dist],
{
    let i = *rd;
    text.set(i, c);
    let nr = if i + 1 == WINDOW {
        0
    } else {
        i + 1
    };
    *rd = nr;
    proof {
        assert forall|dist: int| 1 <= dist <= WINDOW implies final(text)@[ring_index(
            nr as int,
            dist,
        )] == hist.push(c)[hist.push(c).len() - dist] by {
            if dist == 1 {
                assert(ring_index(nr as int, 1) == i);
            } else {
                assert(ring_index(nr as int, dist) == ring_index(i as int, dist - 1));
                assert(ring_index(i as int, dist - 1) != i) by {
                    assert(1 <= dist - 1 < WINDOW);
                }
                assert(hist.push(c)[hist.push(c).len() - dist] == hist[hist.len() - (dist - 1)]);
            }
        }
    }
}

/// The sentinel index marking "no node" in the match-finder tree.
pub const NIL: usize = 4096;

/// The match finder: a forest of binary trees over window positions, one
/// tree per leading byte, used to find the longest earlier occurrence of
/// the look-ahead. The `buffer` is the window and look-ahead, with the
/// first `MAX_MATCH - 1` bytes duplicated past the window so matches can be
/// read linearly across the wrap.
///
/// A position is linked into the forest exactly when its parent slot is
/// not `NIL`; insertion links the node and removal unlinks it, and neither
/// unlinks any other window position (insertion may replace the one
/// position it reports as a full-length match). The match the walk reports
/// is pinned by contract to real window bytes; how good a match it finds
/// is the tree's heuristic quality and is not specified. The walks are
/// capped, so even a corrupted forest cannot hang them; the encoder
/// additionally checks the match distance before emitting a
/// back-reference.
pub struct Context {
    pub match_position: usize,
    pub match_length: usize,
    pub previous_children: Vec<usize>,
    pub next_children: Vec<usize>,
    pub parents: Vec<usize>,
    pub buffer: Vec<u8>,
}

impl Context {
    /// The index arrays have their fixed sizes and hold only node indices
    /// or `NIL` (children) and tree or root indices (parents).
    pub open spec fn wf(&self) -> bool {
        &&& self.previous_children@.len() == WINDOW + 257
        &&& self.next_children@.len() == WINDOW + 257
        &&& self.parents@.len() == WINDOW + 1
        &&& self.buffer@.len() == WINDOW + MAX_MATCH - 1
        &&& forall|i: int|
            0 <= i < self.next_children@.len() ==> self.next_children@[i] <= WINDOW
        &&& forall|i: int|
            0 <= i < self.previous_children@.len() ==> self.previous_children@[i] <= WINDOW
        &&& forall|i: int| 0 <= i < self.parents@.len() ==> self.parents@[i] <= WINDOW + 256
    }

    /// A fresh context: an empty forest over a window of fill bytes.
    pub fn new() -> (r: Context)
        ensures
            r.wf(),
            forall|i: int| 0 <= i < r.buffer@.len() ==> r.buffer@[i] == FILL,
    {
        let mut previous_children: Vec<usize> = Vec::new();
        let mut next_children: Vec<usize> = Vec::new();
        let mut parents: Vec<usize> = Vec::new();
        let mut buffer: Vec<u8> = Vec::new();
        let mut i: usize = 0;
        while i < WINDOW + 257
            invariant
                i <= WINDOW + 257,
                previous_children@.len() == i,
                next_children@.len() == i,
                forall|j: int| 0 <= j < i ==> previous_children@[j] == NIL,
                forall|j: int| 0 <= j < i ==> next_children@[j] == NIL,
            decreases WINDOW + 257 - i,
        {
            previous_children.push(NIL);
            next_children.push(NIL);
            i = i + 1;
        }
        let mut j: usize = 0;
        while j < WINDOW + 1
            invariant
                j <= WINDOW + 1,
                parents@.len() == j,
                forall|t: int| 0 <= t < j ==> parents@[t] == NIL,
            decreases WINDOW + 1 - j,
        {
            parents.push(NIL);
            j = j + 1;
        }
        let mut t: usize = 0;
        while t < WINDOW + MAX_MATCH - 1
            invariant
                t <= WINDOW + MAX_MATCH - 1,
                buffer@.len() == t,
                forall|x: int| 0 <= x < t ==> buffer@[x] == FILL,
            decreases WINDOW + MAX_MATCH - 1 - t,
        {
            buffer.push(FILL);
            t = t + 1;
        }
        Context { match_position: 0, match_length: 0, previous_children, next_children, parents, buffer }
    }

    /// Insert the window position `node` into the tree rooted at its
    /// leading byte, recording the longest match met on the way down in
    /// `match_position` and `match_length`. The walk is capped; if the cap
    /// is ever hit the node is simply left out, which costs compression,
    /// never correctness.
    pub fn insert_node(&mut self, node: usize)
        requires
            old(self).wf(),
            node < WINDOW,
        ensures
            final(self).wf(),
            final(self).buffer@ == old(self).buffer@,
            final(self).match_length <= MAX_MATCH,
            final(self).match_length > THRESHOLD ==> final(self).match_position < WINDOW
                && forall|j: int|
                0 <= j < final(self).match_length
                    ==> old(self).buffer@[final(self).match_position + j]
                    == #[trigger] old(self).buffer@[node + j],
            final(self).parents@[node as int] != NIL,
            forall|x: int|
                0 <= x < WINDOW && x != node && x != final(self).match_position
                    && old(self).parents@[x] != NIL ==> final(self).parents@[x] != NIL,
    {
        // Reset the node's own child links: the slot may still hold links
        // from the position's previous life in the window.
        self.next_children.set(node, NIL);
        self.previous_children.set(node, NIL);
        self.match_length = 0;
        self.match_position = 0;
        let mut cmp: i32 = 1;
        let mut p: usize = WINDOW + 1 + self.buffer[node] as usize;
        let mut steps: usize = 0;
        loop
            invariant
                self.wf(),
                self.buffer@ == old(self).buffer@,
                self.parents@ == old(self).parents@,
                node < WINDOW,
                p <= WINDOW + 256,
                p != NIL,
                steps <= 2 * WINDOW + 2,
                self.match_length <= MAX_MATCH,
                self.match_length > THRESHOLD ==> self.match_position < WINDOW && forall|j: int|
                    0 <= j < self.match_length ==> self.buffer@[self.match_position + j]
                        == #[trigger] self.buffer@[node + j],
            ensures
                self.wf(),
                self.buffer@ == old(self).buffer@,
                self.parents@ == old(self).parents@,
                node < WINDOW,
                p < WINDOW,
                p == self.match_position,
                self.match_length == MAX_MATCH,
                forall|j: int|
                    0 <= j < MAX_MATCH ==> self.buffer@[self.match_position + j]
                        == #[trigger] self.buffer@[node + j],
            decreases 2 * WINDOW + 2 - steps,
        {
            if steps >= 2 * WINDOW + 2 {
                // A malformed walk (possible only on a corrupted forest):
                // hang the node off the current link and stop.
                self.next_children.set(p, node);
                self.parents.set(node, p);
                return;
            }
            steps = steps + 1;
            if cmp >= 0 {
                if self.next_children[p] == NIL {
                    self.next_children.set(p, node);
                    self.parents.set(node, p);
                    return;
                }
                p = self.next_children[p];
            } else {
                if self.previous_children[p] == NIL {
                    self.previous_children.set(p, node);
                    self.parents.set(node, p);
                    return;
                }
                p = self.previous_children[p];
            }
            // Compare the candidate's window bytes against the node's; the
            // matched prefix length is the candidate match.
            let mut i: usize = 0;
            while i < MAX_MATCH && self.buffer[node + i] == self.buffer[p + i]
                invariant
                    self.wf(),
                    node < WINDOW,
                    p < WINDOW,
                    i <= MAX_MATCH,
                    forall|j: int|
                        0 <= j < i ==> #[trigger] self.buffer@[node + j] == self.buffer@[p + j],
                decreases MAX_MATCH - i,
            {
                i = i + 1;
            }
            if i < MAX_MATCH {
                cmp = self.buffer[node + i] as i32 - self.buffer[p + i] as i32;
            } else {
                cmp = 0;
            }
            if i > self.match_length {
                self.match_position = p;
                self.match_length = i;
                if self.match_length >= MAX_MATCH {
                    break;
                }
            }
        }
        // A full-length match: the new node replaces the matched one in
        // place, which then leaves the forest.
        if p == node {
            // Only a corrupted forest can walk back to the node itself;
            // leave it hanging off its root.
            self.parents.set(node, WINDOW + 1 + self.buffer[node] as usize);
            return;
        }
        let pp0 = self.parents[p];
        let pp = if pp0 == NIL {
            p
        } else {
            pp0
        };
        self.parents.set(node, pp);
        let pc = self.previous_children[p];
        let nc = self.next_children[p];
        self.previous_children.set(node, pc);
        self.next_children.set(node, nc);
        self.parents.set(pc, node);
        self.parents.set(nc, node);
        if self.next_children[pp] == p {
            self.next_children.set(pp, node);
        } else {
            self.previous_children.set(pp, node);
        }
        self.parents.set(p, NIL);
    }

    /// Remove the window position `node` from its tree, splicing its
    /// rightmost left descendant into its place when it has two children.
    /// The walk is capped like the insert walk. The node leaves the forest
    /// and no other window position does; the buffer and the recorded
    /// match are untouched.
    pub fn delete_node(&mut self, node: usize)
        requires
            old(self).wf(),
            node < WINDOW,
        ensures
            final(self).wf(),
            final(self).buffer@ == old(self).buffer@,
            final(self).match_position == old(self).match_position,
            final(self).match_length == old(self).match_length,
            final(self).parents@[node as int] == NIL,
            forall|x: int|
                0 <= x < WINDOW && x != node && old(self).parents@[x] != NIL
                    ==> final(self).parents@[x] != NIL,
    {
        if self.parents[node] == NIL {
            return;
        }
        let q: usize;
        if self.next_children[node] == NIL {
            q = self.previous_children[node];
        } else if self.previous_children[node] == NIL {
            q = self.next_children[node];
        } else {
            let mut qq = self.previous_children[node];
            if self.next_children[qq] != NIL {
                let mut steps: usize = 0;
                while self.next_children[qq] != NIL && steps < 2 * WINDOW + 2
                    invariant
                        self.wf(),
                        self.buffer@ == old(self).buffer@,
                        self.parents@ == old(self).parents@,
                        qq < WINDOW,
                        steps <= 2 * WINDOW + 2,
                    decreases 2 * WINDOW + 2 - steps,
                {
                    qq = self.next_children[qq];
                    steps = steps + 1;
                }
                let pq0 = self.parents[qq];
                let pq = if pq0 == NIL {
                    qq
                } else {
                    pq0
                };
                let pcq = self.previous_children[qq];
                self.next_children.set(pq, pcq);
                self.parents.set(pcq, pq);
                let pcn = self.previous_children[node];
                self.previous_children.set(qq, pcn);
                self.parents.set(pcn, qq);
            }
            let ncn = self.next_children[node];
            self.next_children.set(qq, ncn);
            self.parents.set(ncn, qq);
            q = qq;
        }
        let pn = self.parents[node];
        self.parents.set(q, pn);
        if self.next_children[pn] == node {
            self.next_children.set(pn, q);
        } else {
            self.previous_children.set(pn, q);
        }
        self.parents.set(node, NIL);
    }
}

/// A prefix of an overlapping copy, continued from the history it has
/// already produced: the next byte of the copy is the byte `dist` places
/// back once the prefix is appended.
pub proof fn lemma_copy_from_take(hist: Seq<u8>, dist: int, l: nat, k: int)
    requires
        0 <= k < l,
        1 <= dist <= hist.len(),
    ensures
        copy_from(hist, dist, l)[k] == (hist + copy_from(hist, dist, l).take(k))[(hist
            + copy_from(hist, dist, l).take(k)).len() - dist],
        copy_from(hist, dist, l).take(k + 1) == copy_from(hist, dist, l).take(k).push(
            copy_from(hist, dist, l)[k],
        ),
    decreases k,
{
    lemma_copy_from_len(hist, dist, l);
    let cp = copy_from(hist, dist, l);
    if k == 0 {
        assert(cp[0] == hist[hist.len() - dist]);
        assert(cp.take(0) =~= Seq::<u8>::empty());
        assert(hist + cp.take(0) =~= hist);
        assert(cp.take(1) =~= cp.take(0).push(cp[0]));
    } else {
        let c = hist[hist.len() - dist];
        let cp1 = copy_from(hist.push(c), dist, (l - 1) as nat);
        lemma_copy_from_len(hist.push(c), dist, (l - 1) as nat);
        lemma_copy_from_take(hist.push(c), dist, (l - 1) as nat, k - 1);
        assert(cp[k] == cp1[k - 1]);
        assert(cp.take(k) =~= seq![c] + cp1.take(k - 1));
        assert(cp.take(k + 1) =~= seq![c] + cp1.take(k));
        assert(hist + cp.take(k) =~= hist.push(c) + cp1.take(k - 1));
        assert(cp.take(k + 1) =~= cp.take(k).push(cp[k]));
    }
}

/// One emitted code: a literal byte, or a back-reference of distance `d`
/// and length `l`.
pub ghost enum Code {
    Lit { c: u8 },
    Ref { d: int, l: int },
}

/// A code is sound against a history: a back-reference stays inside the
/// window and within the encodable lengths.
pub open spec fn code_ok(cd: Code) -> bool {
    match cd {
        Code::Lit { c: _ } => true,
        Code::Ref { d, l } => 1 <= d <= WINDOW - MAX_MATCH && THRESHOLD + 1 <= l <= MAX_MATCH,
    }
}

/// What a list of codes produces, played from a history.
pub open spec fn play(evs: Seq<Code>, hist: Seq<u8>) -> Seq<u8>
    decreases evs.len(),
{
    if evs.len() == 0 {
        Seq::empty()
    } else {
        match evs[0] {
            Code::Lit { c } => seq![c] + play(evs.skip(1), hist.push(c)),
            Code::Ref { d, l } => {
                let cp = copy_from(hist, d, l as nat);
                cp + play(evs.skip(1), hist + cp)
            },
        }
    }
}

/// How many bytes a list of codes produces.
pub open spec fn play_len(evs: Seq<Code>) -> int
    decreases evs.len(),
{
    if evs.len() == 0 {
        0
    } else {
        (match evs[0] {
            Code::Lit { c: _ } => 1int,
            Code::Ref { d: _, l } => l,
        }) + play_len(evs.skip(1))
    }
}

/// The wire bytes of a list of codes, control byte not included.
pub open spec fn bytes_of(evs: Seq<Code>) -> Seq<u8>
    decreases evs.len(),
{
    if evs.len() == 0 {
        Seq::empty()
    } else {
        (match evs[0] {
            Code::Lit { c } => seq![c],
            Code::Ref { d, l } => seq![(d % 256) as u8, ((d / 256) * 16 + (l - 3)) as u8],
        }) + bytes_of(evs.skip(1))
    }
}

/// The control byte of a list of codes: bit `i`, least significant first,
/// set when code `i` is a literal.
pub open spec fn bits_val(evs: Seq<Code>) -> int
    decreases evs.len(),
{
    if evs.len() == 0 {
        0
    } else {
        (match evs[0] {
            Code::Lit { c: _ } => 1int,
            Code::Ref { d: _, l: _ } => 0int,
        }) + 2 * bits_val(evs.skip(1))
    }
}

/// Every code of the list is sound.
pub open spec fn evs_ok(evs: Seq<Code>) -> bool {
    forall|i: int| 0 <= i < evs.len() ==> code_ok(#[trigger] evs[i])
}

/// Two to a small power.
pub open spec fn pow2_of(k: int) -> int
    decreases k,
{
    if k <= 0 {
        1
    } else {
        2 * pow2_of(k - 1)
    }
}

/// The control value is non-negative and below two to the number of codes.
proof fn lemma_bits_val_pow(evs: Seq<Code>)
    ensures
        0 <= bits_val(evs) < pow2_of(evs.len() as int),
    decreases evs.len(),
{
    if evs.len() > 0 {
        lemma_bits_val_pow(evs.skip(1));
        assert(pow2_of(evs.len() as int) == 2 * pow2_of(evs.len() - 1));
    }
}

/// The control value of up to eight codes fits one byte.
proof fn lemma_bits_val_bound(evs: Seq<Code>)
    requires
        evs.len() <= 8,
    ensures
        0 <= bits_val(evs) < 256,
{
    lemma_bits_val_pow(evs);
    assert(pow2_of(8) == 256) by {
        reveal_with_fuel(pow2_of, 10);
    }
    lemma_pow2_of_le(evs.len() as int, 8);
}

/// Two-to-the-power is monotone.
proof fn lemma_pow2_of_le(a: int, b: int)
    requires
        a <= b,
    ensures
        pow2_of(a) <= pow2_of(b),
    decreases b - a,
{
    if a < b && b > 0 {
        lemma_pow2_of_le(a, b - 1);
        assert(pow2_of(b) == 2 * pow2_of(b - 1));
        lemma_pow2_of_pos(b - 1);
    }
}

/// Two-to-the-power is positive.
proof fn lemma_pow2_of_pos(k: int)
    ensures
        pow2_of(k) >= 1,
    decreases (if k > 0 { k } else { 0 }),
{
    if k > 0 {
        lemma_pow2_of_pos(k - 1);
    }
}

/// What the codes of one chunk produce is what their wire bytes decode to:
/// decoding the code bytes under their control bits yields the played
/// bytes, and hands the rest of the stream on with the unused bits.
#[verifier::rlimit(100)]
proof fn lemma_chunk(evs: Seq<Code>, rest: Seq<u8>, hist: Seq<u8>, need: nat, m: int)
    requires
        evs_ok(evs),
        evs.len() <= m <= 8,
        need >= play_len(evs),
        hist.len() >= WINDOW,
    ensures
        play(evs, hist).len() == play_len(evs),
        dec(bytes_of(evs) + rest, hist, need, bits_val(evs), m) == (match dec(
            rest,
            hist + play(evs, hist),
            (need - play_len(evs)) as nat,
            0,
            m - evs.len(),
        ) {
            Ok(o) => Ok::<Seq<u8>, DecodeError>(play(evs, hist) + o),
            Err(e) => Err::<Seq<u8>, DecodeError>(e),
        }),
    decreases evs.len(),
{
    if evs.len() == 0 {
        assert(bytes_of(evs) + rest =~= rest);
        assert(hist + play(evs, hist) =~= hist);
        if dec(rest, hist, need, 0, m) is Ok {
            let o = dec(rest, hist, need, 0, m).unwrap();
            assert(play(evs, hist) + o =~= o);
        }
    } else {
        let tail = evs.skip(1);
        assert(code_ok(evs[0]));
        assert(evs_ok(tail)) by {
            assert(forall|i: int| 0 <= i < tail.len() ==> tail[i] == evs[i + 1]);
        }
        lemma_play_len_nonneg(tail);
        match evs[0] {
            Code::Lit { c } => {
                let s = bytes_of(evs) + rest;
                assert(s[0] == c);
                assert(s.skip(1) =~= bytes_of(tail) + rest);
                assert(bits_val(evs) % 2 == 1) by {
                    lemma_bits_val_pow(tail);
                }
                assert(bits_val(evs) / 2 == bits_val(tail)) by {
                    lemma_bits_val_pow(tail);
                }
                assert(need >= 1);
                lemma_chunk(tail, rest, hist.push(c), (need - 1) as nat, m - 1);
                let p1 = play(tail, hist.push(c));
                assert(play(evs, hist) == seq![c] + p1);
                if dec(rest, hist.push(c) + p1, (need - 1 - play_len(tail)) as nat, 0, m - 1
                    - tail.len()) is Ok {
                    let o = dec(
                        rest,
                        hist.push(c) + p1,
                        (need - 1 - play_len(tail)) as nat,
                        0,
                        m - 1 - tail.len(),
                    ).unwrap();
                    assert(seq![c] + (p1 + o) =~= (seq![c] + p1) + o);
                }
                assert(hist + (seq![c] + p1) =~= hist.push(c) + p1);
            },
            Code::Ref { d, l } => {
                let s = bytes_of(evs) + rest;
                let b0 = (d % 256) as u8;
                let b1 = ((d / 256) * 16 + (l - 3)) as u8;
                assert(s[0] == b0);
                assert(s[1] == b1);
                assert(s.skip(2) =~= bytes_of(tail) + rest);
                assert(bits_val(evs) % 2 == 0 && bits_val(evs) / 2 == bits_val(tail)) by {
                    lemma_bits_val_pow(tail);
                }
                // The two bytes decode back to the same distance and length.
                assert(0 <= d % 256 < 256);
                assert(0 <= d / 256 < 16);
                assert(0 <= (d / 256) * 16 + (l - 3) < 256);
                assert(b0 as int == d % 256);
                assert(b1 as int == (d / 256) * 16 + (l - 3));
                assert(b1 as int / 16 == d / 256 && b1 as int % 16 == l - 3) by (nonlinear_arith)
                    requires
                        b1 as int == (d / 256) * 16 + (l - 3),
                        0 <= l - 3 < 16,
                        0 <= d / 256 < 16,
                ;
                assert(b0 + 256 * (b1 / 16) == d);
                assert(d != 0);
                let cp = copy_from(hist, d, l as nat);
                lemma_copy_from_len(hist, d, l as nat);
                assert(l <= need);
                lemma_chunk(tail, rest, hist + cp, (need - l) as nat, m - 1);
                let p1 = play(tail, hist + cp);
                assert(play(evs, hist) == cp + p1);
                if dec(rest, (hist + cp) + p1, (need - l - play_len(tail)) as nat, 0, m - 1
                    - tail.len()) is Ok {
                    let o = dec(
                        rest,
                        (hist + cp) + p1,
                        (need - l - play_len(tail)) as nat,
                        0,
                        m - 1 - tail.len(),
                    ).unwrap();
                    assert(cp + (p1 + o) =~= (cp + p1) + o);
                }
                assert(hist + (cp + p1) =~= (hist + cp) + p1);
            },
        }
    }
}

/// A list of codes produces a non-negative number of bytes, at least one
/// per code.
proof fn lemma_play_len_nonneg(evs: Seq<Code>)
    requires
        evs_ok(evs),
    ensures
        play_len(evs) >= evs.len(),
    decreases evs.len(),
{
    if evs.len() > 0 {
        assert(code_ok(evs[0]));
        let tail = evs.skip(1);
        assert(evs_ok(tail)) by {
            assert(forall|i: int| 0 <= i < tail.len() ==> tail[i] == evs[i + 1]);
        }
        lemma_play_len_nonneg(tail);
    }
}

/// Appending a literal code at the tail of a chunk.
proof fn lemma_evs_push(evs: Seq<Code>, e: Code, hist: Seq<u8>)
    ensures
        play(evs.push(e), hist) == play(evs, hist) + (match e {
            Code::Lit { c } => seq![c],
            Code::Ref { d, l } => copy_from(hist + play(evs, hist), d, l as nat),
        }),
        play_len(evs.push(e)) == play_len(evs) + (match e {
            Code::Lit { c: _ } => 1int,
            Code::Ref { d: _, l } => l,
        }),
        bytes_of(evs.push(e)) == bytes_of(evs) + (match e {
            Code::Lit { c } => seq![c],
            Code::Ref { d, l } => seq![(d % 256) as u8, ((d / 256) * 16 + (l - 3)) as u8],
        }),
        bits_val(evs.push(e)) == bits_val(evs) + (match e {
            Code::Lit { c: _ } => pow2_of(evs.len() as int),
            Code::Ref { d: _, l: _ } => 0int,
        }),
    decreases evs.len(),
{
    let emp = Seq::<Code>::empty();
    let tail = evs.skip(1);
    if evs.len() == 0 {
        assert(evs.push(e)[0] == e);
        assert(evs.push(e).skip(1) =~= emp);
        assert(play(evs, hist) == Seq::<u8>::empty());
        assert(play_len(evs) == 0);
        assert(bytes_of(evs) == Seq::<u8>::empty());
        assert(bits_val(evs) == 0);
        match e {
            Code::Lit { c } => {
                assert(play(emp, hist.push(c)) == Seq::<u8>::empty());
                assert(play_len(emp) == 0);
                assert(bytes_of(emp) == Seq::<u8>::empty());
                assert(bits_val(emp) == 0);
                assert(play(evs.push(e), hist) =~= play(evs, hist) + seq![c]);
                assert(bytes_of(evs.push(e)) =~= bytes_of(evs) + seq![c]);
            },
            Code::Ref { d, l } => {
                let cp = copy_from(hist + play(evs, hist), d, l as nat);
                assert(hist + play(evs, hist) =~= hist);
                assert(play(emp, hist + copy_from(hist, d, l as nat)) == Seq::<u8>::empty());
                assert(play_len(emp) == 0);
                assert(bytes_of(emp) == Seq::<u8>::empty());
                assert(bits_val(emp) == 0);
                assert(play(evs.push(e), hist) =~= play(evs, hist) + cp);
                assert(bytes_of(evs.push(e)) =~= bytes_of(evs) + seq![
                    (d % 256) as u8,
                    ((d / 256) * 16 + (l - 3)) as u8,
                ]);
            },
        }
    } else {
        assert(evs.push(e)[0] == evs[0]);
        assert(evs.push(e).skip(1) =~= tail.push(e));
        assert(pow2_of(evs.push(e).len() - 1) == 2 * pow2_of(tail.len() as int));
        match evs[0] {
            Code::Lit { c: c0 } => {
                lemma_evs_push(tail, e, hist.push(c0));
                let p1 = play(tail, hist.push(c0));
                let b1 = bytes_of(tail);
                assert(play(evs, hist) == seq![c0] + p1);
                assert(bytes_of(evs) == seq![c0] + b1);
                match e {
                    Code::Lit { c } => {
                        assert(play(evs.push(e), hist) == seq![c0] + play(
                            tail.push(e),
                            hist.push(c0),
                        ));
                        assert(seq![c0] + (p1 + seq![c]) =~= (seq![c0] + p1) + seq![c]);
                        assert(seq![c0] + (b1 + seq![c]) =~= (seq![c0] + b1) + seq![c]);
                    },
                    Code::Ref { d, l } => {
                        let h2 = hist.push(c0) + p1;
                        assert(hist + play(evs, hist) =~= h2);
                        let cp = copy_from(h2, d, l as nat);
                        assert(play(evs.push(e), hist) == seq![c0] + play(
                            tail.push(e),
                            hist.push(c0),
                        ));
                        assert(seq![c0] + (p1 + cp) =~= (seq![c0] + p1) + cp);
                        let bs = seq![(d % 256) as u8, ((d / 256) * 16 + (l - 3)) as u8];
                        assert(seq![c0] + (b1 + bs) =~= (seq![c0] + b1) + bs);
                    },
                }
            },
            Code::Ref { d: d0, l: l0 } => {
                let cp0 = copy_from(hist, d0, l0 as nat);
                lemma_evs_push(tail, e, hist + cp0);
                let p1 = play(tail, hist + cp0);
                let b1 = bytes_of(tail);
                let bs0 = seq![(d0 % 256) as u8, ((d0 / 256) * 16 + (l0 - 3)) as u8];
                assert(play(evs, hist) == cp0 + p1);
                assert(bytes_of(evs) == bs0 + b1);
                match e {
                    Code::Lit { c } => {
                        assert(play(evs.push(e), hist) == cp0 + play(tail.push(e), hist + cp0));
                        assert(cp0 + (p1 + seq![c]) =~= (cp0 + p1) + seq![c]);
                        assert(bs0 + (b1 + seq![c]) =~= (bs0 + b1) + seq![c]);
                    },
                    Code::Ref { d, l } => {
                        let h2 = (hist + cp0) + p1;
                        assert(hist + play(evs, hist) =~= h2);
                        let cp = copy_from(h2, d, l as nat);
                        assert(play(evs.push(e), hist) == cp0 + play(tail.push(e), hist + cp0));
                        assert(cp0 + (p1 + cp) =~= (cp0 + p1) + cp);
                        let bs = seq![(d % 256) as u8, ((d / 256) * 16 + (l - 3)) as u8];
                        assert(bs0 + (b1 + bs) =~= (bs0 + b1) + bs);
                    },
                }
            },
        }
    }
}

/// A verified overlapping copy: when every byte of the target is the byte
/// `dist` earlier — in the history for the first `dist` positions, in the
/// target itself after that — the copy reproduces the target.
proof fn lemma_copy_check(hist: Seq<u8>, d: int, l: nat, target: Seq<u8>)
    requires
        1 <= d <= hist.len(),
        target.len() == l,
        forall|k: int|
            0 <= k < l ==> #[trigger] target[k] == (if k < d {
                hist[hist.len() - d + k]
            } else {
                target[k - d]
            }),
    ensures
        copy_from(hist, d, l) == target,
{
    lemma_copy_from_len(hist, d, l);
    let cp = copy_from(hist, d, l);
    assert forall|k: int| 0 <= k < l implies cp[k] == target[k] by {
        lemma_copy_check_at(hist, d, l, target, k);
    }
    assert(cp =~= target);
}

/// Pointwise version of the copy argument, by strong induction on the
/// position.
proof fn lemma_copy_check_at(hist: Seq<u8>, d: int, l: nat, target: Seq<u8>, k: int)
    requires
        1 <= d <= hist.len(),
        target.len() == l,
        0 <= k < l,
        forall|j: int|
            0 <= j < l ==> #[trigger] target[j] == (if j < d {
                hist[hist.len() - d + j]
            } else {
                target[j - d]
            }),
    ensures
        copy_from(hist, d, l)[k] == target[k],
    decreases k,
{
    lemma_copy_from_len(hist, d, l);
    let cp = copy_from(hist, d, l);
    lemma_copy_from_take(hist, d, l, k);
    let h = hist + cp.take(k);
    if k < d {
        assert(cp[k] == h[h.len() - d]);
        assert(h[h.len() - d] == hist[hist.len() - d + k]);
    } else {
        assert(cp[k] == h[h.len() - d]);
        assert(h[h.len() - d] == cp.take(k)[k - d]);
        assert(cp.take(k)[k - d] == cp[k - d]);
        lemma_copy_check_at(hist, d, l, target, k - d);
    }
}

/// The byte at a given back distance of the full history: an input byte
/// once enough has been consumed, the fill byte before that.
pub open spec fn hist_at(input: Seq<u8>, pos: int, dist: int) -> u8 {
    if dist <= pos {
        input[pos - dist]
    } else {
        FILL
    }
}

/// A buffer slot by ring position.
pub open spec fn slot_of(x: int) -> int {
    if x < WINDOW {
        x
    } else {
        x - WINDOW
    }
}

/// The encoder window invariant over the match-finder buffer: the ring
/// holds the last `WINDOW - MAX_MATCH` bytes of the history behind the
/// cursor, the look-ahead sits at the cursor, the first bytes are
/// duplicated past the window, and the load cursor trails the ring cursor
/// by the window size.
pub open spec fn win_inv(
    buffer: Seq<u8>,
    r: int,
    s: int,
    input: Seq<u8>,
    pos: int,
    len: int,
) -> bool {
    &&& buffer.len() == WINDOW + MAX_MATCH - 1
    &&& 0 <= r < WINDOW
    &&& 0 <= s < WINDOW
    &&& s == (if r + MAX_MATCH < WINDOW {
        r + MAX_MATCH
    } else {
        r + MAX_MATCH - WINDOW
    })
    &&& 0 <= pos
    &&& pos + len <= input.len()
    &&& 0 <= len <= MAX_MATCH
    &&& len == (if input.len() - pos < MAX_MATCH {
        input.len() - pos
    } else {
        MAX_MATCH as int
    })
    &&& forall|dist: int|
        1 <= dist <= WINDOW - MAX_MATCH ==> buffer[#[trigger] ring_index(r, dist)] == hist_at(
            input,
            pos,
            dist,
        )
    &&& forall|t: int| 0 <= t < len ==> buffer[#[trigger] slot_of(r + t)] == input[pos + t]
    &&& forall|x: int| 0 <= x < MAX_MATCH - 1 ==> buffer[WINDOW + x] == #[trigger] buffer[x]
}

/// Step a ring cursor.
fn ring_next(x: usize) -> (r: usize)
    requires
        x < WINDOW,
    ensures
        r == (if x + 1 < WINDOW {
            x + 1
        } else {
            0int
        }),
        r < WINDOW,
{
    if x + 1 == WINDOW {
        0
    } else {
        x + 1
    }
}

/// Slide the window by one byte while more input is waiting: retire the
/// oldest tree node, load the next input byte at the tail of the
/// look-ahead, and advance both cursors.
#[verifier::rlimit(60)]
fn slide_load(
    ctx: &mut Context,
    r: &mut usize,
    s: &mut usize,
    c: u8,
    Ghost(input): Ghost<Seq<u8>>,
    Ghost(pos): Ghost<int>,
)
    requires
        old(ctx).wf(),
        win_inv(old(ctx).buffer@, *old(r) as int, *old(s) as int, input, pos, MAX_MATCH as int),
        pos + MAX_MATCH < input.len(),
        c == input[pos + MAX_MATCH],
    ensures
        final(ctx).wf(),
        *final(r) < WINDOW,
        *final(s) < WINDOW,
        *final(r) as int == (if *old(r) + 1 < WINDOW {
            *old(r) + 1
        } else {
            0int
        }),
        win_inv(
            final(ctx).buffer@,
            *final(r) as int,
            *final(s) as int,
            input,
            pos + 1,
            (if input.len() - pos - 1 < MAX_MATCH {
                input.len() - pos - 1
            } else {
                MAX_MATCH as int
            }),
        ),
{
    let ghost buf0 = ctx.buffer@;
    let ghost r0 = *r as int;
    let ghost s0 = *s as int;
    ctx.delete_node(*s);
    let si = *s;
    ctx.buffer.set(si, c);
    if si < MAX_MATCH - 1 {
        ctx.buffer.set(WINDOW + si, c);
    }
    *s = ring_next(*s);
    *r = ring_next(*r);
    proof {
        let buf = ctx.buffer@;
        let r1 = *r as int;
        let newlen: int = if input.len() - pos - 1 < MAX_MATCH {
            input.len() - pos - 1
        } else {
            MAX_MATCH as int
        };
        assert(newlen == MAX_MATCH);
        // The load slot is the slot just past the look-ahead.
        assert(s0 == slot_of(r0 + MAX_MATCH));
        assert forall|dist: int| 1 <= dist <= WINDOW - MAX_MATCH implies buf[ring_index(r1, dist)]
            == hist_at(input, pos + 1, dist) by {
            if dist == 1 {
                assert(ring_index(r1, 1) == r0);
                assert(r0 != s0 && r0 != WINDOW + s0);
                assert(buf[r0] == buf0[r0]);
                assert(buf0[slot_of(r0 + 0)] == input[pos]);
            } else {
                assert(ring_index(r1, dist) == ring_index(r0, dist - 1));
                assert(ring_index(r0, dist - 1) != s0) by {
                    assert(1 <= dist - 1 <= WINDOW - MAX_MATCH - 1);
                }
                assert(ring_index(r0, dist - 1) < WINDOW);
                assert(buf[ring_index(r0, dist - 1)] == buf0[ring_index(r0, dist - 1)]);
            }
        }
        assert forall|t: int| 0 <= t < newlen implies buf[#[trigger] slot_of(r1 + t)] == input[pos + 1 + t] by {
            if t == MAX_MATCH - 1 {
                assert(slot_of(r1 + t) == s0);
                assert(buf[s0] == c);
            } else {
                assert(slot_of(r1 + t) == slot_of(r0 + (t + 1)));
                assert(slot_of(r0 + t + 1) != s0) by {
                    assert(1 <= t + 1 <= MAX_MATCH - 1);
                }
                assert(buf[slot_of(r0 + t + 1)] == buf0[slot_of(r0 + t + 1)]);
            }
        }
        assert forall|x: int| 0 <= x < MAX_MATCH - 1 implies buf[WINDOW + x] == #[trigger] buf[x] by {
            if x == s0 {
                assert(buf[WINDOW + s0] == c && buf[s0] == c);
            } else {
                assert(buf[WINDOW + x] == buf0[WINDOW + x]);
                assert(buf[x] == buf0[x]);
            }
        }
    }
}

/// Slide the window by one byte after the input has run dry: retire the
/// oldest tree node and advance both cursors; the look-ahead shrinks.
#[verifier::rlimit(60)]
fn slide_drop(
    ctx: &mut Context,
    r: &mut usize,
    s: &mut usize,
    Ghost(input): Ghost<Seq<u8>>,
    Ghost(pos): Ghost<int>,
    Ghost(len): Ghost<int>,
)
    requires
        old(ctx).wf(),
        win_inv(old(ctx).buffer@, *old(r) as int, *old(s) as int, input, pos, len),
        pos + len == input.len(),
        len >= 1,
    ensures
        final(ctx).wf(),
        final(ctx).buffer@ == old(ctx).buffer@,
        *final(r) < WINDOW,
        *final(s) < WINDOW,
        *final(r) as int == (if *old(r) + 1 < WINDOW {
            *old(r) + 1
        } else {
            0int
        }),
        win_inv(final(ctx).buffer@, *final(r) as int, *final(s) as int, input, pos + 1, len - 1),
{
    let ghost buf0 = ctx.buffer@;
    let ghost r0 = *r as int;
    ctx.delete_node(*s);
    *s = ring_next(*s);
    *r = ring_next(*r);
    proof {
        let buf = ctx.buffer@;
        let r1 = *r as int;
        assert forall|dist: int| 1 <= dist <= WINDOW - MAX_MATCH implies buf[ring_index(r1, dist)]
            == hist_at(input, pos + 1, dist) by {
            if dist == 1 {
                assert(ring_index(r1, 1) == r0);
                assert(buf0[slot_of(r0 + 0)] == input[pos]);
            } else {
                assert(ring_index(r1, dist) == ring_index(r0, dist - 1));
            }
        }
        assert forall|t: int| 0 <= t < len - 1 implies buf[#[trigger] slot_of(r1 + t)] == input[pos
            + 1 + t] by {
            assert(slot_of(r1 + t) == slot_of(r0 + (t + 1)));
        }
    }
}

/// A whole chunk with its control byte: decoding it from a fresh control
/// state produces the played bytes and hands the stream on.
proof fn lemma_chunk_full(evs: Seq<Code>, rest: Seq<u8>, hist: Seq<u8>, need: nat)
    requires
        evs_ok(evs),
        1 <= evs.len() <= 8,
        need >= play_len(evs),
        hist.len() >= WINDOW,
    ensures
        play(evs, hist).len() == play_len(evs),
        dec(seq![bits_val(evs) as u8] + bytes_of(evs) + rest, hist, need, 0, 0) == (match dec(
            rest,
            hist + play(evs, hist),
            (need - play_len(evs)) as nat,
            0,
            8 - evs.len(),
        ) {
            Ok(o) => Ok::<Seq<u8>, DecodeError>(play(evs, hist) + o),
            Err(e) => Err::<Seq<u8>, DecodeError>(e),
        }),
{
    lemma_bits_val_bound(evs);
    lemma_play_len_nonneg(evs);
    let s = seq![bits_val(evs) as u8] + bytes_of(evs) + rest;
    assert(need > 0);
    assert(s[0] == bits_val(evs) as u8);
    assert(s.skip(1) =~= bytes_of(evs) + rest);
    lemma_chunk(evs, rest, hist, need, 8);
}

/// A single set control bit by position.
fn pow2_bit(k: usize) -> (r: u8)
    requires
        k < 8,
    ensures
        r as int == pow2_of(k as int),
{
    let v: u8 = if k == 0 {
        1
    } else if k == 1 {
        2
    } else if k == 2 {
        4
    } else if k == 3 {
        8
    } else if k == 4 {
        16
    } else if k == 5 {
        32
    } else if k == 6 {
        64
    } else {
        128
    };
    proof {
        reveal_with_fuel(pow2_of, 10);
    }
    v
}

/// Compress `input`.
///
/// The output decodes back to the input exactly, and literal-heavy worst
/// cases cannot blow it up: at most one extra byte per eight input bytes,
/// plus one.
#[verifier::rlimit(100)]
pub fn encode(input: &[u8]) -> (out: Vec<u8>)
    ensures
        decode_spec(out@, input@.len() as nat) == Ok::<Seq<u8>, DecodeError>(input@),
        out@.len() <= input@.len() + (input@.len() + 7) / 8 + 1,
        input@.len() == 0 ==> out@.len() == 0,
{
    let nt = input.len();
    let mut out: Vec<u8> = Vec::new();
    let ghost h0 = fill_hist();
    let mut ctx = Context::new();
    // Load the look-ahead.
    let mut len: usize = 0;
    while len < MAX_MATCH && len < nt
        invariant
            ctx.wf(),
            len <= MAX_MATCH,
            len <= nt,
            nt == input@.len(),
            len < MAX_MATCH ==> len <= nt,
            forall|t: int|
                0 <= t < len ==> ctx.buffer@[WINDOW - MAX_MATCH + t] == input@[t],
            forall|x: int|
                0 <= x < ctx.buffer@.len() && !(WINDOW - MAX_MATCH <= x < WINDOW - MAX_MATCH
                    + len) ==> ctx.buffer@[x] == FILL,
        decreases MAX_MATCH - len,
    {
        ctx.buffer.set(WINDOW - MAX_MATCH + len, input[len]);
        len = len + 1;
    }
    let mut r: usize = WINDOW - MAX_MATCH;
    let mut s: usize = 0;
    let mut idx: usize = len;
    let ghost mut pos: int = 0;
    let ghost mut nchunks: int = 0;
    proof {
        assert(win_inv(ctx.buffer@, r as int, s as int, input@, 0, len as int)) by {
            assert forall|dist: int| 1 <= dist <= WINDOW - MAX_MATCH implies ctx.buffer@[
                #[trigger] ring_index(r as int, dist)] == hist_at(input@, 0, dist) by {
                assert(ring_index(r as int, dist) == r - dist);
            }
            assert forall|t: int| 0 <= t < len implies ctx.buffer@[#[trigger] slot_of(r + t)]
                == input@[t] by {
                assert(slot_of(r + t) == r + t);
            }
        }
        assert(input@.take(0) =~= Seq::<u8>::empty());
        assert forall|rest: Seq<u8>| #[trigger] dec(out@ + rest, h0, nt as nat, 0, 0) == (match dec(
            rest,
            h0 + input@.take(pos),
            (nt - pos) as nat,
            0,
            0,
        ) {
            Ok(o) => Ok::<Seq<u8>, DecodeError>(input@.take(pos) + o),
            Err(e) => Err::<Seq<u8>, DecodeError>(e),
        }) by {
            assert(out@ + rest =~= rest);
            assert(h0 + input@.take(0) =~= h0);
            if dec(rest, h0, nt as nat, 0, 0) is Ok {
                let o = dec(rest, h0, nt as nat, 0, 0).unwrap();
                assert(input@.take(0) + o =~= o);
            }
        }
    }
    // Seed the tree around the cursor, as many nodes as one match length.
    let mut ins: usize = 1;
    while ins <= MAX_MATCH
        invariant
            ctx.wf(),
            1 <= ins,
            win_inv(ctx.buffer@, r as int, s as int, input@, 0, len as int),
            r == WINDOW - MAX_MATCH,
        decreases MAX_MATCH + 1 - ins,
    {
        if ins <= WINDOW - MAX_MATCH {
            ctx.insert_node(WINDOW - MAX_MATCH - ins);
        }
        ins = ins + 1;
    }
    ctx.insert_node(r);
    // Encode, one chunk of up to eight codes at a time.
    while len > 0
        invariant
            ctx.wf(),
            nt == input@.len(),
            win_inv(ctx.buffer@, r as int, s as int, input@, pos, len as int),
            idx == pos + len,
            0 <= pos <= nt,
            h0 == fill_hist(),
            forall|rest: Seq<u8>| #[trigger] dec(out@ + rest, h0, nt as nat, 0, 0) == (match dec(
                rest,
                h0 + input@.take(pos),
                (nt - pos) as nat,
                0,
                0,
            ) {
                Ok(o) => Ok::<Seq<u8>, DecodeError>(input@.take(pos) + o),
                Err(e) => Err::<Seq<u8>, DecodeError>(e),
            }),
            out@.len() <= pos + nchunks,
            0 <= nchunks <= pos,
            8 * nchunks <= pos || (pos == nt && nchunks >= 1 && 8 * (nchunks - 1) <= pos),
        decreases nt - pos,
    {
        let ghost pos_cs = pos;
        let ghost hist_cs = h0 + input@.take(pos);
        let mut code0: u8 = 0;
        let mut codebytes: Vec<u8> = Vec::new();
        let mut k: usize = 0;
        let ghost mut evs: Seq<Code> = Seq::empty();
        proof {
            assert(input@.subrange(pos_cs, pos) =~= Seq::<u8>::empty());
            assert(play(evs, hist_cs) == Seq::<u8>::empty());
            assert(play_len(evs) == 0);
            assert(bytes_of(evs) == Seq::<u8>::empty());
            assert(bits_val(evs) == 0);
            assert(codebytes@ =~= bytes_of(evs));
        }
        while len > 0 && k < 8
            invariant
                ctx.wf(),
                nt == input@.len(),
                win_inv(ctx.buffer@, r as int, s as int, input@, pos, len as int),
                idx == pos + len,
                0 <= pos_cs <= pos <= nt,
                h0 == fill_hist(),
                hist_cs == h0 + input@.take(pos_cs),
                k <= 8,
                evs.len() == k,
                evs_ok(evs),
                play(evs, hist_cs) == input@.subrange(pos_cs, pos),
                play_len(evs) == pos - pos_cs,
                codebytes@ == bytes_of(evs),
                code0 as int == bits_val(evs),
                codebytes@.len() <= pos - pos_cs,
                pos - pos_cs >= k,
            decreases 8 - k,
        {
            let ghost pos_e = pos;
            let ghost hist_now = h0 + input@.take(pos);
            // The candidate match left by the last tree insert, clipped to
            // the look-ahead and verified byte-for-byte before use.
            let mut ml: usize = ctx.match_length;
            let p: usize = ctx.match_position;
            if ml > len {
                ml = len;
            }
            let mut use_ref = false;
            let mut d: usize = 0;
            if ml >= THRESHOLD + 1 && p < WINDOW {
                d = if r > p {
                    r - p
                } else {
                    r + WINDOW - p
                };
                if 1 <= d && d <= WINDOW - MAX_MATCH {
                    let mut okm = true;
                    let mut kk: usize = 0;
                    while kk < ml && okm
                        invariant
                            ctx.wf(),
                            kk <= ml,
                            ml <= MAX_MATCH,
                            p < WINDOW,
                            r < WINDOW,
                            ctx.buffer@.len() == WINDOW + MAX_MATCH - 1,
                            okm ==> forall|j: int|
                                0 <= j < kk ==> #[trigger] ctx.buffer@[p + j] == ctx.buffer@[r
                                    + j],
                        decreases ml - kk, (if okm { 1int } else { 0int }),
                    {
                        if ctx.buffer[p + kk] != ctx.buffer[r + kk] {
                            okm = false;
                        } else {
                            kk = kk + 1;
                        }
                    }
                    use_ref = okm && kk == ml;
                }
            }
            let ghost ev: Code;
            let emitted: usize;
            if use_ref {
                proof {
                    // Translate the byte check into the history terms the
                    // copy lemma wants.
                    let buf = ctx.buffer@;
                    let target = input@.subrange(pos, pos + ml);
                    assert forall|q: int| 0 <= q < ml implies #[trigger] target[q] == (if q < d {
                        hist_now[hist_now.len() - d + q]
                    } else {
                        target[q - d]
                    }) by {
                        assert(buf[p + q] == buf[r + q]);
                        // Linear reads equal slot reads through the
                        // duplicated tail.
                        assert(buf[r + q] == buf[slot_of(r + q)]) by {
                            if r + q >= WINDOW {
                                assert(buf[WINDOW + (r + q - WINDOW)] == buf[r + q - WINDOW]);
                            }
                        }
                        assert(buf[p + q] == buf[slot_of(p + q)]) by {
                            if p + q >= WINDOW {
                                assert(buf[WINDOW + (p + q - WINDOW)] == buf[p + q - WINDOW]);
                            }
                        }
                        assert(buf[slot_of(r + q)] == input@[pos + q]);
                        if q < d {
                            assert(slot_of(p + q) == ring_index(r as int, d - q));
                            assert(buf[ring_index(r as int, d - q)] == hist_at(
                                input@,
                                pos,
                                d - q,
                            ));
                            assert(hist_now.len() == WINDOW + pos);
                            if d - q <= pos {
                                assert(hist_now[WINDOW + pos - (d - q)] == input@[pos - (d - q)]);
                            } else {
                                assert(hist_now[WINDOW + pos - (d - q)] == h0[WINDOW + pos - (d
                                    - q)]);
                            }
                        } else {
                            assert(slot_of(p + q) == slot_of(r + (q - d)));
                            assert(buf[slot_of(r + (q - d))] == input@[pos + q - d]);
                            assert(target[q - d] == input@[pos + q - d]);
                        }
                    }
                    lemma_copy_check(hist_now, d as int, ml as nat, target);
                }
                codebytes.push((d % 256) as u8);
                codebytes.push(((d / 256) * 16 + (ml - 3)) as u8);
                proof {
                    ev = Code::Ref { d: d as int, l: ml as int };
                }
                emitted = ml;
            } else {
                ml = 1;
                let c = ctx.buffer[r];
                proof {
                    assert(ctx.buffer@[slot_of(r as int + 0)] == input@[pos + 0]);
                    assert(slot_of(r as int + 0) == r as int);
                }
                let bit = pow2_bit(k);
                proof {
                    lemma_bits_val_pow(evs);
                    lemma_pow2_of_le(k as int + 1, 8);
                    assert(pow2_of(8) == 256) by {
                        reveal_with_fuel(pow2_of, 10);
                    }
                    assert(pow2_of(k as int + 1) == 2 * pow2_of(k as int));
                }
                code0 = code0 + bit;
                codebytes.push(c);
                proof {
                    ev = Code::Lit { c };
                }
                emitted = 1;
            }
            let ghost evs0 = evs;
            proof {
                evs = evs0.push(ev);
                lemma_evs_push(evs0, ev, hist_cs);
                assert(hist_cs + play(evs0, hist_cs) =~= hist_now);
                match ev {
                    Code::Lit { c } => {
                        assert(play(evs, hist_cs) =~= input@.subrange(pos_cs, pos + 1)) by {
                            assert(input@.subrange(pos_cs, pos) + seq![input@[pos as int]]
                                =~= input@.subrange(pos_cs, pos + 1));
                        }
                        assert(codebytes@ =~= bytes_of(evs));
                    },
                    Code::Ref { d: dd, l: ll } => {
                        assert(copy_from(hist_now, dd, ll as nat) == input@.subrange(
                            pos,
                            pos + ll,
                        ));
                        assert(play(evs, hist_cs) =~= input@.subrange(pos_cs, pos + ll)) by {
                            assert(input@.subrange(pos_cs, pos) + input@.subrange(pos, pos + ll)
                                =~= input@.subrange(pos_cs, pos + ll));
                        }
                        assert(codebytes@ =~= bytes_of(evs));
                    },
                }
                assert(evs_ok(evs)) by {
                    assert(forall|i: int| 0 <= i < evs0.len() ==> evs[i] == evs0[i]);
                    assert(evs[evs.len() - 1] == ev);
                    assert(code_ok(ev));
                }
            }
            k = k + 1;
            // Slide the window past what was just encoded.
            let mut j: usize = 0;
            while j < emitted
                invariant
                    ctx.wf(),
                    nt == input@.len(),
                    win_inv(ctx.buffer@, r as int, s as int, input@, pos, len as int),
                    idx == pos + len,
                    j <= emitted,
                    pos + (emitted - j) <= nt,
                    pos == pos_e + j,
                    emitted <= MAX_MATCH,
                decreases emitted - j,
            {
                if idx < nt {
                    proof {
                        assert(len == MAX_MATCH);
                    }
                    let c = input[idx];
                    slide_load(&mut ctx, &mut r, &mut s, c, Ghost(input@), Ghost(pos));
                    idx = idx + 1;
                    proof {
                        pos = pos + 1;
                    }
                    ctx.insert_node(r);
                } else {
                    slide_drop(&mut ctx, &mut r, &mut s, Ghost(input@), Ghost(pos), Ghost(len as int));
                    len = len - 1;
                    proof {
                        pos = pos + 1;
                    }
                    if len != 0 {
                        ctx.insert_node(r);
                    }
                }
                j = j + 1;
            }
        }
        // Flush the chunk: its control byte, then its code bytes.
        let ghost out0 = out@;
        let ghost chunk = seq![code0] + bytes_of(evs);
        let cb_len = codebytes.len();
        out.push(code0);
        out.append(&mut codebytes);
        proof {
            nchunks = nchunks + 1;
            assert(out@ =~= out0 + chunk);
            lemma_play_len_nonneg(evs);
            assert(1 <= evs.len() <= 8);
            assert(code0 as int == bits_val(evs));
            let needc = (nt - pos_cs) as nat;
            assert forall|rest: Seq<u8>| #[trigger] dec(out@ + rest, h0, nt as nat, 0, 0)
                == (match dec(rest, h0 + input@.take(pos), (nt - pos) as nat, 0, 0) {
                Ok(o) => Ok::<Seq<u8>, DecodeError>(input@.take(pos) + o),
                Err(e) => Err::<Seq<u8>, DecodeError>(e),
            }) by {
                assert(out@ + rest =~= out0 + (chunk + rest));
                assert(dec(out0 + (chunk + rest), h0, nt as nat, 0, 0) == (match dec(
                    chunk + rest,
                    hist_cs,
                    needc,
                    0,
                    0,
                ) {
                    Ok(o) => Ok::<Seq<u8>, DecodeError>(input@.take(pos_cs) + o),
                    Err(e) => Err::<Seq<u8>, DecodeError>(e),
                }));
                lemma_chunk_full(evs, rest, hist_cs, needc);
                assert(chunk + rest =~= seq![bits_val(evs) as u8] + bytes_of(evs) + rest);
                let ply = play(evs, hist_cs);
                assert(hist_cs + ply =~= h0 + input@.take(pos)) by {
                    assert(input@.take(pos_cs) + input@.subrange(pos_cs, pos) =~= input@.take(
                        pos,
                    ));
                    assert((h0 + input@.take(pos_cs)) + input@.subrange(pos_cs, pos) =~= h0
                        + input@.take(pos));
                }
                if k == 8 {
                    if dec(rest, h0 + input@.take(pos), (nt - pos) as nat, 0, 0) is Ok {
                        let o = dec(
                            rest,
                            h0 + input@.take(pos),
                            (nt - pos) as nat,
                            0,
                            0,
                        ).unwrap();
                        assert(input@.take(pos_cs) + (ply + o) =~= input@.take(pos) + o) by {
                            assert(input@.take(pos_cs) + ply =~= input@.take(pos));
                        }
                    }
                } else {
                    assert(len == 0);
                    assert(pos == nt);
                    assert(dec(rest, hist_cs + ply, 0, 0, 8 - evs.len()) == Ok::<
                        Seq<u8>,
                        DecodeError,
                    >(Seq::empty()));
                    assert(dec(rest, h0 + input@.take(pos), 0, 0, 0) == Ok::<
                        Seq<u8>,
                        DecodeError,
                    >(Seq::empty()));
                    assert(input@.take(pos_cs) + (ply + Seq::<u8>::empty()) =~= input@.take(pos)
                        + Seq::<u8>::empty()) by {
                        assert(input@.take(pos_cs) + ply =~= input@.take(pos));
                    }
                }
            }
            // Size ledger: one control byte per chunk, and never more code
            // bytes than input bytes covered.
            assert(out@.len() == out0.len() + 1 + cb_len);
            assert(cb_len <= pos - pos_cs);
            if 8 * (nchunks - 1) <= pos_cs {
                if k == 8 {
                    assert(pos - pos_cs >= 8);
                    assert(8 * nchunks <= pos);
                } else {
                    assert(pos == nt);
                    assert(pos - pos_cs >= 1);
                    assert(8 * (nchunks - 1) <= pos);
                }
            } else {
                assert(pos_cs == nt);
                assert(pos == nt);
                assert(pos - pos_cs >= 1);
                assert(false);
            }
        }
    }
    proof {
        assert(pos == nt);
        assert(out@ + Seq::<u8>::empty() =~= out@);
        assert(dec(out@, h0, nt as nat, 0, 0) == (match dec(
            Seq::<u8>::empty(),
            h0 + input@.take(pos),
            0,
            0,
            0,
        ) {
            Ok(o) => Ok::<Seq<u8>, DecodeError>(input@.take(pos) + o),
            Err(e) => Err::<Seq<u8>, DecodeError>(e),
        }));
        assert(dec(Seq::<u8>::empty(), h0 + input@.take(pos), 0, 0, 0) == Ok::<
            Seq<u8>,
            DecodeError,
        >(Seq::empty()));
        assert(input@.take(nt as int) =~= input@);
        assert(input@ + Seq::<u8>::empty() =~= input@);
        // The ledger gives the advertised bound.
        assert(out@.len() <= nt + nchunks);
        if nchunks >= 1 {
            assert(8 * (nchunks - 1) <= nt);
        }
    }
    out
}

} // verus!
