//! In-memory byte cursors: the substrate the lexers and readers are built
//! on. `Lexer` is a plain cursor over owned bytes; `BufferedReader` adds
//! the one-byte pushback the preprocessor needs; the `Analyser` traits
//! name the cursor operations that tokenizers program against.

use vstd::prelude::*;

verus! {

/// What a predicate tells a scanning loop to do with the byte it was
/// handed.
pub enum PredicateOption<E> {
    Skip,
    Continue,
    Exit,
    Fault(E),
}

/// A cursor over owned bytes, with an optional write permission.
pub struct Lexer {
    pub mutable: bool,
    pub cursor: usize,
    pub contents: Vec<u8>,
}

/// The read side of a cursor: a byte sequence and a position in it.
pub trait Analyser: Sized {
    /// The bytes under the cursor.
    spec fn sview(&self) -> Seq<u8>;

    /// The cursor's position.
    spec fn spos(&self) -> int;

    /// The position, which never runs past the end.
    fn pos(&self) -> (r: usize)
        requires
            0 <= self.spos() <= self.sview().len(),
        ensures
            r == self.spos(),
    ;

    /// How many bytes the cursor ranges over.
    fn len(&self) -> (r: usize)
        ensures
            r == self.sview().len(),
    ;

    /// Move the cursor.
    fn set_cursor(&mut self, cursor: usize)
        requires
            cursor <= old(self).sview().len(),
        ensures
            final(self).sview() == old(self).sview(),
            final(self).spos() == cursor,
    ;

    /// The byte under the cursor, without moving.
    fn peek(&self) -> (r: Option<u8>)
        requires
            0 <= self.spos() <= self.sview().len(),
        ensures
            self.spos() < self.sview().len() ==> r == Some(self.sview()[self.spos()]),
            self.spos() == self.sview().len() ==> r is None,
    ;

    /// The byte under the cursor, moving past it.
    fn get(&mut self) -> (r: Option<u8>)
        requires
            0 <= old(self).spos() <= old(self).sview().len(),
        ensures
            final(self).sview() == old(self).sview(),
            old(self).spos() < old(self).sview().len() ==> r == Some(
                old(self).sview()[old(self).spos()],
            ) && final(self).spos() == old(self).spos() + 1,
            old(self).spos() == old(self).sview().len() ==> r is None && final(self).spos()
                == old(self).spos(),
    ;

    /// Consume the byte under the cursor when it equals the target.
    fn take(&mut self, target: u8) -> (r: bool)
        requires
            0 <= old(self).spos() <= old(self).sview().len(),
        ensures
            final(self).sview() == old(self).sview(),
            r == (old(self).spos() < old(self).sview().len() && old(self).sview()[old(
                self,
            ).spos()] == target),
            r ==> final(self).spos() == old(self).spos() + 1,
            !r ==> final(self).spos() == old(self).spos(),
    ;
}

/// The write side of a cursor: splicing bytes in and cutting ranges out.
pub trait MutAnalyser: Analyser {
    /// Whether writes are permitted.
    spec fn swritable(&self) -> bool;

    /// Splice bytes in at the cursor.
    fn insert_contents(&mut self, contents: &[u8]) -> (r: Result<(), ()>)
        requires
            0 <= old(self).spos() <= old(self).sview().len(),
        ensures
            old(self).swritable() ==> r is Ok && final(self).sview() == old(self).sview().take(
                old(self).spos(),
            ) + contents@ + old(self).sview().skip(old(self).spos()),
            !old(self).swritable() ==> r is Err && final(self).sview() == old(self).sview(),
            final(self).swritable() == old(self).swritable(),
            final(self).spos() == old(self).spos(),
    ;

    /// Cut a byte range out.
    fn remove_range(&mut self, start: usize, end: usize) -> (r: Result<(), ()>)
        requires
            start <= end <= old(self).sview().len(),
            old(self).spos() <= start,
        ensures
            old(self).swritable() ==> r is Ok && final(self).sview() == old(self).sview().take(
                start as int,
            ) + old(self).sview().skip(end as int),
            !old(self).swritable() ==> r is Err && final(self).sview() == old(self).sview(),
            final(self).swritable() == old(self).swritable(),
            final(self).spos() == old(self).spos(),
    ;
}

impl Lexer {
    /// Wrap bytes in a cursor at their start.
    pub fn new(contents: Vec<u8>, mutable: bool) -> (r: Lexer)
        ensures
            r.sview() == contents@,
            r.spos() == 0,
            r.swritable() == mutable,
    {
        Lexer { mutable, cursor: 0, contents }
    }

    /// The cursor sits inside its bytes.
    pub open spec fn wf(&self) -> bool {
        self.cursor <= self.contents@.len()
    }
}

impl Analyser for Lexer {
    open spec fn sview(&self) -> Seq<u8> {
        self.contents@
    }

    open spec fn spos(&self) -> int {
        self.cursor as int
    }

    fn pos(&self) -> (r: usize) {
        self.cursor
    }

    fn len(&self) -> (r: usize) {
        self.contents.len()
    }

    fn set_cursor(&mut self, cursor: usize) {
        self.cursor = cursor;
    }

    fn peek(&self) -> (r: Option<u8>) {
        if self.cursor < self.contents.len() {
            Some(self.contents[self.cursor])
        } else {
            None
        }
    }

    fn get(&mut self) -> (r: Option<u8>) {
        if self.cursor < self.contents.len() {
            let c = self.contents[self.cursor];
            self.cursor = self.cursor + 1;
            Some(c)
        } else {
            None
        }
    }

    fn take(&mut self, target: u8) -> (r: bool) {
        if self.cursor < self.contents.len() && self.contents[self.cursor] == target {
            self.cursor = self.cursor + 1;
            true
        } else {
            false
        }
    }
}

impl MutAnalyser for Lexer {
    open spec fn swritable(&self) -> bool {
        self.mutable
    }

    fn insert_contents(&mut self, contents: &[u8]) -> (r: Result<(), ()>) {
        if !self.mutable {
            return Err(());
        }
        let ghost before = self.contents@;
        let mut rebuilt: Vec<u8> = Vec::new();
        let mut i: usize = 0;
        while i < self.cursor
            invariant
                i <= self.cursor <= self.contents@.len(),
                self.contents@ == before,
                rebuilt@ =~= before.take(i as int),
            decreases self.cursor - i,
        {
            rebuilt.push(self.contents[i]);
            i = i + 1;
        }
        let mut j: usize = 0;
        while j < contents.len()
            invariant
                j <= contents@.len(),
                self.contents@ == before,
                self.cursor <= before.len(),
                rebuilt@ =~= before.take(self.cursor as int) + contents@.take(j as int),
            decreases contents@.len() - j,
        {
            rebuilt.push(contents[j]);
            j = j + 1;
        }
        let mut t: usize = self.cursor;
        while t < self.contents.len()
            invariant
                self.cursor <= t <= self.contents@.len(),
                self.contents@ == before,
                rebuilt@ =~= before.take(self.cursor as int) + contents@ + before.subrange(
                    self.cursor as int,
                    t as int,
                ),
            decreases self.contents@.len() - t,
        {
            rebuilt.push(self.contents[t]);
            t = t + 1;
        }
        proof {
            assert(before.subrange(self.cursor as int, before.len() as int) =~= before.skip(
                self.cursor as int,
            ));
            assert(contents@.take(contents@.len() as int) =~= contents@);
        }
        self.contents = rebuilt;
        Ok(())
    }

    fn remove_range(&mut self, start: usize, end: usize) -> (r: Result<(), ()>) {
        if !self.mutable {
            return Err(());
        }
        let ghost before = self.contents@;
        let mut rebuilt: Vec<u8> = Vec::new();
        let mut i: usize = 0;
        while i < start
            invariant
                i <= start <= before.len(),
                self.contents@ == before,
                rebuilt@ =~= before.take(i as int),
            decreases start - i,
        {
            rebuilt.push(self.contents[i]);
            i = i + 1;
        }
        let mut t: usize = end;
        while t < self.contents.len()
            invariant
                end <= t <= before.len(),
                start <= end,
                self.contents@ == before,
                rebuilt@ =~= before.take(start as int) + before.subrange(end as int, t as int),
            decreases before.len() - t,
        {
            rebuilt.push(self.contents[t]);
            t = t + 1;
        }
        proof {
            assert(before.subrange(end as int, before.len() as int) =~= before.skip(end as int));
        }
        self.contents = rebuilt;
        Ok(())
    }
}

/// How far the leading run of one repeated byte reaches into a sequence.
pub open spec fn run_len(s: Seq<u8>, c: u8) -> int
    decreases s.len(),
{
    if s.len() == 0 {
        0
    } else if s[0] != c {
        0
    } else {
        1 + run_len(s.skip(1), c)
    }
}

/// What `run_len` says: a run of `c`, then either the end or another byte.
pub proof fn lemma_run_len(s: Seq<u8>, c: u8)
    ensures
        0 <= run_len(s, c) <= s.len(),
        forall|k: int| 0 <= k < run_len(s, c) ==> s[k] == c,
        run_len(s, c) < s.len() ==> s[run_len(s, c)] != c,
    decreases s.len(),
{
    if s.len() > 0 && s[0] == c {
        lemma_run_len(s.skip(1), c);
        assert forall|k: int| 0 <= k < run_len(s, c) implies s[k] == c by {
            if k > 0 {
                assert(s.skip(1)[k - 1] == c);
            }
        }
    }
}

/// A pushback-capable cursor over owned bytes, mirroring a buffered stream
/// reader: reads advance one byte at a time and a read can be undone.
pub struct BufferedReader {
    pub data: Vec<u8>,
    pub cursor: usize,
}

impl BufferedReader {
    /// The cursor sits inside its bytes.
    pub open spec fn wf(&self) -> bool {
        self.cursor <= self.data@.len()
    }

    /// Wrap bytes in a reader at their start.
    pub fn new(data: Vec<u8>) -> (r: BufferedReader)
        ensures
            r.wf(),
            r.data@ == data@,
            r.cursor == 0,
    {
        BufferedReader { data, cursor: 0 }
    }

    /// The position of the next read.
    pub fn pos(&self) -> (r: usize)
        ensures
            r == self.cursor,
    {
        self.cursor
    }

    /// Read one byte; at the end of the bytes, fail.
    pub fn get(&mut self) -> (r: Result<u8, ()>)
        requires
            old(self).wf(),
        ensures
            final(self).wf(),
            final(self).data@ == old(self).data@,
            old(self).cursor < old(self).data@.len() ==> r == Ok::<u8, ()>(
                old(self).data@[old(self).cursor as int],
            ) && final(self).cursor == old(self).cursor + 1,
            old(self).cursor == old(self).data@.len() ==> r is Err && final(self).cursor == old(
                self,
            ).cursor,
    {
        if self.cursor < self.data.len() {
            let c = self.data[self.cursor];
            self.cursor = self.cursor + 1;
            Ok(c)
        } else {
            Err(())
        }
    }

    /// Read past a run of one uninteresting byte: the first byte that
    /// differs, or a fault if the bytes end inside the run.
    pub fn get_not(&mut self, not: u8) -> (r: Result<u8, ()>)
        requires
            old(self).wf(),
        ensures
            final(self).wf(),
            final(self).data@ == old(self).data@,
            ({
                let rem = old(self).data@.skip(old(self).cursor as int);
                let n = run_len(rem, not);
                if n < rem.len() {
                    r == Ok::<u8, ()>(rem[n]) && final(self).cursor == old(self).cursor + n + 1
                } else {
                    r is Err
                }
            }),
            r matches Ok(c) ==> c != not,
            r is Ok ==> final(self).cursor > old(self).cursor,
    {
        let ghost rem = self.data@.skip(self.cursor as int);
        let ghost pos0 = self.cursor as int;
        proof {
            lemma_run_len(rem, not);
        }
        let mut j: usize = 0;
        while j < self.data.len() - self.cursor && self.data[self.cursor + j] == not
            invariant
                self.wf(),
                self.cursor == pos0,
                0 <= j,
                pos0 + j <= self.data@.len(),
                rem == self.data@.skip(pos0),
                forall|k: int| 0 <= k < j ==> rem[k] == not,
            decreases self.data@.len() - self.cursor - j,
        {
            j = j + 1;
        }
        proof {
            lemma_run_len(rem, not);
            if pos0 + j < self.data@.len() {
                assert(rem[j as int] != not);
                assert(run_len(rem, not) == j) by {
                    if run_len(rem, not) < j {
                        assert(rem[run_len(rem, not)] == not);
                    }
                    if run_len(rem, not) > j {
                        assert(rem[j as int] == not);
                    }
                }
            } else {
                assert(run_len(rem, not) == j) by {
                    if run_len(rem, not) < j {
                        assert(rem[run_len(rem, not)] == not);
                    }
                }
            }
        }
        if j < self.data.len() - self.cursor {
            let c = self.data[self.cursor + j];
            self.cursor = self.cursor + j + 1;
            Ok(c)
        } else {
            Err(())
        }
    }

    /// Undo the last read; at the start of the bytes, fail.
    pub fn unget(&mut self) -> (r: Result<(), ()>)
        requires
            old(self).wf(),
        ensures
            final(self).wf(),
            final(self).data@ == old(self).data@,
            old(self).cursor > 0 ==> r is Ok && final(self).cursor == old(self).cursor - 1,
            old(self).cursor == 0 ==> r is Err && final(self).cursor == 0,
    {
        if self.cursor > 0 {
            self.cursor = self.cursor - 1;
            Ok(())
        } else {
            Err(())
        }
    }
}

} // verus!
