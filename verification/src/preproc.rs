//! The textual preprocessor's reading layer: a pushback reader that strips
//! carriage returns and line continuations, a token scanner for directive
//! lexing, and the macro table the directives maintain.

use vstd::prelude::*;
use crate::cursor::{BufferedReader, run_len, lemma_run_len};

verus! {

/// A fault while reading preprocessor input: the bytes ran out.
#[derive(Clone, Copy, Debug, PartialEq, Eq, Structural)]
pub enum PreprocessorReadError {
    EndOfInput,
}

/// The tokens of the directive lexer.
#[derive(Clone, Copy, Debug, PartialEq, Eq, Structural)]
pub enum LexToken {
    Include,
    Define,
    IfDef,
    IfNDef,
    Else,
    EndIf,
    LeftParenthesis,
    RightParenthesis,
    Comma,
    Hash,
    NewFile,
    NewLine,
    LineCommentStart,
    DelimitedCommentStart,
    LineBreak,
    DQuote,
    LeftAngle,
    RightAngle,
    DoubleHash,
    Undef,
    Text,
    Unknown,
}

/// The raw token alphabet of the textual preprocessor.
#[derive(Clone, Copy, Debug, PartialEq, Eq, Structural)]
pub enum RvToken {
    Include,
    Define,
    IfDef,
    IfNDef,
    Else,
    EndIf,
    Undef,
    LeftParenthesis,
    RightParenthesis,
    Comma,
    Hash,
    NewLine,
    LineComment,
    BlockComment,
    LineBreak,
    DQuote,
    LeftAngle,
    RightAngle,
    DHash,
}

/// Whether a byte continues an identifier: letters and underscores
/// anywhere, digits after the first position.
pub open spec fn spec_valid_id_char(c: u8, is_first: bool) -> bool {
    ||| (48 <= c <= 57 && !is_first)
    ||| (97 <= c <= 122)
    ||| (65 <= c <= 90)
    ||| c == 95
}

/// Whether a byte continues an identifier.
pub fn valid_id_char(c: u8, is_first: bool) -> (r: bool)
    ensures
        r == spec_valid_id_char(c, is_first),
{
    (48 <= c && c <= 57 && !is_first) || (97 <= c && c <= 122) || (65 <= c && c <= 90) || c == 95
}

/// One user-defined macro: a body, parameter names, and a recursion block
/// count.
pub struct CustomMacro {
    pub value: Vec<u8>,
    pub parameters: Vec<Vec<u8>>,
    pub blocked: u32,
}

impl CustomMacro {
    /// A macro without parameters.
    pub fn new_simple(value: Vec<u8>) -> (r: CustomMacro)
        ensures
            r.value@ == value@,
            r.parameters@.len() == 0,
            r.blocked == 0,
    {
        CustomMacro::new(value, Vec::new())
    }

    /// A macro from its body and parameter names, unblocked.
    pub fn new(value: Vec<u8>, parameters: Vec<Vec<u8>>) -> (r: CustomMacro)
        ensures
            r.value@ == value@,
            r.parameters@ == parameters@,
            r.blocked == 0,
    {
        CustomMacro { value, parameters, blocked: 0 }
    }

    /// Whether the macro takes parameters.
    pub fn has_params(&self) -> (r: bool)
        ensures
            r == (self.parameters@.len() != 0),
    {
        self.parameters.len() != 0
    }

    /// Whether the macro is blocked against expansion.
    pub fn blocked(&self) -> (r: bool)
        ensures
            r == (self.blocked != 0),
    {
        self.blocked != 0
    }

    /// Release one level of blocking; never below zero.
    pub fn unblock(&mut self)
        ensures
            final(self).blocked == (if old(self).blocked > 0 {
                old(self).blocked - 1
            } else {
                0int
            }),
            final(self).value@ == old(self).value@,
            final(self).parameters@ == old(self).parameters@,
    {
        if self.blocked > 0 {
            self.blocked = self.blocked - 1;
        }
    }

    /// Block the macro against one more level of expansion.
    pub fn block(&mut self)
        ensures
            final(self).blocked == (if old(self).blocked < u32::MAX {
                old(self).blocked + 1
            } else {
                old(self).blocked as int
            }),
            final(self).value@ == old(self).value@,
            final(self).parameters@ == old(self).parameters@,
    {
        if self.blocked < u32::MAX {
            self.blocked = self.blocked + 1;
        }
    }
}

/// The macro names a table knows.
pub open spec fn table_has(t: Seq<(Vec<u8>, CustomMacro)>, name: Seq<u8>) -> bool {
    exists|i: int| 0 <= i < t.len() && (#[trigger] t[i]).0@ == name
}

/// A well-formed table binds each name at most once.
pub open spec fn table_wf(t: Seq<(Vec<u8>, CustomMacro)>) -> bool {
    forall|i: int, j: int|
        0 <= i < j < t.len() ==> (#[trigger] t[i]).0@ != (#[trigger] t[j]).0@
}

/// The preprocessor state: its macro table.
pub struct PreProcessor {
    pub macros: Vec<(Vec<u8>, CustomMacro)>,
}

impl PreProcessor {
    /// An empty macro table.
    pub fn new() -> (r: PreProcessor)
        ensures
            r.macros@.len() == 0,
            table_wf(r.macros@),
    {
        PreProcessor { macros: Vec::new() }
    }

    /// Define a parameterless macro: the new binding replaces any previous
    /// binding of the name, which is returned displaced; every other
    /// binding is untouched.
    pub fn add_simple_define(&mut self, name: Vec<u8>, value: Vec<u8>) -> (r: Option<CustomMacro>)
        requires
            table_wf(old(self).macros@),
        ensures
            table_wf(final(self).macros@),
            table_has(final(self).macros@, name@),
            final(self).macros@.len() >= 1,
            final(self).macros@.last().0@ == name@,
            final(self).macros@.last().1.value@ == value@,
            final(self).macros@.last().1.parameters@.len() == 0,
            final(self).macros@.last().1.blocked == 0,
            !table_has(old(self).macros@, name@) ==> r is None
                && final(self).macros@.drop_last() == old(self).macros@,
            table_has(old(self).macros@, name@) ==> exists|i: int|
                0 <= i < old(self).macros@.len() && (#[trigger] old(self).macros@[i]).0@ == name@
                    && r == Some(old(self).macros@[i].1) && final(self).macros@.drop_last()
                    == old(self).macros@.remove(i),
    {
        let mut i: usize = 0;
        while i < self.macros.len()
            invariant
                i <= self.macros@.len(),
                self.macros@ == old(self).macros@,
                table_wf(old(self).macros@),
                forall|j: int| 0 <= j < i ==> (#[trigger] self.macros@[j]).0@ != name@,
            decreases self.macros@.len() - i,
        {
            if crate::path::bytes_eq(&self.macros[i].0, &name) {
                proof {
                    assert(self.macros@[i as int].0@ == name@);
                }
                let ghost before = self.macros@;
                let ghost at = i as int;
                let old_pair = self.macros.remove(i);
                self.macros.push((name, CustomMacro::new_simple(value)));
                proof {
                    let t = self.macros@;
                    let k = t.len() - 1;
                    let survivors = before.take(at) + before.skip(at + 1);
                    assert(t[k].0@ == name@);
                    assert(before.remove(at) =~= survivors);
                    assert(t.drop_last() =~= survivors);
                    assert(t.drop_last() =~= before.remove(at));
                    // Uniqueness: the one binding of the name was removed,
                    // and every survivor keeps its distinct name.
                    assert forall|a: int, b: int| 0 <= a < b < t.len() implies (#[trigger] t[a]).0@
                        != (#[trigger] t[b]).0@ by {
                        assert(t[a] == t.drop_last()[a]);
                        assert(t[a] == survivors[a]);
                        if a < at {
                            assert(survivors[a] == before[a]);
                        } else {
                            assert(survivors[a] == before[a + 1]);
                        }
                        if b < k {
                            assert(t[b] == survivors[b]);
                            if b < at {
                                assert(survivors[b] == before[b]);
                            } else {
                                assert(survivors[b] == before[b + 1]);
                            }
                        } else {
                            if a < at {
                                assert(before[a].0@ != before[at].0@);
                            } else {
                                assert(before[at].0@ != before[a + 1].0@);
                            }
                        }
                    }
                }
                return Some(old_pair.1);
            }
            i = i + 1;
        }
        let ghost before = self.macros@;
        self.macros.push((name, CustomMacro::new_simple(value)));
        proof {
            let t = self.macros@;
            let k = t.len() - 1;
            assert(t[k].0@ == name@);
            assert(t.drop_last() =~= before);
            assert forall|a: int, b: int| 0 <= a < b < t.len() implies (#[trigger] t[a]).0@ != (
            #[trigger] t[b]).0@ by {
                if b < k {
                    assert(t[a] == before[a]);
                    assert(t[b] == before[b]);
                } else {
                    assert(t[a] == before[a]);
                    assert(before[a].0@ != name@);
                }
            }
        }
        None
    }
}

/// What one stripped read yields from the remaining bytes: the byte, how
/// many input bytes it consumed, and how many line continuations it
/// swallowed. Stripping deletes carriage returns; a backslash whose next
/// non-CR byte is a newline joins the lines (one swallowed newline); a
/// backslash followed by anything else is returned itself, with the
/// look-ahead byte left unconsumed (the carriage returns before it are
/// consumed). `None` is the bytes running out mid-read.
pub open spec fn strip_next(rem: Seq<u8>) -> Option<(u8, int, int)>
    decreases rem.len(),
    via strip_next_decreases
{
    let a = run_len(rem, 13);
    if a >= rem.len() {
        None
    } else if rem[a] != 92 {
        Some((rem[a], a + 1, 0))
    } else {
        let rest = rem.skip(a + 1);
        let b = run_len(rest, 13);
        if b >= rest.len() {
            None
        } else if rest[b] != 10 {
            Some((92u8, a + 1 + b, 0))
        } else {
            match strip_next(rest.skip(b + 1)) {
                None => None,
                Some((c, n, j)) => Some((c, a + 1 + b + 1 + n, j + 1)),
            }
        }
    }
}

#[via_fn]
proof fn strip_next_decreases(rem: Seq<u8>) {
    lemma_run_len(rem, 13);
    let a = run_len(rem, 13);
    if a < rem.len() && rem[a] == 92 {
        lemma_run_len(rem.skip(a + 1), 13);
    }
}

/// A successful stripped read consumes between one byte and the whole
/// remainder, and swallows a non-negative number of newlines.
pub proof fn lemma_strip_next_bounds(rem: Seq<u8>)
    ensures
        strip_next(rem) matches Some((c, n, j)) ==> 1 <= n <= rem.len() && j >= 0,
    decreases rem.len(),
{
    lemma_run_len(rem, 13);
    let a = run_len(rem, 13);
    if a < rem.len() && rem[a] == 92 {
        let rest = rem.skip(a + 1);
        lemma_run_len(rest, 13);
        let b = run_len(rest, 13);
        if b < rest.len() && rest[b] == 10 {
            lemma_strip_next_bounds(rest.skip(b + 1));
        }
    }
}

/// The stripped read as it stands just past a backslash: consumed bytes
/// counted from there.
pub open spec fn strip_next_from_bs(rest: Seq<u8>) -> Option<(u8, int, int)> {
    let b = run_len(rest, 13);
    if b >= rest.len() {
        None
    } else if rest[b] != 10 {
        Some((92u8, b, 0))
    } else {
        match strip_next(rest.skip(b + 1)) {
            None => None,
            Some((c, n, j)) => Some((c, b + 1 + n, j + 1)),
        }
    }
}

/// A stripped read beginning at a backslash is the read past the
/// backslash, shifted by what led up to it.
proof fn lemma_strip_next_at_bs(rem: Seq<u8>)
    requires
        run_len(rem, 13) < rem.len(),
        rem[run_len(rem, 13)] == 92,
    ensures
        strip_next(rem) == (match strip_next_from_bs(rem.skip(run_len(rem, 13) + 1)) {
            None => None::<(u8, int, int)>,
            Some((c, n, j)) => Some((c, run_len(rem, 13) + 1 + n, j)),
        }),
{
    lemma_run_len(rem, 13);
}

/// A counter add that sticks at the counter's ceiling.
pub open spec fn sat_add(x: u32, j: int) -> int {
    if x + j <= u32::MAX {
        x + j
    } else {
        u32::MAX as int
    }
}

/// The length of the identifier at the head of the bytes: letters and
/// underscores, digits after the first byte, never more than `max`.
pub open spec fn id_run(rem: Seq<u8>, max: int, first: bool) -> int
    decreases rem.len(),
{
    if max <= 0 || rem.len() == 0 || !spec_valid_id_char(rem[0], first) {
        0
    } else {
        1 + id_run(rem.skip(1), max - 1, false)
    }
}

/// The length of the head run of bytes that are not terminators, never
/// more than `max`.
pub open spec fn scan_run(rem: Seq<u8>, max: int, terms: Seq<u8>) -> int
    decreases rem.len(),
{
    if max <= 0 || rem.len() == 0 || terms.contains(rem[0]) {
        0
    } else {
        1 + scan_run(rem.skip(1), max - 1, terms)
    }
}

/// Whether a byte string begins with a keyword.
pub open spec fn spec_starts_with(s: Seq<u8>, kw: Seq<u8>) -> bool {
    s.len() >= kw.len() && s.take(kw.len() as int) == kw
}

/// The directive keyword a scanned identifier stands for, if any.
pub open spec fn kw_token_of(s: Seq<u8>) -> LexToken {
    if spec_starts_with(s, seq![105u8, 110u8, 99u8, 108u8, 117u8, 100u8, 101u8]) {
        LexToken::Include
    } else if spec_starts_with(s, seq![100u8, 101u8, 102u8, 105u8, 110u8, 101u8]) {
        LexToken::Define
    } else if spec_starts_with(s, seq![105u8, 102u8, 110u8, 100u8, 101u8, 102u8]) {
        LexToken::IfNDef
    } else if spec_starts_with(s, seq![105u8, 102u8, 100u8, 101u8, 102u8]) {
        LexToken::IfDef
    } else if spec_starts_with(s, seq![101u8, 108u8, 115u8, 101u8]) {
        LexToken::Else
    } else if spec_starts_with(s, seq![101u8, 110u8, 100u8, 105u8, 102u8]) {
        LexToken::EndIf
    } else if spec_starts_with(s, seq![117u8, 110u8, 100u8, 101u8, 102u8]) {
        LexToken::Undef
    } else {
        LexToken::Unknown
    }
}

/// The token one punctuation byte stands for on its own.
pub open spec fn simple_token(c: u8) -> LexToken {
    if c == 40 {
        LexToken::LeftParenthesis
    } else if c == 41 {
        LexToken::RightParenthesis
    } else if c == 44 {
        LexToken::Comma
    } else if c == 10 {
        LexToken::NewLine
    } else if c == 34 {
        LexToken::DQuote
    } else if c == 60 {
        LexToken::LeftAngle
    } else if c == 62 {
        LexToken::RightAngle
    } else {
        LexToken::Unknown
    }
}

/// The token of a non-identifier lexeme, read with stripping: comment
/// openers and line breaks need one stripped byte of look-ahead, a hash
/// may pair into a double hash, anything else stands alone. `None` is the
/// bytes running out before the first byte.
pub open spec fn punct_token(rem: Seq<u8>) -> Option<LexToken> {
    match strip_next(rem) {
        None => None,
        Some((c, n1, _)) => {
            if c == 92 || c == 47 {
                match strip_next(rem.skip(n1)) {
                    None => Some(LexToken::Unknown),
                    Some((c2, _, _)) => {
                        if c == 47 && c2 == 47 {
                            Some(LexToken::LineCommentStart)
                        } else if c == 47 && c2 == 42 {
                            Some(LexToken::DelimitedCommentStart)
                        } else if c == 92 && c2 == 10 {
                            Some(LexToken::LineBreak)
                        } else {
                            Some(LexToken::Unknown)
                        }
                    },
                }
            } else if c == 35 {
                match strip_next(rem.skip(n1)) {
                    None => Some(LexToken::Hash),
                    Some((c2, _, _)) => {
                        if c2 == 35 {
                            Some(LexToken::DoubleHash)
                        } else {
                            Some(LexToken::Hash)
                        }
                    },
                }
            } else {
                Some(simple_token(c))
            }
        },
    }
}

/// A reader for preprocessor text: a pushback byte reader that can strip
/// carriage returns and backslash–newline line continuations, counting the
/// newlines it swallowed.
pub struct PreprocessorReader {
    pub reader: BufferedReader,
    pub directive_newlines: u32,
}

impl PreprocessorReader {
    /// The cursor sits inside the bytes.
    pub open spec fn wf(&self) -> bool {
        self.reader.wf()
    }

    /// The bytes being read.
    pub open spec fn sview(&self) -> Seq<u8> {
        self.reader.data@
    }

    /// The bytes not yet read.
    pub open spec fn srem(&self) -> Seq<u8> {
        self.reader.data@.skip(self.reader.cursor as int)
    }

    /// Wrap bytes in a reader at their start.
    pub fn new(data: Vec<u8>) -> (r: PreprocessorReader)
        ensures
            r.wf(),
            r.sview() == data@,
            r.reader.cursor == 0,
            r.directive_newlines == 0,
    {
        PreprocessorReader { reader: BufferedReader::new(data), directive_newlines: 0 }
    }

    /// The position of the next read.
    pub fn pos(&self) -> (r: usize)
        ensures
            r == self.reader.cursor,
    {
        self.reader.pos()
    }

    /// How many newlines line continuations have swallowed since the last
    /// reset.
    pub fn directive_newline_count(&self) -> (r: u32)
        ensures
            r == self.directive_newlines,
    {
        self.directive_newlines
    }

    /// Give one swallowed newline back; never below zero.
    pub fn pop_newline_count(&mut self)
        ensures
            final(self).directive_newlines == (if old(self).directive_newlines > 0 {
                old(self).directive_newlines - 1
            } else {
                0int
            }),
            final(self).reader == old(self).reader,
    {
        if self.directive_newlines > 0 {
            self.directive_newlines = self.directive_newlines - 1;
        }
    }

    /// Forget the swallowed newlines.
    pub fn reset_newline_count(&mut self)
        ensures
            final(self).directive_newlines == 0,
            final(self).reader == old(self).reader,
    {
        self.directive_newlines = 0;
    }

    /// Read one byte. A raw read hands the next byte through. A stripped
    /// read deletes carriage returns and backslash–newline line joins,
    /// counting each join into the newline counter (which sticks at its
    /// ceiling); a backslash not followed by a newline is returned itself,
    /// with the look-ahead byte pushed back. Exactly `strip_next` of the
    /// remaining bytes.
    pub fn get(&mut self, stripped: bool) -> (r: Result<u8, PreprocessorReadError>)
        requires
            old(self).wf(),
        ensures
            final(self).wf(),
            final(self).sview() == old(self).sview(),
            !stripped ==> final(self).directive_newlines == old(self).directive_newlines && (
            if old(self).srem().len() > 0 {
                r == Ok::<u8, PreprocessorReadError>(old(self).srem()[0])
                    && final(self).reader.cursor == old(self).reader.cursor + 1
            } else {
                r == Err::<u8, PreprocessorReadError>(PreprocessorReadError::EndOfInput)
            }),
            stripped ==> (match strip_next(old(self).srem()) {
                Some((c, n, j)) => r == Ok::<u8, PreprocessorReadError>(c)
                    && final(self).reader.cursor == old(self).reader.cursor + n
                    && final(self).directive_newlines == sat_add(old(self).directive_newlines, j),
                None => r == Err::<u8, PreprocessorReadError>(PreprocessorReadError::EndOfInput),
            }),
    {
        if !stripped {
            return match self.reader.get() {
                Ok(c) => Ok(c),
                Err(_) => Err(PreprocessorReadError::EndOfInput),
            };
        }
        let ghost rem0 = self.srem();
        let ghost cursor0 = self.reader.cursor as int;
        let ghost dn0 = self.directive_newlines;
        proof {
            lemma_run_len(rem0, 13);
        }
        let mut current = match self.reader.get_not(13) {
            Ok(c) => c,
            Err(_) => {
                return Err(PreprocessorReadError::EndOfInput);
            },
        };
        let ghost mut joins: int = 0;
        proof {
            let a = run_len(rem0, 13);
            assert(self.srem() =~= rem0.skip(a + 1));
            if current == 92 {
                lemma_strip_next_at_bs(rem0);
            }
        }
        while current == 92
            invariant
                stripped,
                self.wf(),
                self.sview() == old(self).sview(),
                cursor0 == old(self).reader.cursor,
                dn0 == old(self).directive_newlines,
                rem0 == old(self).srem(),
                cursor0 <= self.reader.cursor <= self.sview().len(),
                joins >= 0,
                self.directive_newlines as int == sat_add(dn0, joins),
                current != 13,
                current != 92 ==> strip_next(rem0) == Some::<(u8, int, int)>(
                    (current, self.reader.cursor - cursor0, joins),
                ),
                current == 92 ==> (match strip_next_from_bs(self.srem()) {
                    None => strip_next(rem0) is None,
                    Some((c, n, j)) => strip_next(rem0) == Some::<(u8, int, int)>(
                        (c, (self.reader.cursor - cursor0) + n, joins + j),
                    ),
                }),
            decreases self.sview().len() - self.reader.cursor,
        {
            let ghost rest = self.srem();
            let ghost cbase = self.reader.cursor as int;
            proof {
                lemma_run_len(rest, 13);
            }
            let next = match self.reader.get_not(13) {
                Ok(c) => c,
                Err(_) => {
                    return Err(PreprocessorReadError::EndOfInput);
                },
            };
            let ghost b = run_len(rest, 13);
            if next != 10 {
                // A lone backslash: give the look-ahead back and keep it.
                let _ = self.reader.unget();
                proof {
                    assert(strip_next_from_bs(rest) == Some::<(u8, int, int)>((92u8, b, 0)));
                }
                return Ok(current);
            }
            if self.directive_newlines < u32::MAX {
                self.directive_newlines = self.directive_newlines + 1;
            }
            proof {
                joins = joins + 1;
            }
            let ghost rest2 = self.srem();
            proof {
                assert(rest2 =~= rest.skip(b + 1));
                lemma_run_len(rest2, 13);
            }
            current = match self.reader.get_not(13) {
                Ok(c) => c,
                Err(_) => {
                    proof {
                        assert(strip_next(rest2) is None);
                        assert(strip_next_from_bs(rest) is None);
                    }
                    return Err(PreprocessorReadError::EndOfInput);
                },
            };
            proof {
                let a2 = run_len(rest2, 13);
                assert(self.srem() =~= rest2.skip(a2 + 1));
                if current == 92 {
                    lemma_strip_next_at_bs(rest2);
                }
            }
        }
        Ok(current)
    }

    /// Scan the identifier at the cursor into the buffer, reading raw
    /// bytes: letters and underscores, digits after the first byte, at
    /// most `max_length` bytes. The scanned bytes are appended, the
    /// stopping byte is pushed back, and the count returned is exactly
    /// `id_run` of the remaining bytes.
    pub fn scan_name(&mut self, text_buffer: &mut Vec<u8>, max_length: usize) -> (r: Result<
        usize,
        PreprocessorReadError,
    >)
        requires
            old(self).wf(),
        ensures
            final(self).wf(),
            final(self).sview() == old(self).sview(),
            final(self).directive_newlines == old(self).directive_newlines,
            r matches Ok(n) && n == id_run(old(self).srem(), max_length as int, true),
            final(text_buffer)@ == old(text_buffer)@ + old(self).srem().take(
                id_run(old(self).srem(), max_length as int, true),
            ),
            final(self).reader.cursor == old(self).reader.cursor + id_run(
                old(self).srem(),
                max_length as int,
                true,
            ),
    {
        let ghost rem0 = self.srem();
        let ghost base = text_buffer@.len();
        let mut size: usize = 0;
        proof {
            assert(rem0.skip(0) =~= rem0);
            assert(text_buffer@ =~= old(text_buffer)@ + rem0.take(0));
        }
        loop
            invariant
                self.wf(),
                self.sview() == old(self).sview(),
                self.directive_newlines == old(self).directive_newlines,
                rem0 == old(self).srem(),
                size <= max_length,
                self.reader.cursor == old(self).reader.cursor + size,
                self.srem() == rem0.skip(size as int),
                text_buffer@ == old(text_buffer)@ + rem0.take(size as int),
                id_run(rem0, max_length as int, true) == size + id_run(
                    self.srem(),
                    max_length - size,
                    size == 0,
                ),
            ensures
                final(self).wf(),
                final(self).sview() == old(self).sview(),
                final(self).directive_newlines == old(self).directive_newlines,
                size == id_run(rem0, max_length as int, true),
                text_buffer@ == old(text_buffer)@ + rem0.take(size as int),
                final(self).reader.cursor == old(self).reader.cursor + size,
            decreases max_length - size,
        {
            if size >= max_length {
                break;
            }
            let ghost rem = self.srem();
            let c = match self.reader.get() {
                Ok(c) => c,
                Err(_) => {
                    proof {
                        assert(rem.len() == 0);
                    }
                    break;
                },
            };
            proof {
                assert(rem[0] == c);
            }
            if valid_id_char(c, size == 0) {
                text_buffer.push(c);
                proof {
                    assert(id_run(rem, max_length - size, size == 0) == 1 + id_run(
                        rem.skip(1),
                        max_length - size - 1,
                        false,
                    ));
                    assert(rem.skip(1) =~= rem0.skip(size as int + 1));
                    assert(self.srem() =~= rem0.skip(size as int + 1));
                    assert((old(text_buffer)@ + rem0.take(size as int)).push(rem0[size as int])
                        =~= old(text_buffer)@ + rem0.take(size as int + 1));
                }
                size = size + 1;
            } else {
                let _ = self.reader.unget();
                proof {
                    assert(self.srem() =~= rem);
                }
                break;
            }
        }
        Ok(size)
    }

    /// Clear the buffer, then scan raw bytes into it until a terminator
    /// byte, the length cap, or the end of input; the terminator is pushed
    /// back. The bytes taken are exactly the head run free of terminators,
    /// `scan_run` of the remaining bytes.
    pub fn scan_string(&mut self, text_buffer: &mut Vec<u8>, max_length: usize, terminators: &[u8])
        -> (r: Result<usize, PreprocessorReadError>)
        requires
            old(self).wf(),
        ensures
            final(self).wf(),
            final(self).sview() == old(self).sview(),
            final(self).directive_newlines == old(self).directive_newlines,
            r matches Ok(n) && n == scan_run(old(self).srem(), max_length as int, terminators@),
            final(text_buffer)@ == old(self).srem().take(
                scan_run(old(self).srem(), max_length as int, terminators@),
            ),
            final(self).reader.cursor == old(self).reader.cursor + scan_run(
                old(self).srem(),
                max_length as int,
                terminators@,
            ),
    {
        text_buffer.clear();
        let ghost rem0 = self.srem();
        let mut size: usize = 0;
        proof {
            assert(rem0.skip(0) =~= rem0);
            assert(text_buffer@ =~= rem0.take(0));
        }
        loop
            invariant
                self.wf(),
                self.sview() == old(self).sview(),
                self.directive_newlines == old(self).directive_newlines,
                rem0 == old(self).srem(),
                size <= max_length,
                self.reader.cursor == old(self).reader.cursor + size,
                self.srem() == rem0.skip(size as int),
                text_buffer@ == rem0.take(size as int),
                scan_run(rem0, max_length as int, terminators@) == size + scan_run(
                    self.srem(),
                    max_length - size,
                    terminators@,
                ),
            ensures
                final(self).wf(),
                final(self).sview() == old(self).sview(),
                final(self).directive_newlines == old(self).directive_newlines,
                size == scan_run(rem0, max_length as int, terminators@),
                text_buffer@ == rem0.take(size as int),
                final(self).reader.cursor == old(self).reader.cursor + size,
            decreases max_length - size,
        {
            if size >= max_length {
                break;
            }
            let ghost rem = self.srem();
            let c = match self.reader.get() {
                Ok(c) => c,
                Err(_) => {
                    proof {
                        assert(rem.len() == 0);
                    }
                    break;
                },
            };
            proof {
                assert(rem[0] == c);
            }
            if contains_byte(terminators, c) {
                let _ = self.reader.unget();
                proof {
                    assert(self.srem() =~= rem);
                    assert(terminators@.contains(rem[0]));
                }
                break;
            }
            proof {
                assert(!terminators@.contains(rem[0]));
            }
            text_buffer.push(c);
            proof {
                assert(scan_run(rem, max_length - size, terminators@) == 1 + scan_run(
                    rem.skip(1),
                    max_length - size - 1,
                    terminators@,
                ));
                assert(rem.skip(1) =~= rem0.skip(size as int + 1));
                assert(rem0.take(size as int).push(rem0[size as int]) =~= rem0.take(
                    size as int + 1,
                ));
            }
            size = size + 1;
        }
        Ok(size)
    }

    /// Read past horizontal whitespace (bytes below 33 other than the
    /// newline) and hand back the first byte that is not such whitespace.
    pub fn skip_whitespace(&mut self) -> (r: Result<u8, PreprocessorReadError>)
        requires
            old(self).wf(),
        ensures
            final(self).wf(),
            final(self).sview() == old(self).sview(),
            r matches Ok(c) ==> !(c < 33 && c != 10),
    {
        loop
            invariant
                self.wf(),
                self.sview() == old(self).sview(),
            ensures
                final(self).wf(),
                final(self).sview() == old(self).sview(),
            decreases self.sview().len() - self.reader.cursor,
        {
            let c = match self.reader.get() {
                Ok(c) => c,
                Err(_) => {
                    return Err(PreprocessorReadError::EndOfInput);
                },
            };
            if !(c < 33 && c != 10) {
                return Ok(c);
            }
        }
    }

    /// Scan the next directive token. A nonempty identifier at the cursor
    /// becomes its directive keyword, or `Text` when it is none; otherwise
    /// one stripped byte decides, with one more byte of look-ahead for
    /// comment openers, line breaks and the double hash — exactly
    /// `punct_token` of the remaining bytes. `token_text` holds the
    /// scanned identifier, if any.
    pub fn next_token(&mut self, token_text: &mut Vec<u8>, max_length: usize) -> (r: Result<
        LexToken,
        PreprocessorReadError,
    >)
        requires
            old(self).wf(),
        ensures
            final(self).wf(),
            final(self).sview() == old(self).sview(),
            ({
                let n = id_run(old(self).srem(), max_length as int, true);
                if n > 0 {
                    r == Ok::<LexToken, PreprocessorReadError>(
                        if kw_token_of(old(self).srem().take(n)) == LexToken::Unknown {
                            LexToken::Text
                        } else {
                            kw_token_of(old(self).srem().take(n))
                        },
                    ) && final(token_text)@ == old(self).srem().take(n)
                } else {
                    match punct_token(old(self).srem()) {
                        None => r == Err::<LexToken, PreprocessorReadError>(
                            PreprocessorReadError::EndOfInput,
                        ),
                        Some(t) => r == Ok::<LexToken, PreprocessorReadError>(t),
                    }
                }
            }),
    {
        let ghost rem0 = self.srem();
        token_text.clear();
        let n = match self.scan_name(token_text, max_length) {
            Ok(n) => n,
            Err(e) => {
                return Err(e);
            },
        };
        proof {
            assert(Seq::<u8>::empty() + rem0.take(n as int) =~= rem0.take(n as int));
        }
        if n > 0 {
            return Ok(
                match const_token(token_text) {
                    LexToken::Unknown => LexToken::Text,
                    other => other,
                },
            );
        }
        proof {
            assert(self.srem() =~= rem0);
        }
        let current = match self.get(true) {
            Ok(c) => c,
            Err(e) => {
                return Err(e);
            },
        };
        let ghost n1 = strip_next(rem0).unwrap().1;
        proof {
            lemma_strip_next_bounds(rem0);
            assert(self.srem() =~= rem0.skip(n1));
        }
        if current == 92 || current == 47 {
            // A backslash or slash: look for a comment opener or a line
            // break.
            let next = match self.get(true) {
                Ok(c) => c,
                Err(_) => {
                    return Ok(LexToken::Unknown);
                },
            };
            if current == 47 && next == 47 {
                return Ok(LexToken::LineCommentStart);
            }
            if current == 47 && next == 42 {
                return Ok(LexToken::DelimitedCommentStart);
            }
            if current == 92 && next == 10 {
                return Ok(LexToken::LineBreak);
            }
            let _ = self.reader.unget();
            return Ok(LexToken::Unknown);
        }
        if current == 35 {
            let next = match self.get(true) {
                Ok(c) => c,
                Err(_) => {
                    return Ok(LexToken::Hash);
                },
            };
            if next == 35 {
                return Ok(LexToken::DoubleHash);
            }
            let _ = self.reader.unget();
            return Ok(LexToken::Hash);
        }
        Ok(
            match current {
                40 => LexToken::LeftParenthesis,
                41 => LexToken::RightParenthesis,
                44 => LexToken::Comma,
                10 => LexToken::NewLine,
                34 => LexToken::DQuote,
                60 => LexToken::LeftAngle,
                62 => LexToken::RightAngle,
                _ => LexToken::Unknown,
            },
        )
    }
}

/// Whether a byte occurs in a byte string.
fn contains_byte(s: &[u8], c: u8) -> (r: bool)
    ensures
        r == (exists|i: int| 0 <= i < s@.len() && s@[i] == c),
{
    let mut i: usize = 0;
    while i < s.len()
        invariant
            i <= s@.len(),
            forall|j: int| 0 <= j < i ==> s@[j] != c,
        decreases s@.len() - i,
    {
        if s[i] == c {
            return true;
        }
        i = i + 1;
    }
    false
}

/// The keyword a scanned text stands for, if any: exactly `kw_token_of`.
fn const_token(text: &Vec<u8>) -> (r: LexToken)
    ensures
        r == kw_token_of(text@),
{
    let kw_include: [u8; 7] = [105, 110, 99, 108, 117, 100, 101];
    let kw_define: [u8; 6] = [100, 101, 102, 105, 110, 101];
    let kw_ifdef: [u8; 5] = [105, 102, 100, 101, 102];
    let kw_ifndef: [u8; 6] = [105, 102, 110, 100, 101, 102];
    let kw_else: [u8; 4] = [101, 108, 115, 101];
    let kw_endif: [u8; 5] = [101, 110, 100, 105, 102];
    let kw_undef: [u8; 5] = [117, 110, 100, 101, 102];
    proof {
        assert(kw_include@ =~= seq![105u8, 110u8, 99u8, 108u8, 117u8, 100u8, 101u8]);
        assert(kw_define@ =~= seq![100u8, 101u8, 102u8, 105u8, 110u8, 101u8]);
        assert(kw_ifdef@ =~= seq![105u8, 102u8, 100u8, 101u8, 102u8]);
        assert(kw_ifndef@ =~= seq![105u8, 102u8, 110u8, 100u8, 101u8, 102u8]);
        assert(kw_else@ =~= seq![101u8, 108u8, 115u8, 101u8]);
        assert(kw_endif@ =~= seq![101u8, 110u8, 100u8, 105u8, 102u8]);
        assert(kw_undef@ =~= seq![117u8, 110u8, 100u8, 101u8, 102u8]);
    }
    if is_kw(text, vstd::array::array_as_slice(&kw_include)) {
        LexToken::Include
    } else if is_kw(text, vstd::array::array_as_slice(&kw_define)) {
        LexToken::Define
    } else if is_kw(text, vstd::array::array_as_slice(&kw_ifndef)) {
        LexToken::IfNDef
    } else if is_kw(text, vstd::array::array_as_slice(&kw_ifdef)) {
        LexToken::IfDef
    } else if is_kw(text, vstd::array::array_as_slice(&kw_else)) {
        LexToken::Else
    } else if is_kw(text, vstd::array::array_as_slice(&kw_endif)) {
        LexToken::EndIf
    } else if is_kw(text, vstd::array::array_as_slice(&kw_undef)) {
        LexToken::Undef
    } else {
        LexToken::Unknown
    }
}

/// Whether the text begins with a keyword.
fn is_kw(text: &Vec<u8>, kw: &[u8]) -> (r: bool)
    ensures
        r == spec_starts_with(text@, kw@),
{
    if text.len() < kw.len() {
        return false;
    }
    let mut i: usize = 0;
    while i < kw.len()
        invariant
            i <= kw@.len(),
            kw@.len() <= text@.len(),
            forall|j: int| 0 <= j < i ==> text@[j] == kw@[j],
        decreases kw@.len() - i,
    {
        if text[i] != kw[i] {
            proof {
                assert(text@.take(kw@.len() as int)[i as int] != kw@[i as int]);
            }
            return false;
        }
        i = i + 1;
    }
    proof {
        assert(text@.take(kw@.len() as int) =~= kw@);
    }
    true
}

} // verus!
