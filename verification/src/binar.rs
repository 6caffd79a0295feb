//! The binary-object interfaces: how a type reads itself from and writes
//! itself to the wire, and the tokenizer and parser interfaces the text
//! layers program against.

use vstd::prelude::*;
use crate::codec::{PboReader, parse_entry, enc_entry, write_entry};
use crate::cursor::Lexer;
use crate::entry::{BankEntry, wf_entry};
use crate::errors::{BankSkimError, EntryMetadataError};
use crate::skim::{BankSkimOptions, PboFileSkim, skim_spec};

verus! {

/// What a scanning predicate tells a repeated decoder to do with one
/// decoded item.
#[derive(Clone, Copy, Debug, PartialEq, Eq, Structural)]
pub enum DebinarizePredicateOption {
    Keep,
    Skip,
    Break,
}

/// Options a configurable decoder consumes.
pub trait DebinarizationOptions: Default {

}

impl DebinarizationOptions for BankSkimOptions {

}

/// A type that decodes itself from a byte cursor.
pub trait Debinarizable: Sized {
    /// Whether a value of this type parses at the head of the bytes.
    spec fn debin_ok(s: Seq<u8>) -> bool;

    /// Decode one value from the cursor; succeeds exactly when a value
    /// parses here.
    fn debinarize(reader: &mut PboReader) -> (r: Result<Self, EntryMetadataError>)
        requires
            old(reader).wf(),
        ensures
            final(reader).wf(),
            final(reader).data@ == old(reader).data@,
            (r is Ok) == Self::debin_ok(old(reader).remaining()),
    ;
}

/// A type that encodes itself onto a byte buffer.
pub trait Binarizable: Sized {
    /// The bytes the value stands for.
    spec fn bin_spec(&self) -> Seq<u8>;

    /// Append the value's encoding.
    fn binarize(&self, out: &mut Vec<u8>)
        ensures
            final(out)@ == old(out)@ + self.bin_spec(),
    ;
}

/// A type that both decodes and encodes itself.
pub trait BinaryObject: Binarizable + Debinarizable {

}

/// A type that can check its own invariant after decoding.
pub trait Validatable: Sized {
    /// The invariant checked.
    spec fn valid_spec(&self) -> bool;

    /// Check the invariant.
    fn validate(&self) -> (r: bool)
        ensures
            r == self.valid_spec(),
    ;
}

/// A binary object whose decoder's output always satisfies its invariant.
pub trait StrictBinaryObject: BinaryObject + Validatable {

}

impl Debinarizable for BankEntry {
    open spec fn debin_ok(s: Seq<u8>) -> bool {
        parse_entry(s) is Some
    }

    fn debinarize(reader: &mut PboReader) -> (r: Result<BankEntry, EntryMetadataError>) {
        reader.read_entry()
    }
}

impl Binarizable for BankEntry {
    open spec fn bin_spec(&self) -> Seq<u8> {
        enc_entry(self@)
    }

    fn binarize(&self, out: &mut Vec<u8>) {
        write_entry(out, self);
    }
}

impl BinaryObject for BankEntry {

}

impl Validatable for BankEntry {
    open spec fn valid_spec(&self) -> bool {
        wf_entry(self@)
    }

    fn validate(&self) -> (r: bool) {
        if self.filename.len() > crate::entry::MAX_PATH_LENGTH {
            return false;
        }
        let mut i: usize = 0;
        while i < self.filename.len()
            invariant
                i <= self.filename@.len(),
                forall|j: int|
                    0 <= j < i ==> #[trigger] self.filename@[j] != 0 && crate::path::lower(
                        self.filename@[j],
                    ) == self.filename@[j],
            decreases self.filename@.len() - i,
        {
            let c = self.filename[i];
            if c == 0 || (65 <= c && c <= 90) {
                proof {
                    assert(!wf_entry(self@));
                }
                return false;
            }
            i = i + 1;
        }
        true
    }
}

impl StrictBinaryObject for BankEntry {

}

/// A type that decodes itself under options.
pub trait CustomDebinarizable<O: DebinarizationOptions>: Sized {
    /// Whether decoding the buffer under the options succeeds, and with
    /// which fault it fails otherwise.
    spec fn custom_debin_spec(s: Seq<u8>, options: O) -> Result<(), BankSkimError>;

    /// Decode a whole buffer under options.
    fn debinarize_with_options(data: Vec<u8>, options: O) -> (r: Result<Self, BankSkimError>)
        ensures
            (r is Ok) == (Self::custom_debin_spec(data@, options) is Ok),
            r matches Err(e) ==> Self::custom_debin_spec(data@, options) == Err::<
                (),
                BankSkimError,
            >(e),
    ;
}

impl CustomDebinarizable<BankSkimOptions> for PboFileSkim {
    open spec fn custom_debin_spec(s: Seq<u8>, options: BankSkimOptions) -> Result<
        (),
        BankSkimError,
    > {
        match skim_spec(s, options) {
            Ok(_) => Ok(()),
            Err(e) => Err(e),
        }
    }

    fn debinarize_with_options(data: Vec<u8>, options: BankSkimOptions) -> (r: Result<
        PboFileSkim,
        BankSkimError,
    >) {
        PboReader::skim_archive(data, options)
    }
}

/// A tokenizer: a stream of tokens with a fixed fault type.
pub trait Tokenizer: Sized {
    type Token;

    type Fault;

    /// The next token.
    fn next_token(&mut self) -> Result<Self::Token, Self::Fault>;
}

/// A tokenizer whose reading depends on a scope handed in per call.
pub trait ScopedTokenizer: Sized {
    type Token;

    type Fault;

    type Scope;

    /// The next token under a scope.
    fn next_token_in(&mut self, scope: &Self::Scope) -> Result<Self::Token, Self::Fault>;
}

/// A pass that rewrites a lexer's bytes in place before parsing.
pub trait LexicalPreProcessor: Sized {
    type Fault;

    /// Rewrite the lexer's contents.
    fn process(&mut self, lexer: &mut Lexer) -> Result<(), Self::Fault>;
}

/// A parser from a lexer to a value.
pub trait Parser: Sized {
    type Fault;

    /// Parse one value from the lexer.
    fn try_parse(lexer: &mut Lexer) -> Result<Self, Self::Fault>;
}

} // verus!
