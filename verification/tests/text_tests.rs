//! Tests for the text-processing layers: cursors, macro definitions, and
//! the preprocessor reader.

use rvbank::cursor::{Analyser, BufferedReader, Lexer, MutAnalyser};
use rvbank::define::{Macro, MacroError, replace_bytes};
use rvbank::preproc::{CustomMacro, LexToken, PreProcessor, PreprocessorReader, valid_id_char};

#[test]
fn lexer_walks_and_takes() {
    let mut lx = Lexer::new(b"abc".to_vec(), false);
    assert_eq!(lx.len(), 3);
    assert_eq!(lx.peek(), Some(b'a'));
    assert_eq!(lx.get(), Some(b'a'));
    assert!(lx.take(b'b'));
    assert!(!lx.take(b'z'));
    assert_eq!(lx.pos(), 2);
    assert_eq!(lx.get(), Some(b'c'));
    assert_eq!(lx.get(), None);
}

#[test]
fn lexer_mutation_respects_permission() {
    let mut frozen = Lexer::new(b"abc".to_vec(), false);
    assert!(frozen.insert_contents(b"x").is_err());
    let mut open = Lexer::new(b"abc".to_vec(), true);
    open.set_cursor(1);
    assert!(open.insert_contents(b"XY").is_ok());
    assert_eq!(open.contents, b"aXYbc".to_vec());
    assert!(open.remove_range(1, 3).is_ok());
    assert_eq!(open.contents, b"abc".to_vec());
}

#[test]
fn buffered_reader_get_unget() {
    let mut r = BufferedReader::new(b"ab".to_vec());
    assert_eq!(r.pos(), 0);
    assert_eq!(r.get(), Ok(b'a'));
    assert!(r.unget().is_ok());
    assert_eq!(r.get(), Ok(b'a'));
    assert_eq!(r.get(), Ok(b'b'));
    assert!(r.get().is_err());
    let mut fresh = BufferedReader::new(Vec::new());
    assert!(fresh.unget().is_err());
}

#[test]
fn buffered_reader_get_not_skips_runs() {
    let mut r = BufferedReader::new(b"\r\r\rx".to_vec());
    assert_eq!(r.get_not(b'\r'), Ok(b'x'));
    let mut all_same = BufferedReader::new(b"\r\r".to_vec());
    assert!(all_same.get_not(b'\r').is_err());
}

#[test]
fn replace_rewrites_every_occurrence() {
    let r = replace_bytes(&b"one two one".to_vec(), &b"one".to_vec(), &b"1".to_vec());
    assert_eq!(r, b"1 two 1".to_vec());
    // Substituted text is not rescanned.
    let r = replace_bytes(&b"aa".to_vec(), &b"a".to_vec(), &b"ab".to_vec());
    assert_eq!(r, b"abab".to_vec());
}

#[test]
fn macro_parameters_bind_and_refuse_duplicates() {
    let mut m = Macro::create_simple(Vec::new(), b"BODY".to_vec());
    assert!(!m.takes_params());
    assert!(m.bind_param(b"a".to_vec()).is_ok());
    assert!(m.takes_params());
    assert_eq!(m.bind_param(b"a".to_vec()), Err(MacroError::UnknownMacroParameter));
    assert_eq!(m.parameter_count(), 1);
    m.remove_params();
    assert_eq!(m.parameter_count(), 0);
}

#[test]
fn macro_blocking_counts() {
    let mut m = Macro::create_simple(Vec::new(), Vec::new());
    assert!(!m.blocked());
    m.block();
    m.block();
    assert!(m.blocked());
    m.unblock();
    assert!(m.blocked());
    m.unblock();
    assert!(!m.blocked());
    m.unblock();
    assert!(!m.blocked());
}

#[test]
fn macro_rename_rewrites_body() {
    let mut m = Macro::create_simple(vec![b"x".to_vec()], b"x+x".to_vec());
    let mut name = b"x".to_vec();
    assert!(m.rename_param(&mut name, b"y".to_vec()).is_ok());
    assert_eq!(name, b"y".to_vec());
    assert_eq!(m.get_value(), &b"y+y".to_vec());
    let mut ghost = b"missing".to_vec();
    assert_eq!(
        m.rename_param(&mut ghost, b"z".to_vec()),
        Err(MacroError::UnknownMacroParameter)
    );
}

#[test]
fn macro_evaluate_substitutes_longest_first() {
    // Parameter "ab" must be substituted before "a", whatever the binding
    // order, or "a" would chew into it.
    let m = Macro::create_simple(
        vec![b"a".to_vec(), b"ab".to_vec()],
        b"a ab".to_vec(),
    );
    let r = m.evaluate(&vec![b"1".to_vec(), b"2".to_vec()]).expect("evaluate failed");
    assert_eq!(r, b"1 2".to_vec());
}

#[test]
fn macro_evaluate_checks_arity() {
    let m = Macro::create_simple(vec![b"a".to_vec()], b"a".to_vec());
    assert_eq!(
        m.evaluate(&Vec::new()),
        Err(MacroError::InvalidParameterCount(0, 1))
    );
}

#[test]
fn preprocessor_table_upserts() {
    let mut p = PreProcessor::new();
    assert!(p.add_simple_define(b"ONE".to_vec(), b"1".to_vec()).is_none());
    let displaced = p.add_simple_define(b"ONE".to_vec(), b"uno".to_vec());
    assert!(displaced.is_some());
    assert_eq!(displaced.unwrap().value, b"1".to_vec());
}

#[test]
fn custom_macro_basics() {
    let mut m = CustomMacro::new_simple(b"v".to_vec());
    assert!(!m.has_params());
    let with = CustomMacro::new(b"v".to_vec(), vec![b"p".to_vec()]);
    assert!(with.has_params());
    assert!(!m.blocked());
    m.block();
    assert!(m.blocked());
    m.unblock();
    assert!(!m.blocked());
}

#[test]
fn identifier_characters() {
    assert!(valid_id_char(b'a', true));
    assert!(valid_id_char(b'Z', true));
    assert!(valid_id_char(b'_', true));
    assert!(!valid_id_char(b'7', true));
    assert!(valid_id_char(b'7', false));
    assert!(!valid_id_char(b'-', false));
}

#[test]
fn reader_strips_carriage_returns_and_continuations() {
    let mut r = PreprocessorReader::new(b"a\\\r\nbc".to_vec());
    assert_eq!(r.get(true), Ok(b'a'));
    // The backslash-newline join is swallowed and counted.
    assert_eq!(r.get(true), Ok(b'b'));
    assert_eq!(r.directive_newline_count(), 1);
    r.pop_newline_count();
    assert_eq!(r.directive_newline_count(), 0);
    assert_eq!(r.get(false), Ok(b'c'));
}

#[test]
fn reader_keeps_lone_backslash() {
    let mut r = PreprocessorReader::new(b"\\x".to_vec());
    assert_eq!(r.get(true), Ok(b'\\'));
}

#[test]
fn reader_scans_names_and_strings() {
    let mut r = PreprocessorReader::new(b"name42 rest".to_vec());
    let mut buf = Vec::new();
    assert_eq!(r.scan_name(&mut buf, 128), Ok(6));
    assert_eq!(buf, b"name42".to_vec());
    let mut r2 = PreprocessorReader::new(b"abc>def".to_vec());
    let mut buf2 = Vec::new();
    assert_eq!(r2.scan_string(&mut buf2, 128, b">"), Ok(3));
    assert_eq!(buf2, b"abc".to_vec());
}

#[test]
fn reader_skips_whitespace() {
    let mut r = PreprocessorReader::new(b" \t\rx".to_vec());
    assert_eq!(r.skip_whitespace(), Ok(b'x'));
    // The newline is not skipped.
    let mut r2 = PreprocessorReader::new(b"  \ny".to_vec());
    assert_eq!(r2.skip_whitespace(), Ok(b'\n'));
}

#[test]
fn reader_tokenizes_directive_keywords() {
    let mut r = PreprocessorReader::new(b"include".to_vec());
    let mut text = Vec::new();
    assert_eq!(r.next_token(&mut text, 128), Ok(LexToken::Include));
    let mut r2 = PreprocessorReader::new(b"somename".to_vec());
    let mut text2 = Vec::new();
    assert_eq!(r2.next_token(&mut text2, 128), Ok(LexToken::Text));
    let mut r3 = PreprocessorReader::new(b"(".to_vec());
    let mut text3 = Vec::new();
    assert_eq!(r3.next_token(&mut text3, 128), Ok(LexToken::LeftParenthesis));
    let mut r4 = PreprocessorReader::new(b"//x".to_vec());
    let mut text4 = Vec::new();
    assert_eq!(r4.next_token(&mut text4, 128), Ok(LexToken::LineCommentStart));
    let mut r5 = PreprocessorReader::new(b"##".to_vec());
    let mut text5 = Vec::new();
    assert_eq!(r5.next_token(&mut text5, 128), Ok(LexToken::DoubleHash));
}
