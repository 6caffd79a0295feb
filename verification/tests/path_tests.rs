//! Path normalization tests.

use rvbank::path::{convert_dir_slash, normalize_path};

#[test]
fn normalize_collapses_and_lower_cases() {
    let r = normalize_path(b"Foo//Bar\\\\Baz.TXT", false);
    assert_eq!(r, b"foo\\bar\\baz.txt".to_vec());
}

#[test]
fn normalize_drops_leading_separators() {
    let r = normalize_path(b"/leading/dir", false);
    assert_eq!(r, b"leading\\dir".to_vec());
}

#[test]
fn normalize_trailing_separator_depends_on_directory_flag() {
    assert_eq!(normalize_path(b"a/b/", false), b"a\\b".to_vec());
    assert_eq!(normalize_path(b"a/b/", true), b"a\\b\\".to_vec());
}

#[test]
fn normalize_empty_is_empty() {
    assert_eq!(normalize_path(b"", false), Vec::<u8>::new());
    assert_eq!(normalize_path(b"", true), Vec::<u8>::new());
}

#[test]
fn normalize_separators_only() {
    assert_eq!(normalize_path(b"///", false), Vec::<u8>::new());
}

#[test]
fn normalize_is_idempotent_on_samples() {
    for sample in [
        b"A//b\\C/".as_slice(),
        b"".as_slice(),
        b"///x///Y///".as_slice(),
        b"plain".as_slice(),
    ] {
        for directory in [false, true] {
            let once = normalize_path(sample, directory);
            let twice = normalize_path(&once, directory);
            assert_eq!(once, twice);
        }
    }
}

#[test]
fn convert_touches_only_forward_slashes() {
    assert_eq!(convert_dir_slash(&b"a/b\\C".to_vec()), b"a\\b\\C".to_vec());
    assert_eq!(convert_dir_slash(&b"nochange".to_vec()), b"nochange".to_vec());
}
