//! Paths, held against the paths of the standard library, and text.

use gap_sys::handle::{hex_str_to_ptr, AddressError, GapRef};
use gap_sys::path::{display_paths, push_unique, PosixPath};
use gap_sys::runtime_roots::push_unique_path;
use gap_sys::text::{
    ends_with, has_nul, join_texts, lines, number_text, same_text, signed_text, starts_with, trim,
};
use std::path::Path;

const SPELLINGS: [&str; 26] = [
    "", ".", "..", "/", "//", "/.", "/..", "./", "./.", "a", "a/", "a//", "a/.", "a/./", "a/./b",
    "a//b", "./a", "././a", "/a", "/a/", "/a/./b/", "/./a", "a/..", "../a", ".a", "/a/.b/c.",
];

fn path(text: &str) -> PosixPath {
    PosixPath::from_text(text)
}

#[test]
fn paths_are_the_same_when_their_parts_are() {
    for one in SPELLINGS {
        for other in SPELLINGS {
            assert_eq!(
                path(one) == path(other),
                Path::new(one) == Path::new(other),
                "{one:?} and {other:?}"
            );
        }
    }
}

#[test]
fn parents_drop_the_last_part() {
    for one in SPELLINGS {
        assert_eq!(
            path(one).parent().map(|parent| parent.display()),
            Path::new(one).parent().map(|parent| parent.display().to_string()),
            "{one:?}"
        );
    }
}

#[test]
fn ancestors_come_nearest_first() {
    for one in SPELLINGS {
        for count in 0..6 {
            let expected: Vec<String> = Path::new(one)
                .ancestors()
                .take(count)
                .map(|above| above.display().to_string())
                .collect();
            let found: Vec<String> = path(one)
                .ancestors(count)
                .iter()
                .map(|above| above.display())
                .collect();
            assert_eq!(found, expected, "{one:?}");
        }
    }
}

#[test]
fn joining_puts_one_separator() {
    for one in SPELLINGS {
        for other in SPELLINGS {
            assert_eq!(
                path(one).join(other).display(),
                Path::new(one).join(other).display().to_string(),
                "{one:?} and {other:?}"
            );
        }
    }
}

#[test]
fn lists_hold_each_path_once() {
    let mut list = vec![];
    push_unique(&mut list, path("/a/b"));
    push_unique(&mut list, path("/a//b/"));
    push_unique_path(&mut list, path("/a"));
    push_unique_path(&mut list, path("/a/./b"));
    assert_eq!(list.len(), 2);
    assert_eq!(display_paths(&list), "/a/b, /a");
    assert_eq!(display_paths(&vec![]), "<none>");
}

#[test]
fn paths_that_are_no_text_are_shown_with_replacements() {
    let odd = PosixPath { bytes: b"/a\xff\xfe/b".to_vec() };
    assert_eq!(odd.display(), "/a\u{fffd}\u{fffd}/b");
}

#[test]
fn white_space_is_that_of_unicode() {
    for code in 0..=0x11_0000 {
        if let Some(c) = char::from_u32(code) {
            if c.is_whitespace() || code < 0x3100 {
                let text = format!("{c}x{c}");
                assert_eq!(trim(&text), text.trim(), "{code:x}");
            }
        }
    }
    assert_eq!(trim(" \t\n"), "");
    assert_eq!(trim(""), "");
}

#[test]
fn lines_end_at_line_feeds() {
    assert_eq!(lines("a\nb\n"), ["a", "b"]);
    assert_eq!(lines("a\n\nb"), ["a", "", "b"]);
    assert_eq!(lines("\n"), [""]);
    assert!(lines("").is_empty());
    assert_eq!(lines("a\r\nb"), ["a\r", "b"]);
}

#[test]
fn texts_are_compared_by_character() {
    assert!(starts_with("gap> x", "gap>"));
    assert!(!starts_with("ga", "gap>"));
    assert!(starts_with("gap", ""));
    assert!(ends_with("libgap.dylib", ".dylib"));
    assert!(!ends_with("dylib", ".dylib"));
    assert!(ends_with("gap", ""));
    assert!(same_text("\u{e9}", "\u{e9}"));
    assert!(!same_text("a", "b"));
    assert!(!same_text("a", "ab"));
    assert!(has_nul("a\0b"));
    assert!(!has_nul("ab"));
    let pieces = vec!["a".to_string(), "b".to_string(), "c".to_string()];
    assert_eq!(join_texts(&pieces, ", "), "a, b, c");
    assert_eq!(join_texts(&vec![], ", "), "");
}

#[test]
fn numbers_are_written_as_usual() {
    for value in [0, 1, -1, 9, 10, -10, 42, i64::MAX, i64::MIN] {
        assert_eq!(signed_text(value), value.to_string());
    }
    for value in [0, 9, 10, 15, 16, 255, 4096, u64::MAX] {
        assert_eq!(number_text(value, 16), format!("{value:x}"));
        assert_eq!(number_text(value, 2), format!("{value:b}"));
    }
}

#[test]
fn addresses_come_back() {
    for obj in [0, 1, 15, 16, 0xdead_beef, usize::MAX] {
        let handle = GapRef { obj };
        assert_eq!(handle.to_address(), format!("{obj:#x}"));
        assert_eq!(GapRef::from_address(&handle.to_address()), Ok(handle));
        assert_eq!(GapRef::from_address(&format!(" {} \n", handle.to_address())), Ok(handle));
    }
}

#[test]
fn addresses_are_read_as_hexadecimal_numbers() {
    for text in [
        "", "0x", "0x0x", "0x0x1f", "1F", "+1f", "0x+1f", "-1", "+", "-", "++1", "0x1g", "1 2",
        "ffffffffffffffff", "10000000000000000", "1000000000000000g", "g0000000000000000000",
        "0X1f", "00000000000000000000001f",
    ] {
        let expected = usize::from_str_radix(text.trim_start_matches("0x"), 16);
        match hex_str_to_ptr(text) {
            Ok(obj) => assert_eq!(Ok(obj), expected, "{text:?}"),
            Err(error) => {
                let kind = expected.unwrap_err().kind().clone();
                let same = match error {
                    AddressError::Empty => std::num::IntErrorKind::Empty,
                    AddressError::InvalidDigit => std::num::IntErrorKind::InvalidDigit,
                    AddressError::Overflow => std::num::IntErrorKind::PosOverflow,
                };
                assert_eq!(kind, same, "{text:?}");
            }
        }
    }
}
