use stellar_archivist::kinds::{kinds_asked_for, Kind, ALL_KINDS};
use stellar_archivist::paths::{lies_below, path_below, rel_key};
use stellar_archivist::text::{
    ascii, comma_list, has_text, has_text_slashed, is_white_space, same_text, text_at_most,
};
use std::path::Path;

#[test]
fn a_key_is_the_path_below_the_archive() {
    assert_eq!(rel_key("/a/b/c.gz", "/a"), "b/c.gz");
    assert_eq!(rel_key("/a/b/c.gz", "/a/"), "b/c.gz");
    assert_eq!(rel_key("b\\c.gz", ""), "b/c.gz");
    assert_eq!(rel_key("/a/b\\c.gz", "/a"), "b/c.gz");
    assert_eq!(rel_key("/a", "/a"), "");
    assert_eq!(rel_key("/a//x", "/a"), "x");
    assert!(!lies_below("/ab/c.gz", "/a"));
    assert!(!lies_below("/archive2/x", "/archive"));
    assert!(!lies_below("x", "/a"));
    assert!(!lies_below("/a", "a"));
}

#[test]
fn keys_are_as_the_standard_library_strips_paths() {
    let texts = [
        "", "/", ".", "..", "a", "/a", "a/", "/a/", "a/b", "/a/b", "/a//b", "/a/./b", "./a", "./a/b",
        "a/..", "a/../b", "/a/b/", "/a/b//", "/a/b/.", "//a", "//a/b", "/./a", "a/.", ".well-known/x",
        "/a/.hidden", "/a/b/c", "/a/b//c", "/a/b/./c/", "é/b", "/é/b",
    ];
    for abs in texts {
        for base in texts {
            match Path::new(abs).strip_prefix(base) {
                Ok(rest) => {
                    assert!(lies_below(abs, base), "{abs:?} below {base:?}");
                    assert_eq!(rel_key(abs, base), rest.to_str().unwrap(), "{abs:?} below {base:?}");
                }
                Err(_) => assert!(!lies_below(abs, base), "{abs:?} below {base:?}"),
            }
        }
    }
}

#[test]
fn a_key_joined_to_its_archive_is_the_path() {
    for (abs, base) in [("/a//b/./c/", "/a"), ("/a/b", "/a/b/"), ("x/y", "x"), ("./x/y", "./x")] {
        let key = rel_key(abs, base);
        assert_eq!(Path::new(base).join(&key), Path::new(abs));
        assert_eq!(Path::new(&path_below(base, &key)), Path::new(abs));
    }
    assert_eq!(path_below("/a", "b/c"), "/a/b/c");
    assert_eq!(path_below("/a/", "b/c"), "/a/b/c");
    assert_eq!(path_below("", "b/c"), "b/c");
    assert_eq!(rel_key(&path_below("/a", ".well-known/stellar-history.json"), "/a"), ".well-known/stellar-history.json");
}

#[test]
fn white_space_is_that_of_unicode() {
    for n in 0..=0x10ffffu32 {
        if let Some(c) = char::from_u32(n) {
            assert_eq!(is_white_space(c), c.is_whitespace());
        }
    }
}

#[test]
fn texts_are_searched_and_compared() {
    assert!(has_text("bucket/ledger-00.xdr.gz", ".xdr.gz"));
    assert!(!has_text("ledger-00.xdr", ".xdr.gz"));
    assert!(has_text("abc", ""));
    assert!(!has_text("", "a"));
    assert!(has_text_slashed("a\\ledger-1", "/ledger-"));
    assert!(!has_text("a\\ledger-1", "/ledger-"));
    assert!(same_text("é", "é"));
    assert!(!same_text("a", "ab"));
    assert!(text_at_most("a", "a"));
    assert!(text_at_most("a", "ab"));
    assert!(!text_at_most("ab", "a"));
    assert!(text_at_most("ledger-0000003f", "ledger-0000007f"));
    assert!(!text_at_most("é", "z"));
    assert_eq!(ascii("ab c"), b"ab c".to_vec());
}

#[test]
fn a_list_is_split_at_commas_and_trimmed() {
    assert_eq!(comma_list("truncate, byte-flip"), vec!["truncate", "byte-flip"]);
    assert_eq!(comma_list(" a ,,\tb\u{3000}"), vec!["a", "", "b"]);
    assert_eq!(comma_list(""), vec![""]);
    assert_eq!(comma_list("a b"), vec!["a b"]);
}

#[test]
fn all_asks_for_the_whole_menu() {
    assert_eq!(kinds_asked_for("all"), ALL_KINDS.to_vec());
    assert_eq!(kinds_asked_for("truncate,well-known"), vec!["truncate", "well-known"]);
}

#[test]
fn each_name_on_the_menu_is_that_of_one_kind() {
    assert_eq!(
        ALL_KINDS,
        [
            "delete-file",
            "truncate",
            "byte-flip",
            "invalid-gzip",
            "bucket-hash",
            "ledger-header-hash",
            "drop-ledger",
            "txset-hash",
            "result-hash",
            "intra-chain",
            "cross-chain",
            "well-known",
        ]
    );
    for name in ALL_KINDS {
        assert_eq!(Kind::parse(name).unwrap().name(), name);
    }
    assert_eq!(Kind::parse("Truncate"), None);
    assert_eq!(Kind::parse(""), None);
}
