use luaux_lsp::decimal::{decimal, parse};
use luaux_lsp::pieces::{
    first_char, has_char, is_name, lines, next_word, split_once, strip_prefix, strip_suffix,
};
use luaux_lsp::prose::{around, fence, join, replace};
use luaux_lsp::text::{find, get, is_before, rfind, trim, Edge};
use luaux_lsp::versions::locked_version;

#[test]
fn numbers_are_written_and_read_back() {
    for n in [0, 7, 10, 4096, usize::MAX] {
        assert_eq!(decimal(n), format!("{n}"));
        assert_eq!(parse(&decimal(n)), Some(n));
    }
}

#[test]
fn what_is_not_a_number_is_refused() {
    assert_eq!(parse("+12"), Some(12));
    for text in ["", "+", "-1", "1 ", "1a", "++1", "99999999999999999999999"] {
        assert_eq!(parse(text), None, "{text:?}");
    }
}

#[test]
fn texts_are_cut_where_asked() {
    assert_eq!(split_once("a: b: c", ':'), Some(("a", " b: c")));
    assert_eq!(split_once("abc", ':'), None);
    assert_eq!(strip_prefix("<Frame", "<"), Some("Frame"));
    assert_eq!(strip_suffix("Frame", "<"), None);
    assert_eq!(first_char("éa"), Some(("é", "a")));
    assert_eq!(next_word("  two words"), Some(("two", " words")));
    assert_eq!(lines("a\r\nb\n\nc"), ["a", "b", "", "c"]);
    assert_eq!(lines("a\n"), ["a"]);
    assert!(has_char("a.b", '.') && !has_char("ab", '.'));
}

#[test]
fn texts_are_trimmed_at_both_ends() {
    assert_eq!(trim(" \u{a0}a b\t\n", Edge::White), "a b");
    assert_eq!(trim("\"'a'\"", Edge::Quotes), "a");
    assert_eq!(trim("\"'a'\"", Edge::DoubleQuotes), "'a'");
    assert_eq!(trim("   ", Edge::White), "");
}

#[test]
fn texts_are_searched_by_byte() {
    assert_eq!((find("ababa", "aba"), rfind("ababa", "aba")), (Some(0), Some(2)));
    assert_eq!(find("é<", "<"), Some(2));
    assert_eq!(get("é<", 1, 2), None);
    assert!(is_before("Zed", "ach") && !is_before("a", "a") && is_before("a", "ab"));
}

#[test]
fn a_plain_name_is_told_from_anything_else() {
    assert!(is_name("_a1") && is_name("Frame"));
    assert!(!is_name("") && !is_name("1a") && !is_name("a-b") && !is_name("é"));
}

#[test]
fn texts_are_put_together() {
    assert_eq!(around("<", "a", ">"), "<a>");
    assert_eq!(fence("x"), "```luau\nx\n```");
    assert_eq!(join(&vec!["a".into(), "b".into(), "c".into()], ", "), "a, b, c");
    assert_eq!(join(&vec![], ", "), "");
    assert_eq!(replace("aaa", "aa", "b"), "ba");
    assert_eq!(replace("x<b>y<b>", "<b>", "<b><b>"), "x<b><b>y<b><b>");
}

#[test]
fn a_lockfile_says_which_version_was_resolved() {
    let lock = "version = 4\n\n[[package]]\nname = \"luau\"\nversion = \"9.9.9\"\n\n\
                [[package]]\nname = \"luaux\"\nversion = \"0.1.3\"\n";
    assert_eq!(locked_version(lock, "luaux").as_deref(), Some("0.1.3"));
    assert_eq!(locked_version(lock, "luau").as_deref(), Some("9.9.9"));
    assert_eq!(locked_version(lock, "serde"), None);
}
