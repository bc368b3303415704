//! Texts, names, lines and reports.

use openchoice::catalog::base_name;
use openchoice::catalog::names::same_weights;
use openchoice::line::{terminal_text, Action, LineEditor, LINE_MAX};
use openchoice::page::Page;
use openchoice::report::ReportBuf;
use openchoice::sort::{place, sort};
use openchoice::text;

#[test]
fn white_space_is_cut_as_the_standard_library_cuts_it() {
    let spaces = [
        "\u{9}", "\u{a}", "\u{b}", "\u{c}", "\u{d}", " ", "\u{85}", "\u{a0}", "\u{1680}",
        "\u{2000}", "\u{2005}", "\u{200a}", "\u{2028}", "\u{2029}", "\u{202f}", "\u{205f}",
        "\u{3000}",
    ];
    for s in spaces {
        for inner in ["", "x", "déjà vu", "\u{200b}", "á b"] {
            let padded = format!("{s} {inner}{s}{s}");
            assert_eq!(text::trim(&padded), padded.trim(), "{padded:?}");
            assert_eq!(text::trim_start(&padded), padded.trim_start(), "{padded:?}");
            assert_eq!(text::trim_end(&padded), padded.trim_end(), "{padded:?}");
        }
    }
    for kept in ["\u{200b}", "\u{1c}", "\u{feff}", "\u{180e}", "\u{200d}"] {
        assert_eq!(text::trim(kept), kept.trim(), "{kept:?}");
    }
}

#[test]
fn texts_are_compared_and_searched() {
    assert!(text::equal(b"abc", b"abc") && !text::equal(b"abc", b"abd"));
    assert!(text::equal_ignoring_case(b"RTX 4090", b"rtx 4090"));
    assert!(!text::equal_ignoring_case(b"rtx", b"rtx "));
    assert!(text::equal_in_lower(b"GooD", b"good") && !text::equal_in_lower(b"good", b"GooD"));
    assert!(text::equal_in_upper(b"q8_0", b"Q8_0") && !text::equal_in_upper(b"q8_0", b"q8_0"));
    assert!(text::contains(b"llama-3", b"ma-") && !text::contains(b"llama", b"llama-3"));
    assert!(text::contains(b"anything", b""));
    assert!(text::contains_ignoring_case(b"NVIDIA GeForce", b"geforce"));
    assert!(text::lower_contains(b"NVIDIA", b"vid") && !text::lower_contains(b"NVIDIA", b"VID"));
    assert!(text::begins(b"gpu50", b"gpu") && !text::begins(b"gp", b"gpu"));
    assert!(text::ends(b"a.gguf", b".gguf") && !text::ends(b"gguf", b".gguf"));
    assert!(text::is_before(b"abc", b"abd") && text::is_before(b"ab", b"abc"));
    assert!(!text::is_before(b"b", b"abc") && !text::is_before(b"a", b"a"));
    assert!(text::same("ä", "ä") && !text::same("ä", "a"));
    assert_eq!(text::lower_copy(b"Qwen3-8B"), b"qwen3-8b");
    assert_eq!(text::nothing(), "");
}

#[test]
fn numbers_are_read_as_the_standard_library_reads_them() {
    for s in ["0", "7", "+7", "007", "4294967295", "4294967296", "", "+", "-1", "1 ", "1.5", "x"] {
        assert_eq!(text::read_u32(s.as_bytes()), s.parse::<u32>().ok(), "{s:?}");
    }
    for s in ["18446744073709551615", "18446744073709551616", "99999999999999999999999", "+0"] {
        assert_eq!(text::read_number(s.as_bytes(), u64::MAX), s.parse::<u64>().ok(), "{s:?}");
    }
    assert_eq!(text::read_number(b"41", 40), None);
    assert_eq!(text::read_plain_u32(b"42"), Some(42));
    assert_eq!(text::read_plain_u32(b"+42"), None);
}

#[test]
fn strings_are_parted_at_a_byte() {
    assert_eq!(text::split_once("gpu rtx 4090", b' '), ("gpu", "rtx 4090"));
    assert_eq!(text::split_once("help", b' '), ("help", ""));
    for s in ["", ",", "a", "a,b", ",a,", "é,ü,", "a,,b"] {
        let theirs: Vec<&str> = s.split(',').collect();
        assert_eq!(text::split(s, b','), theirs, "{s:?}");
    }
}

#[test]
fn strings_are_cut_between_characters() {
    assert_eq!(text::shorten("short", 40), "short");
    assert_eq!(text::shorten("déjà", 2), "d");
    assert_eq!(text::shorten("déjà", 3), "dé");
    assert_eq!(text::shorten("日本語", 5), "日");
    assert_eq!(text::count_chars("日本語"), 3);
}

#[test]
fn repackages_come_to_the_same_weights() {
    assert_eq!(base_name("unsloth/Qwen3-8B-GGUF"), "Qwen3-8B");
    assert_eq!(base_name("org/gpt-oss-20b-MXFP4-Q8"), "gpt-oss-20b");
    assert!(same_weights("a/Qwen3-8B", "b/qwen3-8b-awq"));
    assert!(!same_weights("a/Qwen3-8B", "a/Qwen3-14B"));
}

#[test]
fn a_line_is_typed_erased_and_sent() {
    let mut line = LineEditor::new();
    for b in *b"gi" {
        assert!(matches!(line.feed(b), Action::Echo(x) if x == b));
    }
    assert!(matches!(line.feed(0x7f), Action::Erase));
    assert_eq!(line.as_str(), "g");
    assert!(matches!(line.feed(b'o'), Action::Echo(b'o')));
    assert!(matches!(line.feed(b'\r'), Action::Submit));
    assert_eq!(line.as_str(), "go");
    line.clear();
    assert_eq!(line.as_str(), "");
    assert!(matches!(line.feed(8), Action::Ignore));
    assert!(matches!(line.feed(7), Action::Ignore));
}

#[test]
fn a_line_takes_no_more_than_it_holds() {
    let mut line = LineEditor::new();
    for _ in 0..LINE_MAX {
        assert!(matches!(line.feed(b'x'), Action::Echo(b'x')));
    }
    assert!(matches!(line.feed(b'y'), Action::Ignore));
    assert_eq!(line.as_str().len(), LINE_MAX);
}

#[test]
fn a_terminal_gets_its_carriage_returns() {
    assert_eq!(terminal_text(b"one\ntwo"), b"one\r\ntwo\r\n");
}

#[test]
fn a_report_says_when_it_is_full() {
    let mut out: ReportBuf<8> = ReportBuf::new();
    assert!(out.is_empty() && !out.overflowed());
    out.write_str("four");
    assert_eq!((out.as_str(), out.len(), out.overflowed()), ("four", 4, false));
    out.write_str("déjà vu");
    assert!(out.overflowed());
    assert_eq!(out.as_str(), "fourdéj");
    out.clear();
    assert!(out.is_empty() && !out.overflowed());
}

#[test]
fn a_page_lays_out_columns() {
    let mut page = Page::new();
    page.left("é", 3);
    page.right(b"42", 4);
    page.spaces(1);
    page.decimal(7);
    page.say("|");
    page.left("too long", 3);
    page.right(b"12345", 3);
    assert_eq!(page.as_bytes(), format!("{:<3}{:>4} {}|{:<3}{:>3}", "é", 42, 7, "too long", 12345).as_bytes());
}

#[test]
fn sorting_keeps_ties_as_they_came() {
    let v: Vec<(u32, u16, u8)> = vec![(3, 1, 0), (1, 2, 0), (3, 3, 0), (2, 4, 0), (1, 5, 0)];
    let mut theirs = v.clone();
    theirs.sort_by_key(|f| f.0);
    let ours = sort(v);
    assert_eq!(ours, theirs);
    assert_eq!(sort(ours.clone()), ours);
    let mut out = ours;
    assert_eq!(place(&mut out, (2, 6, 0)), 3);
    assert_eq!(out[3], (2, 6, 0));
}
