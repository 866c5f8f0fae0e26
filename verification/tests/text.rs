use tool_artifacts::preview::{ceil_char_boundary, floor_char_boundary, head_tail_preview};
use tool_artifacts::text::{
    chars_of, ends_with, is_blank_str, is_white_space_char, join_path, replace_str, split_lines,
    starts_with, str_eq, string_from_range, to_hex_lower,
};

#[test]
fn white_space_matches_std_for_every_char() {
    for u in 0u32..=0x10FFFF {
        if let Some(c) = char::from_u32(u) {
            assert_eq!(is_white_space_char(c), c.is_whitespace(), "U+{:04X}", u);
        }
    }
}

#[test]
fn lines_match_std() {
    let samples = [
        "", "a", "a\n", "a\nb", "a\r\nb\r\n", "\n", "\n\n", "a\rb", "x\r", "x\r\n\r\ny", "αβ\nγ",
    ];
    for s in samples {
        let ours: Vec<String> = split_lines(s);
        let std_lines: Vec<String> = s.lines().map(|l| l.to_string()).collect();
        assert_eq!(ours, std_lines, "{:?}", s);
    }
}

#[test]
fn replace_matches_std() {
    let samples = [
        ("inline_bytes=0", "inline_bytes=0", "inline_bytes=42"),
        ("aaaa", "aa", "b"),
        ("abcabc", "bc", ""),
        ("no match", "zz", "y"),
        ("xinline_bytes=0inline_bytes=00", "inline_bytes=0", "N"),
    ];
    for (s, p, r) in samples {
        assert_eq!(replace_str(s, p, r), s.replace(p, r));
    }
}

#[test]
fn prefixes_suffixes_and_equality() {
    assert!(starts_with("abc.txt", "abc"));
    assert!(!starts_with("ab", "abc"));
    assert!(ends_with("abc.txt", ".txt"));
    assert!(!ends_with("abc.tx", ".txt"));
    assert!(str_eq("αβ", "αβ"));
    assert!(!str_eq("αβ", "αγ"));
    assert!(is_blank_str(" \t\n\u{3000}"));
    assert!(!is_blank_str("  x "));
    assert_eq!(chars_of("aβ"), vec!['a', 'β']);
    assert_eq!(string_from_range(&vec!['a', 'b', 'c'], 1, 3), "bc");
}

#[test]
fn hex_is_lowercase_and_padded() {
    assert_eq!(to_hex_lower(&[0x0a, 0x14, 0x1e, 0xff]), "0a141eff");
    assert_eq!(to_hex_lower(&[]), "");
}

#[test]
fn paths_join_like_unix_pathbuf() {
    assert_eq!(join_path("/root", "a"), "/root/a");
    assert_eq!(join_path("/root/", "a"), "/root/a");
    assert_eq!(join_path("", "a"), "a");
    assert_eq!(join_path("/root", "/abs"), "/abs");
    for (b, p) in [("/root", "a"), ("/root/", "a"), ("", "a"), ("/x", "/y"), (".", ".jcode")] {
        assert_eq!(join_path(b, p), std::path::Path::new(b).join(p).to_str().unwrap());
    }
}

#[test]
fn preview_respects_utf8() {
    let text = "αβγδ".repeat(2000);
    let preview = head_tail_preview(&text, 1537, 1537);
    assert!(preview.contains("..."));
}

#[test]
fn preview_keeps_short_text_whole() {
    assert_eq!(head_tail_preview("hello", 3, 2), "hello");
    assert_eq!(head_tail_preview("hello", 0, 10), "hello");
}

#[test]
fn preview_cuts_at_char_boundaries() {
    // "αβγδ" is 8 bytes; 3 head bytes keep "α", 3 tail bytes keep "δ".
    assert_eq!(head_tail_preview("αβγδ", 3, 3), "α\n...\nδ");
    assert_eq!(head_tail_preview("abcdefghij", 2, 3), "ab\n...\nhij");
    assert_eq!(head_tail_preview("abcdefghij", 0, 0), "\n...\n");
    let text = "αβγδ".repeat(2000);
    let preview = head_tail_preview(&text, 1537, 1537);
    assert_eq!(preview.len(), 1536 + 5 + 1536);
    assert!(text.starts_with(preview.split("\n...\n").next().unwrap()));
}

#[test]
fn boundaries_round_to_whole_chars() {
    let s = "aβc"; // bytes: a(0) β(1,2) c(3)
    assert_eq!(floor_char_boundary(s, 2), 1);
    assert_eq!(floor_char_boundary(s, 3), 3);
    assert_eq!(floor_char_boundary(s, 10), 4);
    assert_eq!(ceil_char_boundary(s, 2), 3);
    assert_eq!(ceil_char_boundary(s, 0), 0);
    assert_eq!(ceil_char_boundary(s, 9), 9);
}
