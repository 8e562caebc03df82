use cindex::entry::{
    entry_key_n, entry_levels_count, entry_levels_push, entry_page_commands_set, entry_pages_push,
    entry_pages_raw_set, entry_range_set,
};
use cindex::strref::{
    char_next, cmp, encode_utf8, from_i64, graphemes_next, head, is_alphabetic, is_numeric,
    is_valid, len_utf8, line_next, slice, split_word_bounds_next, unicode_words_next,
    split_char_next, split_spaces_next, split_str_next, strlen, trim_ascii_spaces,
};
use cindex::{IndexEntry, IndexPage, RangeKind};

#[test]
fn strlen_stops_at_the_terminator() {
    assert_eq!(strlen(b"abc\0def\0"), 3);
    assert_eq!(strlen(b"\0"), 0);
}

#[test]
fn byte_strings_compare_lexicographically() {
    assert_eq!(cmp(Some(&b"abc"[..]), Some(&b"abd"[..])), -1);
    assert_eq!(cmp(Some(&b"abc"[..]), Some(&b"abc"[..])), 0);
    assert_eq!(cmp(Some(&b"b"[..]), Some(&b"abc"[..])), 1);
    assert_eq!(cmp(Some(&b"ab"[..]), Some(&b"abc"[..])), -1);
    assert_eq!(cmp(Some(&b""[..]), Some(&b""[..])), 0);
    assert_eq!(cmp(None, Some(&b"a"[..])), -2);
    assert_eq!(cmp(Some(&b"a"[..]), None), -2);
    let words: [&[u8]; 5] = [b"", b"a", b"ab", b"b", "\u{e9}".as_bytes()];
    for x in words {
        for y in words {
            assert_eq!(cmp(Some(x), Some(y)), -cmp(Some(y), Some(x)));
            assert_eq!(cmp(Some(x), Some(y)) == 0, x == y);
        }
    }
}

#[test]
fn slices_keep_to_character_boundaries() {
    let s = "héllo".as_bytes();
    assert_eq!(slice(s, 0, 1), Some(&b"h"[..]));
    assert_eq!(slice(s, 0, 2), None);
    assert_eq!(slice(s, 1, 3), Some("é".as_bytes()));
    assert_eq!(slice(s, 2, 5), None);
    assert_eq!(slice(s, 1, 100), Some("éllo".as_bytes()));
    assert_eq!(slice(s, 3, 2), None);
    assert_eq!(slice(s, 6, 6), Some(&b""[..]));
    assert_eq!(slice(s, 7, 9), None);
}

#[test]
fn head_decodes_the_first_character() {
    assert_eq!(head(b"A"), 65);
    assert_eq!(head("é!".as_bytes()), 0xE9);
    assert_eq!(head("€".as_bytes()), 0x20AC);
    assert_eq!(head("😀".as_bytes()), 0x1F600);
    assert_eq!(head(b""), 0);
    assert_eq!(head(&[0xC3]), u32::MAX);
    assert_eq!(head(&[0xC0, 0x80]), u32::MAX);
    assert_eq!(head(&[0x80]), u32::MAX);
    assert_eq!(head(&[0xED, 0xA0, 0x80]), u32::MAX);
    assert_eq!(head(&[0xF4, 0x90, 0x80, 0x80]), u32::MAX);
    assert_eq!(head(&[0xF5, 0x80, 0x80, 0x80]), u32::MAX);
}

#[test]
fn char_next_walks_the_characters() {
    let mut s = "hé";
    assert_eq!(char_next(&mut s), 'h' as u32);
    assert_eq!(s, "é");
    assert_eq!(char_next(&mut s), 0xE9);
    assert_eq!(s, "");
    assert_eq!(char_next(&mut s), u32::MAX);
    assert_eq!(s, "");
}

#[test]
fn line_next_drops_the_terminators() {
    let mut s: &[u8] = b"foo\r\nbar\n\nbaz\r";
    assert_eq!(line_next(&mut s), Some(&b"foo"[..]));
    assert_eq!(s, b"bar\n\nbaz\r");
    assert_eq!(line_next(&mut s), Some(&b"bar"[..]));
    assert_eq!(line_next(&mut s), Some(&b""[..]));
    assert_eq!(line_next(&mut s), Some(&b"baz\r"[..]));
    assert_eq!(s, b"");
    assert_eq!(line_next(&mut s), None);
}

#[test]
fn split_char_next_takes_the_pieces() {
    let mut s = "a,b,,c";
    let c = ',' as u32;
    assert_eq!(split_char_next(&mut s, c), Some("a"));
    assert_eq!(s, "b,,c");
    assert_eq!(split_char_next(&mut s, c), Some("b"));
    assert_eq!(split_char_next(&mut s, c), Some(""));
    assert_eq!(split_char_next(&mut s, c), Some("c"));
    assert_eq!(s, "");
    assert_eq!(split_char_next(&mut s, c), None);
    let mut t = "x,y";
    assert_eq!(split_char_next(&mut t, 0xD800), None);
    assert_eq!(t, "x,y");
    let mut u = "aéb";
    assert_eq!(split_char_next(&mut u, 0xE9), Some("a"));
    assert_eq!(u, "b");
}

#[test]
fn split_str_next_takes_the_pieces() {
    let mut s = "a::b::";
    assert_eq!(split_str_next(&mut s, "::"), Some("a"));
    assert_eq!(s, "b::");
    assert_eq!(split_str_next(&mut s, "::"), Some("b"));
    assert_eq!(s, "");
    assert_eq!(split_str_next(&mut s, "::"), None);
    let mut t = "abc";
    assert_eq!(split_str_next(&mut t, "x"), Some("abc"));
    assert_eq!(t, "");
    let mut u = "ab";
    assert_eq!(split_str_next(&mut u, ""), Some(""));
    assert_eq!(u, "ab");
}

#[test]
fn split_spaces_next_takes_the_words() {
    let mut s: &[u8] = b"foo  bar\tbaz ";
    assert_eq!(split_spaces_next(&mut s), Some(&b"foo"[..]));
    assert_eq!(s, b"bar\tbaz ");
    assert_eq!(split_spaces_next(&mut s), Some(&b"bar"[..]));
    assert_eq!(s, b"baz ");
    assert_eq!(split_spaces_next(&mut s), Some(&b"baz"[..]));
    assert_eq!(s, b"");
    assert_eq!(split_spaces_next(&mut s), None);
    let mut blank: &[u8] = b" \t\r\n";
    assert_eq!(split_spaces_next(&mut blank), None);
    assert_eq!(blank, b"");
}

#[test]
fn split_spaces_step_counts_from_the_word_start() {
    let mut s: &[u8] = b"  ab cd";
    assert_eq!(split_spaces_next(&mut s), Some(&b"ab"[..]));
    assert_eq!(s, b"b cd");
}

#[test]
fn trims_ascii_white_space() {
    let s = b"  a b \t";
    assert_eq!(trim_ascii_spaces(s, true, true), b"a b");
    assert_eq!(trim_ascii_spaces(s, true, false), b"a b \t");
    assert_eq!(trim_ascii_spaces(s, false, true), b"  a b");
    assert_eq!(trim_ascii_spaces(s, false, false), s);
    assert_eq!(trim_ascii_spaces(b" \x0C\r\n", true, true), b"");
    assert_eq!(trim_ascii_spaces(b"\x0Bx\x0B", true, true), b"\x0Bx\x0B");
}

#[test]
fn code_points() {
    assert_eq!(from_i64(-5), 0);
    assert_eq!(from_i64(65), 65);
    assert_eq!(from_i64(0xD800), 0xD800);
    assert_eq!(from_i64(1 << 40), u32::MAX);
    assert!(is_valid(0x41));
    assert!(!is_valid(0xD800));
    assert!(!is_valid(0x110000));
    assert!(is_alphabetic('a' as u32));
    assert!(is_alphabetic(0x4E01));
    assert!(!is_alphabetic('1' as u32));
    assert!(!is_alphabetic(0xD800));
    assert!(is_numeric('7' as u32));
    assert!(is_numeric(0xBD));
    assert!(!is_numeric('x' as u32));
    assert!(!is_numeric(0x110000));
    assert_eq!(len_utf8(0x41), 1);
    assert_eq!(len_utf8(0xE9), 2);
    assert_eq!(len_utf8(0x20AC), 3);
    assert_eq!(len_utf8(0x1F600), 4);
    assert_eq!(len_utf8(0xD800), 0);
    let mut buf = [9u8; 5];
    assert!(encode_utf8(0xE9, &mut buf));
    assert_eq!(buf, [0xC3, 0xA9, 9, 9, 9]);
    assert!(encode_utf8(0x1F600, &mut buf));
    assert_eq!(buf, [0xF0, 0x9F, 0x98, 0x80, 9]);
    let before = buf;
    assert!(!encode_utf8(0xD800, &mut buf));
    assert_eq!(buf, before);
}

#[test]
fn entries_built_field_by_field() {
    let mut e = IndexEntry {
        levels: vec![],
        range: RangeKind::Plain,
        page_commands: None,
        pages: vec![],
        pages_raw: String::new(),
    };
    entry_levels_push(&mut e, Some("alpha"), "Alpha");
    entry_levels_push(&mut e, None, "beta");
    assert_eq!(entry_levels_count(&e), 2);
    assert_eq!(entry_key_n(&e, 0), Some("alpha"));
    assert_eq!(entry_key_n(&e, 1), Some("beta"));
    assert_eq!(entry_key_n(&e, 2), None);

    assert!(entry_range_set(&mut e, "Open"));
    assert_eq!(e.range, RangeKind::Open);
    assert!(entry_range_set(&mut e, "nil"));
    assert_eq!(e.range, RangeKind::Plain);
    assert!(entry_range_set(&mut e, "1"));
    assert_eq!(e.range, RangeKind::Close);
    assert!(!entry_range_set(&mut e, "OPEN"));
    assert_eq!(e.range, RangeKind::Close);

    entry_page_commands_set(&mut e, Some("textbf"));
    assert_eq!(e.page_commands.as_deref(), Some("textbf"));
    entry_page_commands_set(&mut e, None);
    assert_eq!(e.page_commands, None);

    assert!(entry_pages_push(&mut e, "roman", 4));
    assert!(entry_pages_push(&mut e, "Arabic", 7));
    assert!(!entry_pages_push(&mut e, "arabic", 7));
    assert_eq!(e.pages, vec![IndexPage::roman(4), IndexPage::Arabic(7)]);

    entry_pages_raw_set(&mut e, Some("iv-7"));
    assert_eq!(e.pages_raw, "iv-7");
    entry_pages_raw_set(&mut e, None);
    assert_eq!(e.pages_raw, "");
}

#[test]
fn graphemes_come_off_one_cluster_at_a_time() {
    let mut s = "a\u{310}e\u{301}\r\nb";
    assert_eq!(graphemes_next(&mut s), Some("a\u{310}"));
    assert_eq!(s, "e\u{301}\r\nb");
    assert_eq!(graphemes_next(&mut s), Some("e\u{301}"));
    assert_eq!(graphemes_next(&mut s), Some("\r\n"));
    assert_eq!(graphemes_next(&mut s), Some("b"));
    assert_eq!(s, "");
    assert_eq!(graphemes_next(&mut s), None);
    assert_eq!(s, "");
}

#[test]
fn word_bounds_come_off_one_piece_at_a_time() {
    let mut s = "The quick (\"brown\")";
    let mut pieces = Vec::new();
    while let Some(p) = split_word_bounds_next(&mut s) {
        pieces.push(p);
    }
    assert_eq!(pieces, vec!["The", " ", "quick", " ", "(", "\"", "brown", "\"", ")"]);
    assert_eq!(s, "");
}

#[test]
fn unicode_words_come_off_one_word_at_a_time() {
    let mut s = "The quick (\"brown\") fox can't jump 32.3 feet, right?";
    let mut words = Vec::new();
    while let Some(w) = unicode_words_next(&mut s) {
        words.push(w);
    }
    assert_eq!(words, vec!["The", "quick", "brown", "fox", "can't", "jump", "32.3", "feet", "right"]);
    assert_eq!(s, "");
    let mut t = "  ab, cd";
    assert_eq!(unicode_words_next(&mut t), Some("ab"));
    assert_eq!(t, ", cd");
    let mut u = " -- ";
    assert_eq!(unicode_words_next(&mut u), None);
    assert_eq!(u, "");
}
