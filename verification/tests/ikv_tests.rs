use cindex::escape::{normalize_unicode_escape, EscapeError};
use cindex::ikv::from_ikv;
use cindex::reader::{idx_input_read_all, ikv_input_read_all, split_lines};
use cindex::{EntryError, IndexEntry, IndexPage, IstFile, PageError, RangeKind};

fn lines(ls: &[&str]) -> Vec<String> {
    ls.iter().map(|s| String::from(*s)).collect()
}

#[test]
fn reads_an_entry_in_key_value_form() {
    let (ist, _) = IstFile::default().split();
    let ls = lines(&["  1-2,(,bold,2", "key", "Display", " sub", "sub"]);
    let mut pos = 0;
    let e = from_ikv(&ist, &ls, &mut pos).unwrap().unwrap();
    assert_eq!(pos, 5);
    assert_eq!(e.pages, vec![IndexPage::Arabic(1), IndexPage::Arabic(2)]);
    assert_eq!(e.pages_raw, "1-2");
    assert_eq!(e.range, RangeKind::Open);
    assert_eq!(e.page_commands, Some(String::from("bold")));
    assert_eq!(
        e.levels,
        vec![(Some(String::from("key")), String::from("Display")), (None, String::from("sub"))]
    );
    assert_eq!(from_ikv(&ist, &ls, &mut pos), Ok(None));
}

#[test]
fn key_value_commands() {
    let (ist, _) = IstFile::default().split();
    let mut pos = 0;
    let e = from_ikv(&ist, &lines(&["3,),,0"]), &mut pos).unwrap().unwrap();
    assert_eq!((e.range, e.page_commands), (RangeKind::Close, None));
    let mut pos = 0;
    let e = from_ikv(&ist, &lines(&["3,,,+0"]), &mut pos).unwrap().unwrap();
    assert_eq!((e.range, e.page_commands), (RangeKind::Plain, None));
    let mut pos = 0;
    let e = IndexEntry::from_ikv(&ist, &lines(&["3,,it,0"]), &mut pos).unwrap().unwrap();
    assert_eq!((e.range, e.page_commands), (RangeKind::Plain, Some(String::from("it"))));
    let mut pos = 0;
    let e = from_ikv(&ist, &lines(&["3,(,textbf,0"]), &mut pos).unwrap().unwrap();
    assert_eq!((e.range, e.page_commands), (RangeKind::Open, Some(String::from("textbf"))));
}

#[test]
fn key_value_examples_of_the_readme() {
    let (ist, _) = IstFile::default().split();
    let mut pos = 0;
    let e = from_ikv(&ist, &lines(&["15,,,1", "    姓名", "    姓名"]), &mut pos).unwrap();
    assert_eq!(
        e,
        Some(IndexEntry {
            levels: vec![(None, String::from("姓名"))],
            range: RangeKind::Plain,
            page_commands: None,
            pages: vec![IndexPage::Arabic(15)],
            pages_raw: String::from("15"),
        })
    );
    assert_eq!(pos, 3);
    let mut pos = 0;
    let ls = lines(&["MMMMI-6,,hdpindex{usage},1", "    ExplSyntaxOn", r"    \verbatim@font \verb*&\ExplSyntaxOn&"]);
    let e = from_ikv(&ist, &ls, &mut pos).unwrap();
    assert_eq!(
        e,
        Some(IndexEntry {
            levels: vec![(Some(String::from("ExplSyntaxOn")), String::from(r"\verbatim@font \verb*&\ExplSyntaxOn&"))],
            range: RangeKind::Plain,
            page_commands: Some(String::from("hdpindex{usage}")),
            pages: vec![IndexPage::Roman(4001), IndexPage::Arabic(6)],
            pages_raw: String::from("MMMMI-6"),
        })
    );
}

#[test]
fn key_value_blank_and_comment_lines_give_nothing() {
    let (ist, _) = IstFile::default().split();
    let ls = lines(&["", "   ", "% a comment", "  % another"]);
    let mut pos = 0;
    for want in 1..=4 {
        assert_eq!(from_ikv(&ist, &ls, &mut pos), Ok(None));
        assert_eq!(pos, want);
    }
}

#[test]
fn key_value_errors() {
    let (ist, _) = IstFile::default().split();
    let check = |ls: &[&str], want: EntryError, end: usize| {
        let mut pos = 0;
        assert_eq!(from_ikv(&ist, &lines(ls), &mut pos), Err(want));
        assert_eq!(pos, end);
    };
    check(&["1"], EntryError::MissingRange, 1);
    check(&["1,q,x,1"], EntryError::BadRange, 1);
    check(&["1,((,x,1"], EntryError::BadRange, 1);
    check(&["1,"], EntryError::MissingCommands, 1);
    check(&["1,,x"], EntryError::MissingLength, 1);
    check(&["1,,x,y"], EntryError::BadLength, 1);
    check(&["1,,x,+"], EntryError::BadLength, 1);
    check(&["1,,x,99999999999999999999999"], EntryError::BadLength, 1);
    check(&["1,,x,1,z"], EntryError::ExtraField, 1);
    check(&["1,,x,1"], EntryError::MissingKey(1), 1);
    check(&["1,,x,1", "k"], EntryError::MissingDisplay(1), 2);
    check(&["1,,x,1", "k", "   "], EntryError::EmptyDisplay, 3);
    check(&["a9,,x,1"], EntryError::Page(PageError::Invalid), 1);
    check(&["1--2,,x,1"], EntryError::Page(PageError::Empty), 1);
}

#[test]
fn key_value_file_may_hold_index_lines() {
    let (ist, _) = IstFile::default().split();
    let mut pos = 0;
    let e = from_ikv(&ist, &lines(&["  \\indexentry{a!b}{7}"]), &mut pos).unwrap().unwrap();
    assert_eq!(e.levels, vec![(None, String::from("a")), (None, String::from("b"))]);
    assert_eq!(e.pages, vec![IndexPage::Arabic(7)]);
}

#[test]
fn lines_of_a_text() {
    assert_eq!(split_lines("a\nb\r\nc"), vec!["a", "b", "c"]);
    assert_eq!(split_lines("a\n\nb\n"), vec!["a", "", "b"]);
    assert_eq!(split_lines(""), Vec::<String>::new());
    assert_eq!(split_lines("x\r"), vec!["x\r"]);
}

#[test]
fn reads_an_index_file() {
    let (ist, _) = IstFile::default().split();
    let text = "\\indexentry{a}{1}\n% comment\n\n  \nbad line\n\\indexentry{b|(}{2}\r\n\\indexentry{c}{x1}\n";
    let report = idx_input_read_all(&ist, text);
    assert_eq!(report.entries.len(), 2);
    assert_eq!(report.entries[1].range, RangeKind::Open);
    assert_eq!(
        report.rejected,
        vec![(5, EntryError::Invalid), (7, EntryError::Page(PageError::Invalid))]
    );
}

#[test]
fn reads_a_key_value_file() {
    let (ist, _) = IstFile::default().split();
    let text = "1,,,1\nk\nv\n\n% note\n2,,,x\n\\indexentry{c}{3}\n";
    let report = ikv_input_read_all(&ist, text);
    assert_eq!(report.entries.len(), 2);
    assert_eq!(report.rejected, vec![(6, EntryError::BadLength)]);
}

#[test]
fn index_line_errors() {
    let (ist, _) = IstFile::default().split();
    assert_eq!(IndexEntry::parse_index_line(&ist, "   "), Ok(None));
    assert_eq!(IndexEntry::parse_index_line(&ist, "% x"), Ok(None));
    assert_eq!(IndexEntry::parse_index_line(&ist, "\\index{a}{1}"), Err(EntryError::Invalid));
    assert_eq!(IndexEntry::parse_index_line(&ist, "\\indexentry{a}{1} x"), Err(EntryError::Invalid));
    assert_eq!(IndexEntry::parse_index_line(&ist, "\\indexentry{a}"), Err(EntryError::Invalid));
    assert_eq!(IndexEntry::parse_index_line(&ist, "\\indexentry{a}{}"), Err(EntryError::Page(PageError::Empty)));
    assert_eq!(IndexEntry::parse_index_line(&ist, "\\indexentry{a\\}}{1}"), Err(EntryError::Invalid));
    let e = IndexEntry::parse_index_line(&ist, "\\indexentry{k@d!x|)}{2}").unwrap().unwrap();
    assert_eq!(
        e.levels,
        vec![(Some(String::from("k")), String::from("d")), (None, String::from("x")), (None, String::new())]
    );
    assert_eq!(e.range, RangeKind::Close);
    assert_eq!(e.page_commands, None);
}

#[test]
fn unicode_escapes() {
    assert_eq!(normalize_unicode_escape("abc").unwrap(), "abc");
    assert_eq!(normalize_unicode_escape("\\u4e00").unwrap(), "一");
    assert_eq!(normalize_unicode_escape("x\\u{1F600}y").unwrap(), "x😀y");
    assert_eq!(normalize_unicode_escape("a\\u").unwrap(), "a\\u");
    assert_eq!(normalize_unicode_escape("\\u{41").unwrap(), "\\u{41");
    assert_eq!(normalize_unicode_escape("\\u41").unwrap(), "A");
    assert_eq!(normalize_unicode_escape("\\u0041B\\u0043").unwrap(), "ABC");
    assert_eq!(normalize_unicode_escape("\\u+041").unwrap(), "A");
    assert_eq!(normalize_unicode_escape("\\u{zz}"), Err(EscapeError::InvalidNumber));
    assert_eq!(normalize_unicode_escape("\\u{D800}"), Err(EscapeError::InvalidChar));
    assert_eq!(normalize_unicode_escape("\\u12中"), Err(EscapeError::InvalidNumber));
    assert_eq!(normalize_unicode_escape("\\uzz"), Err(EscapeError::InvalidNumber));
}

#[test]
fn index_file_reads_the_same_in_key_value_form() {
    let (ist, _) = IstFile::default().split();
    let text = "\\indexentry{a@b|(it}{1}\n\n% note\n\\indexentry{c!d}{ii-3}\n  \n\\indexentry{e|)it}{5}\n";
    let idx = idx_input_read_all(&ist, text);
    let ikv = ikv_input_read_all(&ist, text);
    assert_eq!(idx.entries, ikv.entries);
    assert_eq!(idx.entries.len(), 3);
    assert!(idx.rejected.is_empty() && ikv.rejected.is_empty());
}

#[test]
fn index_file_without_keyword_reads_the_same_in_key_value_form() {
    let (ist, _) = IstFile::read_string("keyword \"\"\n").unwrap().split();
    let text = "{a@b}{1}\n\n% note\n{c!d}{ii-3}\n";
    let idx = idx_input_read_all(&ist, text);
    let ikv = ikv_input_read_all(&ist, text);
    assert_eq!(idx.entries, ikv.entries);
    assert_eq!(idx.entries.len(), 2);
    assert!(idx.rejected.is_empty() && ikv.rejected.is_empty());
}
