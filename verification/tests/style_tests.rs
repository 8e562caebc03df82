use cindex::scan::{scan_char, scan_number, scan_string, IstError};
use cindex::{IndexEntry, IndexPage, IstFile, RangeKind};

#[test]
fn test_string() {
    let ref mut s = r##"`abc\d`"##;
    assert_eq!(scan_string(s).unwrap(), r##"abc\d"##);
    assert_eq!(*s, "");

    let ref mut s = r##""\a\b\f\n\r\t\v\"\u4e00\x400\0""##;
    assert_eq!(scan_string(s).unwrap(), "\x07\x08\x0c\x0a\x0d\x09\x0b\"\u{4e00}\u{400}\0");
    assert_eq!(*s, "");

    let ref mut s = r##"r"abc'\""##;
    assert_eq!(scan_string(s).unwrap(), r##"abc'\"##);
    assert_eq!(*s, "");

    let ref mut s = r###"r#"abc'#"\"##"###;
    assert_eq!(scan_string(s).unwrap(), r##"abc'#"\"##);
    assert_eq!(*s, "#");
}

#[test]
fn test_char() {
    let ref mut s = "'\"''\t''x''\\u4e00''\\x0d''\\x400''\0'";
    assert_eq!(scan_char(s).unwrap(), '\"');
    assert_eq!(scan_char(s).unwrap(), '\t');
    assert_eq!(scan_char(s).unwrap(), 'x');
    assert_eq!(scan_char(s).unwrap(), '\u{4e00}');
    assert_eq!(scan_char(s).unwrap(), '\x0d');
    assert_eq!(scan_char(s).unwrap(), '\u{400}');
    assert_eq!(scan_char(s).unwrap(), '\0');
    assert_eq!(*s, "");
}

#[test]
fn test_number() {
    let ref mut s = "12345";
    assert_eq!(scan_number(s).unwrap(), 12345);
    assert_eq!(*s, "");

    let ref mut s = "0x12_345";
    assert_eq!(scan_number(s).unwrap(), 0x12_345);
    assert_eq!(*s, "");

    let ref mut s = "0b10_001";
    assert_eq!(scan_number(s).unwrap(), 0b10_001);
    assert_eq!(*s, "");

    let ref mut s = "12_345.0";
    assert_eq!(scan_number(s).unwrap(), 12_345);
    assert_eq!(*s, ".0");

    let ref mut s = "-12_345.0";
    assert_eq!(scan_number(s).unwrap(), -12_345);
    assert_eq!(*s, ".0");

    let ref mut s = "+12_345.0";
    assert_eq!(scan_number(s).unwrap(), 12_345);
    assert_eq!(*s, ".0");

    assert!(scan_number(&mut "_1").is_err());
    assert!(scan_number(&mut "1_").is_err());
    assert!(scan_number(&mut "1__2").is_err());
    assert!(scan_number(&mut "0x_ff").is_err());
    assert!(scan_number(&mut "0b_1").is_err());
}

#[test]
fn test_ist() {
    let ist = r##"actual '"' preamble "\n\\startindex\n"
        % ppp "a "
        postamble r"\n\stopindex\n"
        "##;
    let ist = IstFile::read_string(ist).unwrap();
    assert_eq!(ist.actual, '\"');
    assert_eq!(ist.preamble, "\n\\startindex\n");
    assert_eq!(ist.postamble, r"\n\stopindex\n");
}

#[test]
fn test_index_entry() {
    let mut ist = IstFile::default();
    ist.actual = '=';
    ist.quote = '!';
    ist.level = '>';
    let (ist_input, _) = ist.split();

    let s = r##"\indexentry{@currdir=\verb!*&\@currdir&|hdclindex{2}{usage}}{MMMMI-1}"##;
    assert_eq!(
        IndexEntry::parse_index_line(&ist_input, s).unwrap(),
        Some(IndexEntry {
            levels: vec![(Some(String::from("@currdir")), String::from(r"\verb*&\@currdir&"))],
            range: RangeKind::Plain,
            page_commands: Some(String::from("hdclindex{2}{usage}")),
            pages: vec![IndexPage::Roman(4001), IndexPage::Arabic(1)],
            pages_raw: String::from("MMMMI-1"),
        })
    );
    let s = r##"\indexentry{TeX and LaTeX2e commands:=\TeX{} and \LaTeXe{} commands:>sixt@@n={\verbatim@font !\verb*&!\sixt@@n&}|hdclindex{64}{}}{MMMMV-01-55-MMMD-64-M}"##;
    assert_eq!(
        IndexEntry::parse_index_line(&ist_input, s).unwrap(),
        Some(IndexEntry {
            levels: vec![
                (
                    Some(String::from("TeX and LaTeX2e commands:")),
                    String::from(r"\TeX{} and \LaTeXe{} commands:")
                ),
                (Some(String::from("sixt@@n")), String::from(r"{\verbatim@font \verb*&\sixt@@n&}")),
            ],
            range: RangeKind::Plain,
            page_commands: Some(String::from("hdclindex{64}{}")),
            pages: vec![
                IndexPage::Roman(4005),
                IndexPage::Arabic(1),
                IndexPage::Arabic(55),
                IndexPage::Roman(3500),
                IndexPage::Arabic(64),
                IndexPage::Roman(1000),
            ],
            pages_raw: String::from("MMMMV-01-55-MMMD-64-M"),
        })
    );
    let s = r##"\indexentry{sixt@@n={\verbatim@font !\verb*&!\sixt@@n&}|(hdclindex{}{NA}}{MMMMV}"##;
    assert_eq!(
        IndexEntry::parse_index_line(&ist_input, s).unwrap(),
        Some(IndexEntry {
            levels: vec![(Some(String::from("sixt@@n")), String::from(r"{\verbatim@font \verb*&\sixt@@n&}"))],
            range: RangeKind::Open,
            page_commands: Some(String::from("hdclindex{}{NA}")),
            pages: vec![IndexPage::Roman(4005)],
            pages_raw: String::from("MMMMV"),
        })
    );
}

#[test]
fn style_text_may_end_in_a_comment_or_a_value() {
    let f = IstFile::read_string("%").unwrap();
    assert_eq!(f.level, IstFile::default().level);
    let f = IstFile::read_string("level '>'\n% the end").unwrap();
    assert_eq!(f.level, '>');
    let f = IstFile::read_string("level '>'").unwrap();
    assert_eq!(f.level, '>');
    let f = IstFile::read_string("actual '='\nlevel '>'").unwrap();
    assert_eq!((f.actual, f.level), ('=', '>'));
    assert!(IstFile::read_string("keyword").is_err());
    assert!(IstFile::read_string("level '").is_err());
    assert_eq!(IstFile::read_string("level '>'x").err(), Some(IstError::NoSpaceAfterValue));
}

#[test]
fn a_sign_negates_or_keeps_the_number() {
    for body in ["12_345 rest", "0x1F", "0b101", "9223372036854775807"] {
        let mut plain: &str = body;
        let v = scan_number(&mut plain).unwrap();
        let neg = format!("-{}", body);
        let mut n: &str = &neg;
        assert_eq!(scan_number(&mut n).unwrap(), -v);
        assert_eq!(n, plain);
        let pos = format!("+{}", body);
        let mut p: &str = &pos;
        assert_eq!(scan_number(&mut p).unwrap(), v);
        assert_eq!(p, plain);
    }
    let mut bad: &str = "-_1";
    let mut bad_plain: &str = "_1";
    assert_eq!(scan_number(&mut bad), scan_number(&mut bad_plain));
}

#[test]
fn quoted_plain_values_read_as_themselves() {
    for c in ['a', '中', '\'', '"', ' '] {
        let text = format!("'{}' tail", c);
        let mut s: &str = &text;
        assert_eq!(scan_char(&mut s).unwrap(), c);
        assert_eq!(s, " tail");
    }
    for w in ["", "abc", "中文 text", "it's"] {
        let text = format!("\"{}\"{}", w, "  rest");
        let mut s: &str = &text;
        assert_eq!(scan_string(&mut s).unwrap(), w);
        assert_eq!(s, "  rest");
    }
}
