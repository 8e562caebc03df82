use vstd::prelude::*;

use crate::scan::{
    find_char_from, find_char_from_exec, is_ascii_ws, is_ascii_ws_exec, lemma_find_char_from_bounds,
    lemma_scan_char_progress, lemma_scan_number_progress, lemma_scan_string_progress,
    lemma_skip_ws_bounds, lemma_skip_ws_past, scan_char_at, scan_number_at, scan_string_at, skip_ws,
    skip_ws_exec, spec_scan_char, spec_scan_number, spec_scan_string, IstError,
};
use crate::text::str_chars;

verus! {

/// A setting of a style file.
#[derive(Debug, Clone, Copy, PartialEq, Eq, Structural)]
pub enum IstKey {
    Keyword,
    ArgOpen,
    ArgClose,
    RangeOpen,
    RangeClose,
    Level,
    Actual,
    Encap,
    Quote,
    Escape,
    PageCompositor,
    Separator,
    Preamble,
    Postamble,
    GroupSkip,
    HeadingPrefix,
    HeadingSuffix,
    HeadingsFlag,
    NumheadPositive,
    NumheadNegative,
    SymheadPositive,
    SymheadNegative,
    Item0,
    Item1,
    Item2,
    Item01,
    ItemX1,
    Item12,
    ItemX2,
    Delim0,
    Delim1,
    Delim2,
    DelimN,
    DelimR,
    DelimT,
    EncapPrefix,
    EncapInfix,
    EncapSuffix,
    PagePrecedence,
    Suffix2p,
    Suffix3p,
    SuffixMp,
    Comment,
    StrokePrefix,
    StrokeSuffix,
    RadicalPrefix,
    RadicalSuffix,
    RadicalSimplifiedFlag,
    RadicalSimplifiedPrefix,
    RadicalSimplifiedDelimiter,
    RadicalSimplifiedSuffix,
}

/// The kind of value that a setting takes.
#[derive(Debug, Clone, Copy, PartialEq, Eq, Structural)]
pub enum ValueKind {
    Str,
    Char,
    Num,
}

/// The kind of value of each setting.
pub open spec fn key_kind(k: IstKey) -> ValueKind {
    match k {
        IstKey::Keyword => ValueKind::Str,
        IstKey::ArgOpen => ValueKind::Char,
        IstKey::ArgClose => ValueKind::Char,
        IstKey::RangeOpen => ValueKind::Char,
        IstKey::RangeClose => ValueKind::Char,
        IstKey::Level => ValueKind::Char,
        IstKey::Actual => ValueKind::Char,
        IstKey::Encap => ValueKind::Char,
        IstKey::Quote => ValueKind::Char,
        IstKey::Escape => ValueKind::Char,
        IstKey::PageCompositor => ValueKind::Str,
        IstKey::Separator => ValueKind::Str,
        IstKey::Preamble => ValueKind::Str,
        IstKey::Postamble => ValueKind::Str,
        IstKey::GroupSkip => ValueKind::Str,
        IstKey::HeadingPrefix => ValueKind::Str,
        IstKey::HeadingSuffix => ValueKind::Str,
        IstKey::HeadingsFlag => ValueKind::Num,
        IstKey::NumheadPositive => ValueKind::Str,
        IstKey::NumheadNegative => ValueKind::Str,
        IstKey::SymheadPositive => ValueKind::Str,
        IstKey::SymheadNegative => ValueKind::Str,
        IstKey::Item0 => ValueKind::Str,
        IstKey::Item1 => ValueKind::Str,
        IstKey::Item2 => ValueKind::Str,
        IstKey::Item01 => ValueKind::Str,
        IstKey::ItemX1 => ValueKind::Str,
        IstKey::Item12 => ValueKind::Str,
        IstKey::ItemX2 => ValueKind::Str,
        IstKey::Delim0 => ValueKind::Str,
        IstKey::Delim1 => ValueKind::Str,
        IstKey::Delim2 => ValueKind::Str,
        IstKey::DelimN => ValueKind::Str,
        IstKey::DelimR => ValueKind::Str,
        IstKey::DelimT => ValueKind::Str,
        IstKey::EncapPrefix => ValueKind::Str,
        IstKey::EncapInfix => ValueKind::Str,
        IstKey::EncapSuffix => ValueKind::Str,
        IstKey::PagePrecedence => ValueKind::Str,
        IstKey::Suffix2p => ValueKind::Str,
        IstKey::Suffix3p => ValueKind::Str,
        IstKey::SuffixMp => ValueKind::Str,
        IstKey::Comment => ValueKind::Char,
        IstKey::StrokePrefix => ValueKind::Str,
        IstKey::StrokeSuffix => ValueKind::Str,
        IstKey::RadicalPrefix => ValueKind::Str,
        IstKey::RadicalSuffix => ValueKind::Str,
        IstKey::RadicalSimplifiedFlag => ValueKind::Num,
        IstKey::RadicalSimplifiedPrefix => ValueKind::Str,
        IstKey::RadicalSimplifiedDelimiter => ValueKind::Str,
        IstKey::RadicalSimplifiedSuffix => ValueKind::Str,
    }
}

fn key_kind_exec(k: IstKey) -> (r: ValueKind)
    ensures
        r == key_kind(k),
{
    match k {
        IstKey::Keyword => ValueKind::Str,
        IstKey::ArgOpen => ValueKind::Char,
        IstKey::ArgClose => ValueKind::Char,
        IstKey::RangeOpen => ValueKind::Char,
        IstKey::RangeClose => ValueKind::Char,
        IstKey::Level => ValueKind::Char,
        IstKey::Actual => ValueKind::Char,
        IstKey::Encap => ValueKind::Char,
        IstKey::Quote => ValueKind::Char,
        IstKey::Escape => ValueKind::Char,
        IstKey::PageCompositor => ValueKind::Str,
        IstKey::Separator => ValueKind::Str,
        IstKey::Preamble => ValueKind::Str,
        IstKey::Postamble => ValueKind::Str,
        IstKey::GroupSkip => ValueKind::Str,
        IstKey::HeadingPrefix => ValueKind::Str,
        IstKey::HeadingSuffix => ValueKind::Str,
        IstKey::HeadingsFlag => ValueKind::Num,
        IstKey::NumheadPositive => ValueKind::Str,
        IstKey::NumheadNegative => ValueKind::Str,
        IstKey::SymheadPositive => ValueKind::Str,
        IstKey::SymheadNegative => ValueKind::Str,
        IstKey::Item0 => ValueKind::Str,
        IstKey::Item1 => ValueKind::Str,
        IstKey::Item2 => ValueKind::Str,
        IstKey::Item01 => ValueKind::Str,
        IstKey::ItemX1 => ValueKind::Str,
        IstKey::Item12 => ValueKind::Str,
        IstKey::ItemX2 => ValueKind::Str,
        IstKey::Delim0 => ValueKind::Str,
        IstKey::Delim1 => ValueKind::Str,
        IstKey::Delim2 => ValueKind::Str,
        IstKey::DelimN => ValueKind::Str,
        IstKey::DelimR => ValueKind::Str,
        IstKey::DelimT => ValueKind::Str,
        IstKey::EncapPrefix => ValueKind::Str,
        IstKey::EncapInfix => ValueKind::Str,
        IstKey::EncapSuffix => ValueKind::Str,
        IstKey::PagePrecedence => ValueKind::Str,
        IstKey::Suffix2p => ValueKind::Str,
        IstKey::Suffix3p => ValueKind::Str,
        IstKey::SuffixMp => ValueKind::Str,
        IstKey::Comment => ValueKind::Char,
        IstKey::StrokePrefix => ValueKind::Str,
        IstKey::StrokeSuffix => ValueKind::Str,
        IstKey::RadicalPrefix => ValueKind::Str,
        IstKey::RadicalSuffix => ValueKind::Str,
        IstKey::RadicalSimplifiedFlag => ValueKind::Num,
        IstKey::RadicalSimplifiedPrefix => ValueKind::Str,
        IstKey::RadicalSimplifiedDelimiter => ValueKind::Str,
        IstKey::RadicalSimplifiedSuffix => ValueKind::Str,
    }
}

/// What a key of a style file names.
#[derive(Debug, Clone, Copy, PartialEq, Eq, Structural)]
pub enum KeyClass {
    /// A setting.
    Setting(IstKey),
    /// A key that is read and ignored, with a string value.
    SkipString,
    /// A key that is read and ignored, with a number value.
    SkipNumber,
    /// Any other key.
    Unknown,
}

/// What the key `name` names.
pub open spec fn key_class(name: Seq<char>) -> KeyClass {

    if name == "keyword"@ {
        KeyClass::Setting(IstKey::Keyword)
    } else if name == "arg_open"@ {
        KeyClass::Setting(IstKey::ArgOpen)
    } else if name == "arg_close"@ {
        KeyClass::Setting(IstKey::ArgClose)
    } else if name == "range_open"@ {
        KeyClass::Setting(IstKey::RangeOpen)
    } else if name == "range_close"@ {
        KeyClass::Setting(IstKey::RangeClose)
    } else if name == "level"@ {
        KeyClass::Setting(IstKey::Level)
    } else if name == "actual"@ {
        KeyClass::Setting(IstKey::Actual)
    } else if name == "encap"@ {
        KeyClass::Setting(IstKey::Encap)
    } else if name == "quote"@ {
        KeyClass::Setting(IstKey::Quote)
    } else if name == "escape"@ {
        KeyClass::Setting(IstKey::Escape)
    } else if name == "page_compositor"@ {
        KeyClass::Setting(IstKey::PageCompositor)
    } else if name == "separator"@ {
        KeyClass::Setting(IstKey::Separator)
    } else if name == "preamble"@ {
        KeyClass::Setting(IstKey::Preamble)
    } else if name == "postamble"@ {
        KeyClass::Setting(IstKey::Postamble)
    } else if name == "group_skip"@ {
        KeyClass::Setting(IstKey::GroupSkip)
    } else if name == "heading_prefix"@ {
        KeyClass::Setting(IstKey::HeadingPrefix)
    } else if name == "heading_suffix"@ {
        KeyClass::Setting(IstKey::HeadingSuffix)
    } else if name == "headings_flag"@ {
        KeyClass::Setting(IstKey::HeadingsFlag)
    } else if name == "numhead_positive"@ {
        KeyClass::Setting(IstKey::NumheadPositive)
    } else if name == "numhead_negative"@ {
        KeyClass::Setting(IstKey::NumheadNegative)
    } else if name == "symhead_positive"@ {
        KeyClass::Setting(IstKey::SymheadPositive)
    } else if name == "symhead_negative"@ {
        KeyClass::Setting(IstKey::SymheadNegative)
    } else if name == "item_0"@ {
        KeyClass::Setting(IstKey::Item0)
    } else if name == "item_1"@ {
        KeyClass::Setting(IstKey::Item1)
    } else if name == "item_2"@ {
        KeyClass::Setting(IstKey::Item2)
    } else if name == "item_01"@ {
        KeyClass::Setting(IstKey::Item01)
    } else if name == "item_x1"@ {
        KeyClass::Setting(IstKey::ItemX1)
    } else if name == "item_12"@ {
        KeyClass::Setting(IstKey::Item12)
    } else if name == "item_x2"@ {
        KeyClass::Setting(IstKey::ItemX2)
    } else if name == "delim_0"@ {
        KeyClass::Setting(IstKey::Delim0)
    } else if name == "delim_1"@ {
        KeyClass::Setting(IstKey::Delim1)
    } else if name == "delim_2"@ {
        KeyClass::Setting(IstKey::Delim2)
    } else if name == "delim_n"@ {
        KeyClass::Setting(IstKey::DelimN)
    } else if name == "delim_r"@ {
        KeyClass::Setting(IstKey::DelimR)
    } else if name == "delim_t"@ {
        KeyClass::Setting(IstKey::DelimT)
    } else if name == "encap_prefix"@ {
        KeyClass::Setting(IstKey::EncapPrefix)
    } else if name == "encap_infix"@ {
        KeyClass::Setting(IstKey::EncapInfix)
    } else if name == "encap_suffix"@ {
        KeyClass::Setting(IstKey::EncapSuffix)
    } else if name == "page_precedence"@ {
        KeyClass::Setting(IstKey::PagePrecedence)
    } else if name == "suffix_2p"@ {
        KeyClass::Setting(IstKey::Suffix2p)
    } else if name == "suffix_3p"@ {
        KeyClass::Setting(IstKey::Suffix3p)
    } else if name == "suffix_mp"@ {
        KeyClass::Setting(IstKey::SuffixMp)
    } else if name == "comment"@ {
        KeyClass::Setting(IstKey::Comment)
    } else if name == "stroke_prefix"@ {
        KeyClass::Setting(IstKey::StrokePrefix)
    } else if name == "stroke_suffix"@ {
        KeyClass::Setting(IstKey::StrokeSuffix)
    } else if name == "radical_prefix"@ {
        KeyClass::Setting(IstKey::RadicalPrefix)
    } else if name == "radical_suffix"@ {
        KeyClass::Setting(IstKey::RadicalSuffix)
    } else if name == "radical_simplified_flag"@ {
        KeyClass::Setting(IstKey::RadicalSimplifiedFlag)
    } else if name == "radical_simplified_prefix"@ {
        KeyClass::Setting(IstKey::RadicalSimplifiedPrefix)
    } else if name == "radical_simplified_delimiter"@ {
        KeyClass::Setting(IstKey::RadicalSimplifiedDelimiter)
    } else if name == "radical_simplified_suffix"@ {
        KeyClass::Setting(IstKey::RadicalSimplifiedSuffix)
    } else if name == "setpage_prefix"@ {
        KeyClass::SkipString
    } else if name == "setpage_suffix"@ {
        KeyClass::SkipString
    } else if name == "line_max"@ {
        KeyClass::SkipNumber
    } else if name == "indent_space"@ {
        KeyClass::SkipString
    } else if name == "indent_length"@ {
        KeyClass::SkipNumber
    } else {
        KeyClass::Unknown
    }
}

/// Whether `key` holds exactly the characters of `lit`.
fn chars_eq_str(key: &Vec<char>, lit: &str) -> (r: bool)
    ensures
        r == (key@ == lit@),
{
    let l = str_chars(lit);
    if key.len() != l.len() {
        return false;
    }
    let mut i: usize = 0;
    while i < key.len()
        invariant
            key@.len() == l@.len(),
            l@ == lit@,
            i <= key@.len(),
            forall|j: int| 0 <= j < i ==> key@[j] == l@[j],
        decreases key@.len() - i,
    {
        if key[i] != l[i] {
            assert(key@[i as int] != l@[i as int]);
            return false;
        }
        i = i + 1;
    }
    assert(key@ =~= l@);
    true
}

fn key_class_exec(name: &Vec<char>) -> (r: KeyClass)
    ensures
        r == key_class(name@),
{

    if chars_eq_str(name, "keyword") {
        KeyClass::Setting(IstKey::Keyword)
    } else if chars_eq_str(name, "arg_open") {
        KeyClass::Setting(IstKey::ArgOpen)
    } else if chars_eq_str(name, "arg_close") {
        KeyClass::Setting(IstKey::ArgClose)
    } else if chars_eq_str(name, "range_open") {
        KeyClass::Setting(IstKey::RangeOpen)
    } else if chars_eq_str(name, "range_close") {
        KeyClass::Setting(IstKey::RangeClose)
    } else if chars_eq_str(name, "level") {
        KeyClass::Setting(IstKey::Level)
    } else if chars_eq_str(name, "actual") {
        KeyClass::Setting(IstKey::Actual)
    } else if chars_eq_str(name, "encap") {
        KeyClass::Setting(IstKey::Encap)
    } else if chars_eq_str(name, "quote") {
        KeyClass::Setting(IstKey::Quote)
    } else if chars_eq_str(name, "escape") {
        KeyClass::Setting(IstKey::Escape)
    } else if chars_eq_str(name, "page_compositor") {
        KeyClass::Setting(IstKey::PageCompositor)
    } else if chars_eq_str(name, "separator") {
        KeyClass::Setting(IstKey::Separator)
    } else if chars_eq_str(name, "preamble") {
        KeyClass::Setting(IstKey::Preamble)
    } else if chars_eq_str(name, "postamble") {
        KeyClass::Setting(IstKey::Postamble)
    } else if chars_eq_str(name, "group_skip") {
        KeyClass::Setting(IstKey::GroupSkip)
    } else if chars_eq_str(name, "heading_prefix") {
        KeyClass::Setting(IstKey::HeadingPrefix)
    } else if chars_eq_str(name, "heading_suffix") {
        KeyClass::Setting(IstKey::HeadingSuffix)
    } else if chars_eq_str(name, "headings_flag") {
        KeyClass::Setting(IstKey::HeadingsFlag)
    } else if chars_eq_str(name, "numhead_positive") {
        KeyClass::Setting(IstKey::NumheadPositive)
    } else if chars_eq_str(name, "numhead_negative") {
        KeyClass::Setting(IstKey::NumheadNegative)
    } else if chars_eq_str(name, "symhead_positive") {
        KeyClass::Setting(IstKey::SymheadPositive)
    } else if chars_eq_str(name, "symhead_negative") {
        KeyClass::Setting(IstKey::SymheadNegative)
    } else if chars_eq_str(name, "item_0") {
        KeyClass::Setting(IstKey::Item0)
    } else if chars_eq_str(name, "item_1") {
        KeyClass::Setting(IstKey::Item1)
    } else if chars_eq_str(name, "item_2") {
        KeyClass::Setting(IstKey::Item2)
    } else if chars_eq_str(name, "item_01") {
        KeyClass::Setting(IstKey::Item01)
    } else if chars_eq_str(name, "item_x1") {
        KeyClass::Setting(IstKey::ItemX1)
    } else if chars_eq_str(name, "item_12") {
        KeyClass::Setting(IstKey::Item12)
    } else if chars_eq_str(name, "item_x2") {
        KeyClass::Setting(IstKey::ItemX2)
    } else if chars_eq_str(name, "delim_0") {
        KeyClass::Setting(IstKey::Delim0)
    } else if chars_eq_str(name, "delim_1") {
        KeyClass::Setting(IstKey::Delim1)
    } else if chars_eq_str(name, "delim_2") {
        KeyClass::Setting(IstKey::Delim2)
    } else if chars_eq_str(name, "delim_n") {
        KeyClass::Setting(IstKey::DelimN)
    } else if chars_eq_str(name, "delim_r") {
        KeyClass::Setting(IstKey::DelimR)
    } else if chars_eq_str(name, "delim_t") {
        KeyClass::Setting(IstKey::DelimT)
    } else if chars_eq_str(name, "encap_prefix") {
        KeyClass::Setting(IstKey::EncapPrefix)
    } else if chars_eq_str(name, "encap_infix") {
        KeyClass::Setting(IstKey::EncapInfix)
    } else if chars_eq_str(name, "encap_suffix") {
        KeyClass::Setting(IstKey::EncapSuffix)
    } else if chars_eq_str(name, "page_precedence") {
        KeyClass::Setting(IstKey::PagePrecedence)
    } else if chars_eq_str(name, "suffix_2p") {
        KeyClass::Setting(IstKey::Suffix2p)
    } else if chars_eq_str(name, "suffix_3p") {
        KeyClass::Setting(IstKey::Suffix3p)
    } else if chars_eq_str(name, "suffix_mp") {
        KeyClass::Setting(IstKey::SuffixMp)
    } else if chars_eq_str(name, "comment") {
        KeyClass::Setting(IstKey::Comment)
    } else if chars_eq_str(name, "stroke_prefix") {
        KeyClass::Setting(IstKey::StrokePrefix)
    } else if chars_eq_str(name, "stroke_suffix") {
        KeyClass::Setting(IstKey::StrokeSuffix)
    } else if chars_eq_str(name, "radical_prefix") {
        KeyClass::Setting(IstKey::RadicalPrefix)
    } else if chars_eq_str(name, "radical_suffix") {
        KeyClass::Setting(IstKey::RadicalSuffix)
    } else if chars_eq_str(name, "radical_simplified_flag") {
        KeyClass::Setting(IstKey::RadicalSimplifiedFlag)
    } else if chars_eq_str(name, "radical_simplified_prefix") {
        KeyClass::Setting(IstKey::RadicalSimplifiedPrefix)
    } else if chars_eq_str(name, "radical_simplified_delimiter") {
        KeyClass::Setting(IstKey::RadicalSimplifiedDelimiter)
    } else if chars_eq_str(name, "radical_simplified_suffix") {
        KeyClass::Setting(IstKey::RadicalSimplifiedSuffix)
    } else if chars_eq_str(name, "setpage_prefix") {
        KeyClass::SkipString
    } else if chars_eq_str(name, "setpage_suffix") {
        KeyClass::SkipString
    } else if chars_eq_str(name, "line_max") {
        KeyClass::SkipNumber
    } else if chars_eq_str(name, "indent_space") {
        KeyClass::SkipString
    } else if chars_eq_str(name, "indent_length") {
        KeyClass::SkipNumber
    } else {
        KeyClass::Unknown
    }
}

/// The settings of a style file (`ist`).
#[derive(Debug, Clone)]
pub struct IstFile {
    /// Index command. Default `"\\indexentry"`.
    pub keyword: String,
    /// Argument opening delimiter. Default: `'{'`.
    pub arg_open: char,
    /// Argument closing delimiter. Default: `'}'`.
    pub arg_close: char,
    /// Page range opening delimiter. Default: `'('`.
    pub range_open: char,
    /// Page range closing delimiter. Default: `')'`.
    pub range_close: char,
    /// Index level delimiter. Default: `'!'`.
    pub level: char,
    /// Actual key designator. Default: `'@'`.
    pub actual: char,
    /// Page number encapsulator. Default: `'|'`.
    pub encap: char,
    /// Quote symbol. Default: `'"'`.
    pub quote: char,
    /// Symbol that escapes `quote`. Default: `'\\'`.
    pub escape: char,
    /// Composite page delimiter. Default: `"-"`.
    pub page_compositor: String,
    /// Separator of kv format. Default: `","`.
    pub separator: String,
    /// Index preamble. Default: `"\\begin{theindex}\n"`.
    pub preamble: String,
    /// Index postamble. Default: `"\n\n\\end{theindex}\n"`.
    pub postamble: String,
    /// Intergroup vertical space. Default: `"\n\n  \\indexspace\n"`.
    pub group_skip: String,
    /// New letter heading prefix. Default: `""`.
    pub heading_prefix: String,
    /// New letter heading suffix. Default: `""`.
    pub heading_suffix: String,
    /// Flag designating new letter. Default: `0`.
    pub headings_flag: i32,
    /// Heading for numbers (flag > 0). Default: `"Numbers"`.
    pub numhead_positive: String,
    /// Heading for numbers (flag < 0). Default: `"numbers"`.
    pub numhead_negative: String,
    /// Heading for symbols (flag > 0). Default: `"Symbols"`.
    pub symhead_positive: String,
    /// Heading for symbols (flag < 0). Default: `"symbols"`.
    pub symhead_negative: String,
    /// Level 0 item separator. Default: `"\n  \\item "`.
    pub item_0: String,
    /// Level 1 item separator. Default: `"\n    \\subitem "`.
    pub item_1: String,
    /// Level 2 item separator. Default: `"\n      \\subsubitem "`.
    pub item_2: String,
    /// Levels 0/1 separator. Default: `"\n    \\subitem "`.
    pub item_01: String,
    /// Levels 0/1 separator, no page number at level 0. Default: `"\n    \\subitem "`.
    pub item_x1: String,
    /// Levels 1/2 separator. Default: `"\n      \\subsubitem "`.
    pub item_12: String,
    /// Levels x/2 separator, no page number at level 0. Default: `"\n      \\subsubitem "`.
    pub item_x2: String,
    /// Level 0 key/page delimiter. Default: `", "`.
    pub delim_0: String,
    /// Level 1 key/page delimiter. Default: `", "`.
    pub delim_1: String,
    /// Level 2 key/page delimiter. Default: `", "`.
    pub delim_2: String,
    /// Inter page number delimiter. Default: `", "`.
    pub delim_n: String,
    /// Page range designator. Default: `"--"`.
    pub delim_r: String,
    /// Page list terminator. Default: `""`.
    pub delim_t: String,
    /// Page encapsulator prefix. Default: `"\\"`.
    pub encap_prefix: String,
    /// Page encapsulator infix. Default: `"{"`.
    pub encap_infix: String,
    /// Page encapsulator suffix. Default: `"}"`.
    pub encap_suffix: String,
    /// Page type precedence. Default: `"rnaRA"`.
    pub page_precedence: String,
    /// Replaces the range delimiter and the second page number of a two page list; when present, it overrides `delim_r`. Default `""`.
    pub suffix_2p: String,
    /// Replaces the range delimiter and the second page number of a three page list; when present, it overrides `delim_r` and `suffix_mp`. Default `""`.
    pub suffix_3p: String,
    /// Replaces the range delimiter and the second page number of a list of three or more pages; when present, it overrides `delim_r`. Default `""`.
    pub suffix_mp: String,
    /// Comment line designator. Default: `'%'`.
    pub comment: char,
    /// Prefix of a stroke count heading. Default: `""`.
    pub stroke_prefix: String,
    /// Suffix of a stroke count heading. Default: `" \u{753b}"`.
    pub stroke_suffix: String,
    /// Prefix of a radical heading. Default: `""`.
    pub radical_prefix: String,
    /// Suffix of a radical heading. Default: `"\u{90e8}"`.
    pub radical_suffix: String,
    /// Whether simplified radicals are shown. Default: `1`.
    pub radical_simplified_flag: i32,
    /// Prefix of the simplified radicals. Default: `"\u{ff08}"`.
    pub radical_simplified_prefix: String,
    /// Delimiter between simplified radicals. Default: `"\u{3001}"`.
    pub radical_simplified_delimiter: String,
    /// Suffix of the simplified radicals. Default: `"\u{ff09}"`.
    pub radical_simplified_suffix: String,
}

/// The values of the settings of a style file.
pub struct IstFileView {
    pub keyword: Seq<char>,
    pub arg_open: char,
    pub arg_close: char,
    pub range_open: char,
    pub range_close: char,
    pub level: char,
    pub actual: char,
    pub encap: char,
    pub quote: char,
    pub escape: char,
    pub page_compositor: Seq<char>,
    pub separator: Seq<char>,
    pub preamble: Seq<char>,
    pub postamble: Seq<char>,
    pub group_skip: Seq<char>,
    pub heading_prefix: Seq<char>,
    pub heading_suffix: Seq<char>,
    pub headings_flag: i32,
    pub numhead_positive: Seq<char>,
    pub numhead_negative: Seq<char>,
    pub symhead_positive: Seq<char>,
    pub symhead_negative: Seq<char>,
    pub item_0: Seq<char>,
    pub item_1: Seq<char>,
    pub item_2: Seq<char>,
    pub item_01: Seq<char>,
    pub item_x1: Seq<char>,
    pub item_12: Seq<char>,
    pub item_x2: Seq<char>,
    pub delim_0: Seq<char>,
    pub delim_1: Seq<char>,
    pub delim_2: Seq<char>,
    pub delim_n: Seq<char>,
    pub delim_r: Seq<char>,
    pub delim_t: Seq<char>,
    pub encap_prefix: Seq<char>,
    pub encap_infix: Seq<char>,
    pub encap_suffix: Seq<char>,
    pub page_precedence: Seq<char>,
    pub suffix_2p: Seq<char>,
    pub suffix_3p: Seq<char>,
    pub suffix_mp: Seq<char>,
    pub comment: char,
    pub stroke_prefix: Seq<char>,
    pub stroke_suffix: Seq<char>,
    pub radical_prefix: Seq<char>,
    pub radical_suffix: Seq<char>,
    pub radical_simplified_flag: i32,
    pub radical_simplified_prefix: Seq<char>,
    pub radical_simplified_delimiter: Seq<char>,
    pub radical_simplified_suffix: Seq<char>,
}

impl View for IstFile {
    type V = IstFileView;

    open spec fn view(&self) -> IstFileView {
        IstFileView {
            keyword: self.keyword@,
            arg_open: self.arg_open,
            arg_close: self.arg_close,
            range_open: self.range_open,
            range_close: self.range_close,
            level: self.level,
            actual: self.actual,
            encap: self.encap,
            quote: self.quote,
            escape: self.escape,
            page_compositor: self.page_compositor@,
            separator: self.separator@,
            preamble: self.preamble@,
            postamble: self.postamble@,
            group_skip: self.group_skip@,
            heading_prefix: self.heading_prefix@,
            heading_suffix: self.heading_suffix@,
            headings_flag: self.headings_flag,
            numhead_positive: self.numhead_positive@,
            numhead_negative: self.numhead_negative@,
            symhead_positive: self.symhead_positive@,
            symhead_negative: self.symhead_negative@,
            item_0: self.item_0@,
            item_1: self.item_1@,
            item_2: self.item_2@,
            item_01: self.item_01@,
            item_x1: self.item_x1@,
            item_12: self.item_12@,
            item_x2: self.item_x2@,
            delim_0: self.delim_0@,
            delim_1: self.delim_1@,
            delim_2: self.delim_2@,
            delim_n: self.delim_n@,
            delim_r: self.delim_r@,
            delim_t: self.delim_t@,
            encap_prefix: self.encap_prefix@,
            encap_infix: self.encap_infix@,
            encap_suffix: self.encap_suffix@,
            page_precedence: self.page_precedence@,
            suffix_2p: self.suffix_2p@,
            suffix_3p: self.suffix_3p@,
            suffix_mp: self.suffix_mp@,
            comment: self.comment,
            stroke_prefix: self.stroke_prefix@,
            stroke_suffix: self.stroke_suffix@,
            radical_prefix: self.radical_prefix@,
            radical_suffix: self.radical_suffix@,
            radical_simplified_flag: self.radical_simplified_flag,
            radical_simplified_prefix: self.radical_simplified_prefix@,
            radical_simplified_delimiter: self.radical_simplified_delimiter@,
            radical_simplified_suffix: self.radical_simplified_suffix@,
        }
    }
}

/// The default settings.
pub open spec fn default_view() -> IstFileView {
    IstFileView {
        keyword: "\\indexentry"@,
        arg_open: '{',
        arg_close: '}',
        range_open: '(',
        range_close: ')',
        level: '!',
        actual: '@',
        encap: '|',
        quote: '"',
        escape: '\\',
        page_compositor: "-"@,
        separator: ","@,
        preamble: "\\begin{theindex}\n"@,
        postamble: "\n\n\\end{theindex}\n"@,
        group_skip: "\n\n  \\indexspace\n"@,
        heading_prefix: ""@,
        heading_suffix: ""@,
        headings_flag: 0,
        numhead_positive: "Numbers"@,
        numhead_negative: "numbers"@,
        symhead_positive: "Symbols"@,
        symhead_negative: "symbols"@,
        item_0: "\n  \\item "@,
        item_1: "\n    \\subitem "@,
        item_2: "\n      \\subsubitem "@,
        item_01: "\n    \\subitem "@,
        item_x1: "\n    \\subitem "@,
        item_12: "\n      \\subsubitem "@,
        item_x2: "\n      \\subsubitem "@,
        delim_0: ", "@,
        delim_1: ", "@,
        delim_2: ", "@,
        delim_n: ", "@,
        delim_r: "--"@,
        delim_t: ""@,
        encap_prefix: "\\"@,
        encap_infix: "{"@,
        encap_suffix: "}"@,
        page_precedence: "rnaRA"@,
        suffix_2p: ""@,
        suffix_3p: ""@,
        suffix_mp: ""@,
        comment: '%',
        stroke_prefix: ""@,
        stroke_suffix: " \u{753b}"@,
        radical_prefix: ""@,
        radical_suffix: "\u{90e8}"@,
        radical_simplified_flag: 1,
        radical_simplified_prefix: "\u{ff08}"@,
        radical_simplified_delimiter: "\u{3001}"@,
        radical_simplified_suffix: "\u{ff09}"@,
    }
}

impl Default for IstFile {
    fn default() -> (r: IstFile)
        ensures
            r@ == default_view(),
    {
        IstFile {
            keyword: "\\indexentry".to_owned(),
            arg_open: '{',
            arg_close: '}',
            range_open: '(',
            range_close: ')',
            level: '!',
            actual: '@',
            encap: '|',
            quote: '"',
            escape: '\\',
            page_compositor: "-".to_owned(),
            separator: ",".to_owned(),
            preamble: "\\begin{theindex}\n".to_owned(),
            postamble: "\n\n\\end{theindex}\n".to_owned(),
            group_skip: "\n\n  \\indexspace\n".to_owned(),
            heading_prefix: "".to_owned(),
            heading_suffix: "".to_owned(),
            headings_flag: 0,
            numhead_positive: "Numbers".to_owned(),
            numhead_negative: "numbers".to_owned(),
            symhead_positive: "Symbols".to_owned(),
            symhead_negative: "symbols".to_owned(),
            item_0: "\n  \\item ".to_owned(),
            item_1: "\n    \\subitem ".to_owned(),
            item_2: "\n      \\subsubitem ".to_owned(),
            item_01: "\n    \\subitem ".to_owned(),
            item_x1: "\n    \\subitem ".to_owned(),
            item_12: "\n      \\subsubitem ".to_owned(),
            item_x2: "\n      \\subsubitem ".to_owned(),
            delim_0: ", ".to_owned(),
            delim_1: ", ".to_owned(),
            delim_2: ", ".to_owned(),
            delim_n: ", ".to_owned(),
            delim_r: "--".to_owned(),
            delim_t: "".to_owned(),
            encap_prefix: "\\".to_owned(),
            encap_infix: "{".to_owned(),
            encap_suffix: "}".to_owned(),
            page_precedence: "rnaRA".to_owned(),
            suffix_2p: "".to_owned(),
            suffix_3p: "".to_owned(),
            suffix_mp: "".to_owned(),
            comment: '%',
            stroke_prefix: "".to_owned(),
            stroke_suffix: " \u{753b}".to_owned(),
            radical_prefix: "".to_owned(),
            radical_suffix: "\u{90e8}".to_owned(),
            radical_simplified_flag: 1,
            radical_simplified_prefix: "\u{ff08}".to_owned(),
            radical_simplified_delimiter: "\u{3001}".to_owned(),
            radical_simplified_suffix: "\u{ff09}".to_owned(),
        }
    }
}

/// The settings `v` with the string setting `k` set to `s`.
pub open spec fn with_str(v: IstFileView, k: IstKey, s: Seq<char>) -> IstFileView {
    match k {
        IstKey::Keyword => IstFileView { keyword: s, ..v },
        IstKey::PageCompositor => IstFileView { page_compositor: s, ..v },
        IstKey::Separator => IstFileView { separator: s, ..v },
        IstKey::Preamble => IstFileView { preamble: s, ..v },
        IstKey::Postamble => IstFileView { postamble: s, ..v },
        IstKey::GroupSkip => IstFileView { group_skip: s, ..v },
        IstKey::HeadingPrefix => IstFileView { heading_prefix: s, ..v },
        IstKey::HeadingSuffix => IstFileView { heading_suffix: s, ..v },
        IstKey::NumheadPositive => IstFileView { numhead_positive: s, ..v },
        IstKey::NumheadNegative => IstFileView { numhead_negative: s, ..v },
        IstKey::SymheadPositive => IstFileView { symhead_positive: s, ..v },
        IstKey::SymheadNegative => IstFileView { symhead_negative: s, ..v },
        IstKey::Item0 => IstFileView { item_0: s, ..v },
        IstKey::Item1 => IstFileView { item_1: s, ..v },
        IstKey::Item2 => IstFileView { item_2: s, ..v },
        IstKey::Item01 => IstFileView { item_01: s, ..v },
        IstKey::ItemX1 => IstFileView { item_x1: s, ..v },
        IstKey::Item12 => IstFileView { item_12: s, ..v },
        IstKey::ItemX2 => IstFileView { item_x2: s, ..v },
        IstKey::Delim0 => IstFileView { delim_0: s, ..v },
        IstKey::Delim1 => IstFileView { delim_1: s, ..v },
        IstKey::Delim2 => IstFileView { delim_2: s, ..v },
        IstKey::DelimN => IstFileView { delim_n: s, ..v },
        IstKey::DelimR => IstFileView { delim_r: s, ..v },
        IstKey::DelimT => IstFileView { delim_t: s, ..v },
        IstKey::EncapPrefix => IstFileView { encap_prefix: s, ..v },
        IstKey::EncapInfix => IstFileView { encap_infix: s, ..v },
        IstKey::EncapSuffix => IstFileView { encap_suffix: s, ..v },
        IstKey::PagePrecedence => IstFileView { page_precedence: s, ..v },
        IstKey::Suffix2p => IstFileView { suffix_2p: s, ..v },
        IstKey::Suffix3p => IstFileView { suffix_3p: s, ..v },
        IstKey::SuffixMp => IstFileView { suffix_mp: s, ..v },
        IstKey::StrokePrefix => IstFileView { stroke_prefix: s, ..v },
        IstKey::StrokeSuffix => IstFileView { stroke_suffix: s, ..v },
        IstKey::RadicalPrefix => IstFileView { radical_prefix: s, ..v },
        IstKey::RadicalSuffix => IstFileView { radical_suffix: s, ..v },
        IstKey::RadicalSimplifiedPrefix => IstFileView { radical_simplified_prefix: s, ..v },
        IstKey::RadicalSimplifiedDelimiter => IstFileView { radical_simplified_delimiter: s, ..v },
        IstKey::RadicalSimplifiedSuffix => IstFileView { radical_simplified_suffix: s, ..v },
        _ => v,
    }
}

/// The settings `v` with the character setting `k` set to `c`.
pub open spec fn with_char(v: IstFileView, k: IstKey, c: char) -> IstFileView {
    match k {
        IstKey::ArgOpen => IstFileView { arg_open: c, ..v },
        IstKey::ArgClose => IstFileView { arg_close: c, ..v },
        IstKey::RangeOpen => IstFileView { range_open: c, ..v },
        IstKey::RangeClose => IstFileView { range_close: c, ..v },
        IstKey::Level => IstFileView { level: c, ..v },
        IstKey::Actual => IstFileView { actual: c, ..v },
        IstKey::Encap => IstFileView { encap: c, ..v },
        IstKey::Quote => IstFileView { quote: c, ..v },
        IstKey::Escape => IstFileView { escape: c, ..v },
        IstKey::Comment => IstFileView { comment: c, ..v },
        _ => v,
    }
}

/// The settings `v` with the number setting `k` set to `n` (cut to 32 bits).
pub open spec fn with_num(v: IstFileView, k: IstKey, n: i64) -> IstFileView {
    match k {
        IstKey::HeadingsFlag => IstFileView { headings_flag: n as i32, ..v },
        IstKey::RadicalSimplifiedFlag => IstFileView { radical_simplified_flag: n as i32, ..v },
        _ => v,
    }
}

impl IstFile {
    fn set_str(&mut self, k: IstKey, s: String)
        ensures
            final(self)@ == with_str(old(self)@, k, s@),
    {
        match k {
            IstKey::Keyword => self.keyword = s,
            IstKey::PageCompositor => self.page_compositor = s,
            IstKey::Separator => self.separator = s,
            IstKey::Preamble => self.preamble = s,
            IstKey::Postamble => self.postamble = s,
            IstKey::GroupSkip => self.group_skip = s,
            IstKey::HeadingPrefix => self.heading_prefix = s,
            IstKey::HeadingSuffix => self.heading_suffix = s,
            IstKey::NumheadPositive => self.numhead_positive = s,
            IstKey::NumheadNegative => self.numhead_negative = s,
            IstKey::SymheadPositive => self.symhead_positive = s,
            IstKey::SymheadNegative => self.symhead_negative = s,
            IstKey::Item0 => self.item_0 = s,
            IstKey::Item1 => self.item_1 = s,
            IstKey::Item2 => self.item_2 = s,
            IstKey::Item01 => self.item_01 = s,
            IstKey::ItemX1 => self.item_x1 = s,
            IstKey::Item12 => self.item_12 = s,
            IstKey::ItemX2 => self.item_x2 = s,
            IstKey::Delim0 => self.delim_0 = s,
            IstKey::Delim1 => self.delim_1 = s,
            IstKey::Delim2 => self.delim_2 = s,
            IstKey::DelimN => self.delim_n = s,
            IstKey::DelimR => self.delim_r = s,
            IstKey::DelimT => self.delim_t = s,
            IstKey::EncapPrefix => self.encap_prefix = s,
            IstKey::EncapInfix => self.encap_infix = s,
            IstKey::EncapSuffix => self.encap_suffix = s,
            IstKey::PagePrecedence => self.page_precedence = s,
            IstKey::Suffix2p => self.suffix_2p = s,
            IstKey::Suffix3p => self.suffix_3p = s,
            IstKey::SuffixMp => self.suffix_mp = s,
            IstKey::StrokePrefix => self.stroke_prefix = s,
            IstKey::StrokeSuffix => self.stroke_suffix = s,
            IstKey::RadicalPrefix => self.radical_prefix = s,
            IstKey::RadicalSuffix => self.radical_suffix = s,
            IstKey::RadicalSimplifiedPrefix => self.radical_simplified_prefix = s,
            IstKey::RadicalSimplifiedDelimiter => self.radical_simplified_delimiter = s,
            IstKey::RadicalSimplifiedSuffix => self.radical_simplified_suffix = s,
            _ => {},
        }
    }

    fn set_char(&mut self, k: IstKey, c: char)
        ensures
            final(self)@ == with_char(old(self)@, k, c),
    {
        match k {
            IstKey::ArgOpen => self.arg_open = c,
            IstKey::ArgClose => self.arg_close = c,
            IstKey::RangeOpen => self.range_open = c,
            IstKey::RangeClose => self.range_close = c,
            IstKey::Level => self.level = c,
            IstKey::Actual => self.actual = c,
            IstKey::Encap => self.encap = c,
            IstKey::Quote => self.quote = c,
            IstKey::Escape => self.escape = c,
            IstKey::Comment => self.comment = c,
            _ => {},
        }
    }

    fn set_num(&mut self, k: IstKey, n: i64)
        ensures
            final(self)@ == with_num(old(self)@, k, n),
    {
        #[verifier::truncate]
        let v = n as i32;
        match k {
            IstKey::HeadingsFlag => self.headings_flag = v,
            IstKey::RadicalSimplifiedFlag => self.radical_simplified_flag = v,
            _ => {},
        }
    }

    /// Splits the settings into those that reading uses and those that writing uses.
    pub fn split(self) -> (r: (IstInputStyle, IstOutputStyle))
        ensures
            r.0.keyword@ == self.keyword@,
            r.0.arg_open == self.arg_open,
            r.0.arg_close == self.arg_close,
            r.0.range_open == self.range_open,
            r.0.range_close == self.range_close,
            r.0.level == self.level,
            r.0.actual == self.actual,
            r.0.encap == self.encap,
            r.0.quote == self.quote,
            r.0.escape == self.escape,
            r.0.page_compositor@ == self.page_compositor@,
            r.0.separator@ == self.separator@,
            r.1.preamble@ == self.preamble@,
            r.1.postamble@ == self.postamble@,
            r.1.group_skip@ == self.group_skip@,
            r.1.heading_prefix@ == self.heading_prefix@,
            r.1.heading_suffix@ == self.heading_suffix@,
            r.1.headings_flag == self.headings_flag,
            r.1.numhead_positive@ == self.numhead_positive@,
            r.1.numhead_negative@ == self.numhead_negative@,
            r.1.symhead_positive@ == self.symhead_positive@,
            r.1.symhead_negative@ == self.symhead_negative@,
            r.1.item_0@ == self.item_0@,
            r.1.item_1@ == self.item_1@,
            r.1.item_2@ == self.item_2@,
            r.1.item_01@ == self.item_01@,
            r.1.item_x1@ == self.item_x1@,
            r.1.item_12@ == self.item_12@,
            r.1.item_x2@ == self.item_x2@,
            r.1.delim_0@ == self.delim_0@,
            r.1.delim_1@ == self.delim_1@,
            r.1.delim_2@ == self.delim_2@,
            r.1.delim_n@ == self.delim_n@,
            r.1.delim_r@ == self.delim_r@,
            r.1.delim_t@ == self.delim_t@,
            r.1.encap_prefix@ == self.encap_prefix@,
            r.1.encap_infix@ == self.encap_infix@,
            r.1.encap_suffix@ == self.encap_suffix@,
            r.1.page_precedence@ == self.page_precedence@,
            r.1.suffix_2p@ == self.suffix_2p@,
            r.1.suffix_3p@ == self.suffix_3p@,
            r.1.suffix_mp@ == self.suffix_mp@,
            r.0.comment == self.comment,
            r.1.stroke_prefix@ == self.stroke_prefix@,
            r.1.stroke_suffix@ == self.stroke_suffix@,
            r.1.radical_prefix@ == self.radical_prefix@,
            r.1.radical_suffix@ == self.radical_suffix@,
            r.1.radical_simplified_flag == self.radical_simplified_flag,
            r.1.radical_simplified_prefix@ == self.radical_simplified_prefix@,
            r.1.radical_simplified_delimiter@ == self.radical_simplified_delimiter@,
            r.1.radical_simplified_suffix@ == self.radical_simplified_suffix@,
    {
        (
            IstInputStyle {
                keyword: self.keyword,
                arg_open: self.arg_open,
                arg_close: self.arg_close,
                range_open: self.range_open,
                range_close: self.range_close,
                level: self.level,
                actual: self.actual,
                encap: self.encap,
                quote: self.quote,
                escape: self.escape,
                page_compositor: self.page_compositor,
                comment: self.comment,
                separator: self.separator,
            },
            IstOutputStyle {
                preamble: self.preamble,
                postamble: self.postamble,
                group_skip: self.group_skip,
                heading_prefix: self.heading_prefix,
                heading_suffix: self.heading_suffix,
                headings_flag: self.headings_flag,
                numhead_positive: self.numhead_positive,
                numhead_negative: self.numhead_negative,
                symhead_positive: self.symhead_positive,
                symhead_negative: self.symhead_negative,
                item_0: self.item_0,
                item_1: self.item_1,
                item_2: self.item_2,
                item_01: self.item_01,
                item_x1: self.item_x1,
                item_12: self.item_12,
                item_x2: self.item_x2,
                delim_0: self.delim_0,
                delim_1: self.delim_1,
                delim_2: self.delim_2,
                delim_n: self.delim_n,
                delim_r: self.delim_r,
                delim_t: self.delim_t,
                encap_prefix: self.encap_prefix,
                encap_infix: self.encap_infix,
                encap_suffix: self.encap_suffix,
                page_precedence: self.page_precedence,
                suffix_2p: self.suffix_2p,
                suffix_3p: self.suffix_3p,
                suffix_mp: self.suffix_mp,
                stroke_prefix: self.stroke_prefix,
                stroke_suffix: self.stroke_suffix,
                radical_prefix: self.radical_prefix,
                radical_suffix: self.radical_suffix,
                radical_simplified_flag: self.radical_simplified_flag,
                radical_simplified_prefix: self.radical_simplified_prefix,
                radical_simplified_delimiter: self.radical_simplified_delimiter,
                radical_simplified_suffix: self.radical_simplified_suffix,
            },
        )
    }
}

/// The settings that reading index entries uses.
#[derive(Debug, Clone)]
pub struct IstInputStyle {
    /// Index command. Default `"\\indexentry"`.
    pub keyword: String,
    /// Argument opening delimiter. Default: `'{'`.
    pub arg_open: char,
    /// Argument closing delimiter. Default: `'}'`.
    pub arg_close: char,
    /// Page range opening delimiter. Default: `'('`.
    pub range_open: char,
    /// Page range closing delimiter. Default: `')'`.
    pub range_close: char,
    /// Index level delimiter. Default: `'!'`.
    pub level: char,
    /// Actual key designator. Default: `'@'`.
    pub actual: char,
    /// Page number encapsulator. Default: `'|'`.
    pub encap: char,
    /// Quote symbol. Default: `'"'`.
    pub quote: char,
    /// Symbol that escapes `quote`. Default: `'\\'`.
    pub escape: char,
    /// Composite page delimiter. Default: `"-"`.
    pub page_compositor: String,
    /// Comment line designator. Default: `'%'`.
    pub comment: char,
    /// Separator of kv format. Default: `","`.
    pub separator: String,
}

/// The settings that writing the index uses.
#[derive(Debug, Clone)]
pub struct IstOutputStyle {
    /// Index preamble. Default: `"\\begin{theindex}\n"`.
    pub preamble: String,
    /// Index postamble. Default: `"\n\n\\end{theindex}\n"`.
    pub postamble: String,
    /// Intergroup vertical space. Default: `"\n\n  \\indexspace\n"`.
    pub group_skip: String,
    /// New letter heading prefix. Default: `""`.
    pub heading_prefix: String,
    /// New letter heading suffix. Default: `""`.
    pub heading_suffix: String,
    /// Flag designating new letter. Default: `0`.
    pub headings_flag: i32,
    /// Heading for numbers (flag > 0). Default: `"Numbers"`.
    pub numhead_positive: String,
    /// Heading for numbers (flag < 0). Default: `"numbers"`.
    pub numhead_negative: String,
    /// Heading for symbols (flag > 0). Default: `"Symbols"`.
    pub symhead_positive: String,
    /// Heading for symbols (flag < 0). Default: `"symbols"`.
    pub symhead_negative: String,
    /// Level 0 item separator. Default: `"\n  \\item "`.
    pub item_0: String,
    /// Level 1 item separator. Default: `"\n    \\subitem "`.
    pub item_1: String,
    /// Level 2 item separator. Default: `"\n      \\subsubitem "`.
    pub item_2: String,
    /// Levels 0/1 separator. Default: `"\n    \\subitem "`.
    pub item_01: String,
    /// Levels 0/1 separator, no page number at level 0. Default: `"\n    \\subitem "`.
    pub item_x1: String,
    /// Levels 1/2 separator. Default: `"\n      \\subsubitem "`.
    pub item_12: String,
    /// Levels x/2 separator, no page number at level 0. Default: `"\n      \\subsubitem "`.
    pub item_x2: String,
    /// Level 0 key/page delimiter. Default: `", "`.
    pub delim_0: String,
    /// Level 1 key/page delimiter. Default: `", "`.
    pub delim_1: String,
    /// Level 2 key/page delimiter. Default: `", "`.
    pub delim_2: String,
    /// Inter page number delimiter. Default: `", "`.
    pub delim_n: String,
    /// Page range designator. Default: `"--"`.
    pub delim_r: String,
    /// Page list terminator. Default: `""`.
    pub delim_t: String,
    /// Page encapsulator prefix. Default: `"\\"`.
    pub encap_prefix: String,
    /// Page encapsulator infix. Default: `"{"`.
    pub encap_infix: String,
    /// Page encapsulator suffix. Default: `"}"`.
    pub encap_suffix: String,
    /// Page type precedence. Default: `"rnaRA"`.
    pub page_precedence: String,
    /// Replaces the range delimiter and the second page number of a two page list; when present, it overrides `delim_r`. Default `""`.
    pub suffix_2p: String,
    /// Replaces the range delimiter and the second page number of a three page list; when present, it overrides `delim_r` and `suffix_mp`. Default `""`.
    pub suffix_3p: String,
    /// Replaces the range delimiter and the second page number of a list of three or more pages; when present, it overrides `delim_r`. Default `""`.
    pub suffix_mp: String,
    /// Prefix of a stroke count heading. Default: `""`.
    pub stroke_prefix: String,
    /// Suffix of a stroke count heading. Default: `" \u{753b}"`.
    pub stroke_suffix: String,
    /// Prefix of a radical heading. Default: `""`.
    pub radical_prefix: String,
    /// Suffix of a radical heading. Default: `"\u{90e8}"`.
    pub radical_suffix: String,
    /// Whether simplified radicals are shown. Default: `1`.
    pub radical_simplified_flag: i32,
    /// Prefix of the simplified radicals. Default: `"\u{ff08}"`.
    pub radical_simplified_prefix: String,
    /// Delimiter between simplified radicals. Default: `"\u{3001}"`.
    pub radical_simplified_delimiter: String,
    /// Suffix of the simplified radicals. Default: `"\u{ff09}"`.
    pub radical_simplified_suffix: String,
}

// ---------------------------------------------------------------------------
// Reading a style file

/// The end of the key at `i`: the first line feed, tab or space at or after `i`.
pub open spec fn sep_end(cs: Seq<char>, i: int) -> int
    decreases cs.len() - i,
{
    if 0 <= i < cs.len() && !(cs[i] == '\n' || cs[i] == '\t' || cs[i] == ' ') {
        sep_end(cs, i + 1)
    } else {
        i
    }
}

/// The end of `cs[a..b]` once trailing ASCII white space is removed.
pub open spec fn trim_end(cs: Seq<char>, a: int, b: int) -> int
    decreases b - a,
{
    if a < b && 0 < b <= cs.len() && is_ascii_ws(cs[b - 1]) {
        trim_end(cs, a, b - 1)
    } else {
        b
    }
}

/// What one step of reading a style file does.
pub enum IstStep {
    /// Reading stops with these settings.
    Done(IstFileView),
    /// The settings so far, and where the next key starts.
    Next(IstFileView, int),
    /// Reading fails, with the settings so far.
    Fail(IstFileView, IstError),
}

/// The value of an unknown key, read by its first character and ignored.
pub open spec fn unknown_value(cs: Seq<char>, p: int) -> Result<int, IstError> {
    let c = cs[p];
    if c == '"' || c == '`' || c == 'r' {
        match spec_scan_string(cs, p) {
            Ok((_, q)) => Ok(q),
            Err(e) => Err(e),
        }
    } else if c == '\'' {
        match spec_scan_char(cs, p) {
            Ok((_, q)) => Ok(q),
            Err(e) => Err(e),
        }
    } else if c == '+' || c == '-' || ('0' <= c <= '9') {
        match spec_scan_number(cs, p) {
            Ok((_, q)) => Ok(q),
            Err(e) => Err(e),
        }
    } else {
        Err(IstError::InvalidValue)
    }
}

/// The value of the key `key` at `p`: the settings with it applied, and the position after it.
pub open spec fn read_value(v: IstFileView, key: Seq<char>, cs: Seq<char>, p: int) -> Result<
    (IstFileView, int),
    IstError,
> {
    match key_class(key) {
        KeyClass::Setting(k) => match key_kind(k) {
            ValueKind::Str => match spec_scan_string(cs, p) {
                Ok((s, q)) => Ok((with_str(v, k, s), q)),
                Err(e) => Err(e),
            },
            ValueKind::Char => match spec_scan_char(cs, p) {
                Ok((c, q)) => Ok((with_char(v, k, c), q)),
                Err(e) => Err(e),
            },
            ValueKind::Num => match spec_scan_number(cs, p) {
                Ok((n, q)) => Ok((with_num(v, k, n), q)),
                Err(e) => Err(e),
            },
        },
        KeyClass::SkipString => match spec_scan_string(cs, p) {
            Ok((_, q)) => Ok((v, q)),
            Err(e) => Err(e),
        },
        KeyClass::SkipNumber => match spec_scan_number(cs, p) {
            Ok((_, q)) => Ok((v, q)),
            Err(e) => Err(e),
        },
        KeyClass::Unknown => match unknown_value(cs, p) {
            Ok(q) => Ok((v, q)),
            Err(e) => Err(e),
        },
    }
}

/// One step of reading a style file at `pos`, where a key or a comment starts: a key is
/// the text up to the first line feed, tab or space (trailing white space removed); a key
/// starting with `%` opens a comment up to the end of the line, and a comment at the end
/// of the text ends reading; any other key is followed by white space and its value, and
/// the value by white space or the end of the text, which ends reading. An unknown key at
/// the end of the text ends reading.
pub open spec fn ist_step(v: IstFileView, cs: Seq<char>, pos: int) -> IstStep {
    let e = sep_end(cs, pos);
    if cs[pos] == '%' {
        if e >= cs.len() {
            IstStep::Done(v)
        } else if cs[e] != '\n' {
            match find_char_from(cs, e, '\n') {
                Some(nl) => IstStep::Next(v, skip_ws(cs, nl)),
                None => IstStep::Done(v),
            }
        } else {
            IstStep::Next(v, skip_ws(cs, e + 1))
        }
    } else if e >= cs.len() {
        IstStep::Fail(v, IstError::OutOfBounds)
    } else {
        let key = cs.subrange(pos, trim_end(cs, pos, e));
        let p = skip_ws(cs, e + 1);
        if key_class(key) == KeyClass::Unknown && p >= cs.len() {
            IstStep::Done(v)
        } else {
            match read_value(v, key, cs, p) {
                Err(err) => IstStep::Fail(v, err),
                Ok((w, q)) => if q >= cs.len() {
                    IstStep::Done(w)
                } else if is_ascii_ws(cs[q]) {
                    IstStep::Next(w, skip_ws(cs, q))
                } else {
                    IstStep::Fail(w, IstError::NoSpaceAfterValue)
                },
            }
        }
    }
}

proof fn lemma_sep_end_bounds(cs: Seq<char>, i: int)
    requires
        0 <= i <= cs.len(),
    ensures
        i <= sep_end(cs, i) <= cs.len(),
    decreases cs.len() - i,
{
    if i < cs.len() && !(cs[i] == '\n' || cs[i] == '\t' || cs[i] == ' ') {
        lemma_sep_end_bounds(cs, i + 1);
    }
}

proof fn lemma_read_value_progress(v: IstFileView, key: Seq<char>, cs: Seq<char>, p: int)
    requires
        0 <= p,
    ensures
        read_value(v, key, cs, p) matches Ok((_w, q)) ==> p < q <= cs.len(),
{
    lemma_scan_string_progress(cs, p);
    lemma_scan_char_progress(cs, p);
    lemma_scan_number_progress(cs, p);
}

/// Each step that goes on moves forward within the text.
pub proof fn lemma_ist_step_progress(v: IstFileView, cs: Seq<char>, pos: int)
    requires
        0 <= pos < cs.len(),
    ensures
        ist_step(v, cs, pos) matches IstStep::Next(_w, q) ==> pos < q <= cs.len(),
{
    lemma_sep_end_bounds(cs, pos);
    let e = sep_end(cs, pos);
    if e < cs.len() {
        if cs[pos] == '%' && cs[e] != '\n' {
            lemma_find_char_from_bounds(cs, e, '\n');
            match find_char_from(cs, e, '\n') {
                Some(nl) => lemma_skip_ws_past(cs, nl),
                None => {},
            }
        } else {
            lemma_skip_ws_bounds(cs, e + 1);
            if cs[pos] != '%' {
                let key = cs.subrange(pos, trim_end(cs, pos, e));
                let p = skip_ws(cs, e + 1);
                lemma_read_value_progress(v, key, cs, p);
                match read_value(v, key, cs, p) {
                    Ok((_w, q)) => if q < cs.len() && is_ascii_ws(cs[q]) {
                        lemma_skip_ws_past(cs, q);
                    },
                    Err(_) => {},
                }
            }
        }
    }
}

/// Reads the style text `cs` from `pos` on into the settings `v`: the settings reached, and
/// the error that stopped reading, if any.
pub open spec fn ist_read_from(v: IstFileView, cs: Seq<char>, pos: int) -> (
    IstFileView,
    Option<IstError>,
)
    decreases cs.len() - pos,
{
    if pos < 0 || pos >= cs.len() {
        (v, None)
    } else {
        match ist_step(v, cs, pos) {
            IstStep::Done(w) => (w, None),
            IstStep::Fail(w, e) => (w, Some(e)),
            IstStep::Next(w, q) => {
                proof {
                    lemma_ist_step_progress(v, cs, pos);
                }
                ist_read_from(w, cs, q)
            },
        }
    }
}

/// Reads the style text `content` into the settings `v`, after leading white space.
pub open spec fn spec_read_ist(v: IstFileView, content: Seq<char>) -> (
    IstFileView,
    Option<IstError>,
) {
    ist_read_from(v, content, skip_ws(content, 0))
}

enum StepOut {
    Done,
    Next(usize),
    Fail(IstError),
}

fn sep_end_exec(cs: &Vec<char>, i: usize) -> (r: usize)
    requires
        i <= cs@.len(),
    ensures
        r == sep_end(cs@, i as int),
        i <= r <= cs@.len(),
{
    let mut j = i;
    while j < cs.len() && !(cs[j] == '\n' || cs[j] == '\t' || cs[j] == ' ')
        invariant
            i <= j <= cs@.len(),
            sep_end(cs@, i as int) == sep_end(cs@, j as int),
        decreases cs@.len() - j,
    {
        j = j + 1;
    }
    j
}

fn trim_end_exec(cs: &Vec<char>, a: usize, b: usize) -> (r: usize)
    requires
        a <= b <= cs@.len(),
    ensures
        r == trim_end(cs@, a as int, b as int),
        a <= r <= b,
{
    let mut k = b;
    while a < k && is_ascii_ws_exec(cs[k - 1])
        invariant
            a <= k <= b <= cs@.len(),
            trim_end(cs@, a as int, b as int) == trim_end(cs@, a as int, k as int),
        decreases k - a,
    {
        k = k - 1;
    }
    k
}

fn unknown_value_exec(cs: &Vec<char>, p: usize) -> (r: Result<usize, IstError>)
    requires
        p < cs@.len(),
    ensures
        match unknown_value(cs@, p as int) {
            Ok(q) => r == Ok::<usize, IstError>(q as usize) && p < q <= cs@.len(),
            Err(e) => r == Err::<usize, IstError>(e),
        },
{
    let c = cs[p];
    if c == '"' || c == '`' || c == 'r' {
        match scan_string_at(cs.as_slice(), p) {
            Ok((_, q)) => Ok(q),
            Err(e) => Err(e),
        }
    } else if c == '\'' {
        match scan_char_at(cs.as_slice(), p) {
            Ok((_, q)) => Ok(q),
            Err(e) => Err(e),
        }
    } else if c == '+' || c == '-' || (c >= '0' && c <= '9') {
        match scan_number_at(cs.as_slice(), p) {
            Ok((_, q)) => Ok(q),
            Err(e) => Err(e),
        }
    } else {
        Err(IstError::InvalidValue)
    }
}

impl IstFile {
    /// Reads the value of the key `key` at `p` into the settings.
    fn read_value_exec(&mut self, key: &Vec<char>, cs: &Vec<char>, p: usize) -> (r: Result<
        usize,
        IstError,
    >)
        requires
            p < cs@.len(),
        ensures
            match read_value(old(self)@, key@, cs@, p as int) {
                Ok((w, q)) => r == Ok::<usize, IstError>(q as usize) && final(self)@ == w && p < q
                    <= cs@.len(),
                Err(e) => r == Err::<usize, IstError>(e) && final(self)@ == old(self)@,
            },
    {
        match key_class_exec(key) {
            KeyClass::Setting(k) => match key_kind_exec(k) {
                ValueKind::Str => match scan_string_at(cs.as_slice(), p) {
                    Ok((s, q)) => {
                        self.set_str(k, s);
                        Ok(q)
                    },
                    Err(e) => Err(e),
                },
                ValueKind::Char => match scan_char_at(cs.as_slice(), p) {
                    Ok((c, q)) => {
                        self.set_char(k, c);
                        Ok(q)
                    },
                    Err(e) => Err(e),
                },
                ValueKind::Num => match scan_number_at(cs.as_slice(), p) {
                    Ok((n, q)) => {
                        self.set_num(k, n);
                        Ok(q)
                    },
                    Err(e) => Err(e),
                },
            },
            KeyClass::SkipString => match scan_string_at(cs.as_slice(), p) {
                Ok((_, q)) => Ok(q),
                Err(e) => Err(e),
            },
            KeyClass::SkipNumber => match scan_number_at(cs.as_slice(), p) {
                Ok((_, q)) => Ok(q),
                Err(e) => Err(e),
            },
            KeyClass::Unknown => unknown_value_exec(cs, p),
        }
    }

    /// One step of reading (see `ist_step`).
    fn step(&mut self, cs: &Vec<char>, pos: usize) -> (r: StepOut)
        requires
            pos < cs@.len(),
        ensures
            match ist_step(old(self)@, cs@, pos as int) {
                IstStep::Done(w) => r is Done && final(self)@ == w,
                IstStep::Next(w, q) => r == StepOut::Next(q as usize) && final(self)@ == w && pos
                    < q <= cs@.len(),
                IstStep::Fail(w, e) => r == StepOut::Fail(e) && final(self)@ == w,
            },
    {
        let e = sep_end_exec(cs, pos);
        if cs[pos] == '%' {
            if e >= cs.len() {
                return StepOut::Done;
            }
            if cs[e] != '\n' {
                return match find_char_from_exec(cs.as_slice(), e, '\n') {
                    Some(nl) => {
                        proof {
                            lemma_skip_ws_bounds(cs@, nl as int);
                        }
                        StepOut::Next(skip_ws_exec(cs.as_slice(), nl))
                    },
                    None => StepOut::Done,
                };
            }
            proof {
                lemma_skip_ws_bounds(cs@, e + 1);
            }
            return StepOut::Next(skip_ws_exec(cs.as_slice(), e + 1));
        }
        if e >= cs.len() {
            return StepOut::Fail(IstError::OutOfBounds);
        }
        let kend = trim_end_exec(cs, pos, e);
        let key = crate::text::chars_range(cs, pos, kend);
        let p = skip_ws_exec(cs.as_slice(), e + 1);
        if p >= cs.len() {
            // At the end of the text an unknown key ends reading, and any other key finds
            // no value.
            return match key_class_exec(&key) {
                KeyClass::Setting(k) => match key_kind_exec(k) {
                    ValueKind::Str => StepOut::Fail(IstError::Empty),
                    ValueKind::Char => StepOut::Fail(IstError::Empty),
                    ValueKind::Num => StepOut::Fail(IstError::Empty),
                },
                KeyClass::SkipString => StepOut::Fail(IstError::Empty),
                KeyClass::SkipNumber => StepOut::Fail(IstError::Empty),
                KeyClass::Unknown => StepOut::Done,
            };
        }
        match self.read_value_exec(&key, cs, p) {
            Err(err) => StepOut::Fail(err),
            Ok(q) => {
                if q >= cs.len() {
                    StepOut::Done
                } else if is_ascii_ws_exec(cs[q]) {
                    proof {
                        lemma_skip_ws_bounds(cs@, q as int);
                    }
                    StepOut::Next(skip_ws_exec(cs.as_slice(), q))
                } else {
                    StepOut::Fail(IstError::NoSpaceAfterValue)
                }
            },
        }
    }

    /// Reads the style text `cs` from `pos` on into the settings.
    fn read_chars(&mut self, cs: &Vec<char>, pos: usize) -> (r: Option<IstError>)
        requires
            pos <= cs@.len(),
        ensures
            (final(self)@, r) == ist_read_from(old(self)@, cs@, pos as int),
    {
        let mut p = pos;
        while p < cs.len()
            invariant
                p <= cs@.len(),
                ist_read_from(old(self)@, cs@, pos as int) == ist_read_from(self@, cs@, p as int),
            decreases cs@.len() - p,
        {
            match self.step(cs, p) {
                StepOut::Done => {
                    return None;
                },
                StepOut::Fail(e) => {
                    return Some(e);
                },
                StepOut::Next(q) => {
                    p = q;
                },
            }
        }
        None
    }

    /// Reads a style text over the default settings.
    pub fn read_string(ist_content: &str) -> (r: Result<IstFile, IstError>)
        ensures
            match spec_read_ist(default_view(), ist_content@) {
                (w, None) => r matches Ok(f) && f@ == w,
                (_, Some(e)) => r matches Err(x) && x == e,
            },
    {
        let mut ist_file = IstFile::default();
        match ist_file.append(ist_content) {
            Ok(()) => Ok(ist_file),
            Err(e) => Err(e),
        }
    }

    /// Reads a style text over these settings. On failure the settings read before the
    /// failing one stay applied.
    pub fn append(&mut self, ist_content: &str) -> (r: Result<(), IstError>)
        ensures
            final(self)@ == spec_read_ist(old(self)@, ist_content@).0,
            match spec_read_ist(old(self)@, ist_content@).1 {
                None => r is Ok,
                Some(e) => r == Err::<(), IstError>(e),
            },
    {
        let cs = str_chars(ist_content);
        let start = skip_ws_exec(cs.as_slice(), 0);
        match self.read_chars(&cs, start) {
            None => Ok(()),
            Some(e) => Err(e),
        }
    }
}

} // verus!
