use vstd::prelude::*;

use crate::page::{kind_name, spec_parse_page, parse_page_chars, IndexPage, IndexPageKind, PageError};
use crate::scan::{is_ascii_ws, is_ascii_ws_exec};
use crate::style::IstInputStyle;
use crate::text::{has_at, starts_with_at, str_chars, string_from_chars};

verus! {

/// Whether a record opens a page range, closes one, or stands alone.
#[derive(Debug, Clone, Copy, PartialEq, Eq, Structural)]
pub enum RangeKind {
    Open,
    Close,
    Plain,
}

/// One entry of an index file: its levels as (sort key, display) pairs, its range kind,
/// its page command, its page and the page as it was written.
#[derive(Debug, Clone, PartialEq)]
pub struct IndexEntry {
    pub levels: Vec<(Option<String>, String)>,
    pub range: RangeKind,
    pub page_commands: Option<String>,
    pub pages: Vec<IndexPage>,
    pub pages_raw: String,
}

/// An optional string seen as its characters.
pub open spec fn opt_chars(o: Option<String>) -> Option<Seq<char>> {
    match o {
        Some(s) => Some(s@),
        None => None,
    }
}

/// A level seen as characters: the sort key, if any, and the display.
pub open spec fn level_view(l: (Option<String>, String)) -> (Option<Seq<char>>, Seq<char>) {
    (opt_chars(l.0), l.1@)
}

/// The levels of an entry seen as characters.
pub open spec fn levels_view(ls: Seq<(Option<String>, String)>) -> Seq<(Option<Seq<char>>, Seq<char>)> {
    ls.map_values(|l: (Option<String>, String)| level_view(l))
}

/// An index entry as plain values.
pub struct EntryView {
    pub levels: Seq<(Option<Seq<char>>, Seq<char>)>,
    pub range: RangeKind,
    pub page_commands: Option<Seq<char>>,
    pub pages: Seq<IndexPage>,
    pub pages_raw: Seq<char>,
}

impl View for IndexEntry {
    type V = EntryView;

    open spec fn view(&self) -> EntryView {
        EntryView {
            levels: levels_view(self.levels@),
            range: self.range,
            page_commands: opt_chars(self.page_commands),
            pages: self.pages@,
            pages_raw: self.pages_raw@,
        }
    }
}

/// The identity of a level: its sort key (its display where it has none) and its display.
pub open spec fn level_key(l: (Option<Seq<char>>, Seq<char>)) -> (Seq<char>, Seq<char>) {
    match l.0 {
        Some(k) => (k, l.1),
        None => (l.1, l.1),
    }
}

/// The identity of a list of levels, level by level.
pub open spec fn levels_key(ls: Seq<(Option<Seq<char>>, Seq<char>)>) -> Seq<(Seq<char>, Seq<char>)> {
    ls.map_values(|l: (Option<Seq<char>>, Seq<char>)| level_key(l))
}

fn same_level(l: &(Option<String>, String), r: &(Option<String>, String)) -> (b: bool)
    ensures
        b == (level_key(level_view(*l)) == level_key(level_view(*r))),
{
    match (&l.0, &r.0) {
        (None, None) => l.1 == r.1,
        (Some(kl), None) => *kl == r.1 && l.1 == r.1,
        (None, Some(kr)) => l.1 == *kr && l.1 == r.1,
        (Some(kl), Some(kr)) => *kl == *kr && l.1 == r.1,
    }
}

impl IndexEntry {
    /// Whether `other` is an entry for the same levels: as many levels, and level by level
    /// the same sort key (the display where a level has none) and the same display.
    /// The pages are not compared.
    pub fn is_same(&self, other: &Self) -> (b: bool)
        ensures
            b == (levels_key(self@.levels) == levels_key(other@.levels)),
    {
        let ghost a = levels_key(self@.levels);
        let ghost c = levels_key(other@.levels);
        if self.levels.len() != other.levels.len() {
            assert(a.len() != c.len());
            return false;
        }
        let mut i: usize = 0;
        while i < self.levels.len()
            invariant
                a == levels_key(self@.levels),
                c == levels_key(other@.levels),
                self.levels@.len() == other.levels@.len(),
                i <= self.levels@.len(),
                forall|j: int| 0 <= j < i ==> a[j] == c[j],
            decreases self.levels@.len() - i,
        {
            if !same_level(&self.levels[i], &other.levels[i]) {
                assert(a[i as int] != c[i as int]);
                return false;
            }
            i = i + 1;
        }
        assert(a =~= c);
        true
    }
}

// ---------------------------------------------------------------------------
// Reading an index line

/// Why an index line, or an entry in key-value form, was refused.
#[derive(Debug, Clone, Copy, PartialEq, Eq, Structural)]
pub enum EntryError {
    /// The line is not an index entry of the style.
    Invalid,
    /// A page number was refused.
    Page(PageError),
    /// A key-value line lacks its range field.
    MissingRange,
    /// The range field is neither empty nor one of the range characters.
    BadRange,
    /// A key-value line lacks its command field.
    MissingCommands,
    /// A key-value line lacks its field with the number of levels.
    MissingLength,
    /// The number of levels is not a decimal number that fits in `usize`.
    BadLength,
    /// A key-value line has more than four fields.
    ExtraField,
    /// The lines end before the sort key of the given level (counted from one).
    MissingKey(usize),
    /// The lines end before the display of the given level (counted from one).
    MissingDisplay(usize),
    /// A level has an empty display.
    EmptyDisplay,
}

/// Which argument of an index line is being read.
#[derive(Debug, Clone, Copy, PartialEq, Eq, Structural)]
pub enum LinePart {
    /// The levels.
    Value,
    /// The page command, after the encapsulator.
    Special,
    /// The page.
    Page,
}

/// What has been read of an index line: the part being read, the position in the line, the
/// current display and sort key, the levels so far, the range kind, the page command, the
/// depth of argument delimiters, the current page component and the page read so far.
pub struct LineParse {
    pub part: LinePart,
    pub pos: int,
    pub entry: Seq<char>,
    pub key: Seq<char>,
    pub levels: Seq<(Option<Seq<char>>, Seq<char>)>,
    pub range: RangeKind,
    pub cmds: Option<Seq<char>>,
    pub arg_level: int,
    pub page_str: Seq<char>,
    pub pages_raw: Seq<char>,
    pub pages: Seq<IndexPage>,
}

/// What one step of reading does.
pub enum LineStep {
    Next(LineParse),
    Done(LineParse),
    Fail(EntryError),
}

/// Appends `c` to what the current part collects.
pub open spec fn push_char_to(st: LineParse, c: char) -> LineParse {
    match st.part {
        LinePart::Value => LineParse { entry: st.entry.push(c), ..st },
        LinePart::Special => LineParse {
            cmds: Some(
                match st.cmds {
                    Some(x) => x,
                    None => Seq::empty(),
                }.push(c),
            ),
            ..st
        },
        LinePart::Page => LineParse { page_str: st.page_str.push(c), ..st },
    }
}

/// Ends the current level: it gets the current sort key (none where it is empty) and display.
pub open spec fn finish_level(st: LineParse) -> LineParse {
    LineParse {
        levels: st.levels.push((if st.key.len() == 0 { None } else { Some(st.key) }, st.entry)),
        key: Seq::empty(),
        entry: Seq::empty(),
        ..st
    }
}

/// Reads one more piece of the line `s` under the style `ist`.
pub open spec fn line_step(ist: IstInputStyle, s: Seq<char>, st: LineParse) -> LineStep {
    let comp = ist.page_compositor@;
    if st.part == LinePart::Page && 0 <= st.pos < s.len() && has_at(s, st.pos, comp) {
        match spec_parse_page(st.page_str) {
            Err(e) => LineStep::Fail(EntryError::Page(e)),
            Ok(pg) => LineStep::Next(
                LineParse {
                    pos: st.pos + comp.len(),
                    pages: st.pages.push(pg),
                    pages_raw: st.pages_raw + st.page_str + comp,
                    page_str: Seq::empty(),
                    ..st
                },
            ),
        }
    } else if st.pos < 0 || st.pos >= s.len() {
        LineStep::Fail(EntryError::Invalid)
    } else {
        let c = s[st.pos];
        let st1 = LineParse { pos: st.pos + 1, ..st };
        if c == ist.quote {
            if st1.pos >= s.len() {
                LineStep::Fail(EntryError::Invalid)
            } else {
                LineStep::Next(push_char_to(LineParse { pos: st1.pos + 1, ..st1 }, s[st1.pos]))
            }
        } else if c == ist.escape {
            if st1.pos >= s.len() {
                LineStep::Fail(EntryError::Invalid)
            } else {
                let n = s[st1.pos];
                if n == ist.quote {
                    LineStep::Next(push_char_to(push_char_to(LineParse { pos: st1.pos + 1, ..st1 }, c), n))
                } else if n == ist.arg_open || n == ist.arg_close {
                    LineStep::Fail(EntryError::Invalid)
                } else {
                    LineStep::Next(push_char_to(st1, c))
                }
            }
        } else if st.part == LinePart::Value && c == ist.actual {
            if st.key.len() == 0 {
                LineStep::Next(LineParse { key: st.entry, entry: Seq::empty(), ..st1 })
            } else {
                LineStep::Next(push_char_to(st1, c))
            }
        } else if st.part == LinePart::Value && c == ist.level {
            LineStep::Next(finish_level(st1))
        } else if st.part == LinePart::Value && c == ist.encap {
            if st.arg_level == 1 {
                LineStep::Next(LineParse { part: LinePart::Special, ..finish_level(st1) })
            } else {
                LineStep::Next(push_char_to(st1, c))
            }
        } else if st.part == LinePart::Special && c == ist.range_open {
            LineStep::Next(LineParse { range: RangeKind::Open, ..st1 })
        } else if st.part == LinePart::Special && c == ist.range_close {
            LineStep::Next(LineParse { range: RangeKind::Close, ..st1 })
        } else if c == ist.arg_open {
            LineStep::Next(push_char_to(LineParse { arg_level: st.arg_level + 1, ..st1 }, c))
        } else if c == ist.arg_close {
            let lvl = st.arg_level - 1;
            if st.part != LinePart::Page && lvl == 0 {
                if st1.pos < s.len() && s[st1.pos] == ist.arg_open {
                    LineStep::Next(LineParse { part: LinePart::Page, pos: st1.pos + 1, arg_level: 1, ..st1 })
                } else {
                    LineStep::Fail(EntryError::Invalid)
                }
            } else if st.part == LinePart::Page && lvl == 0 {
                let st2 = if st.cmds is None {
                    finish_level(st1)
                } else {
                    st1
                };
                match spec_parse_page(st.page_str) {
                    Err(e) => LineStep::Fail(EntryError::Page(e)),
                    Ok(pg) => LineStep::Done(
                        LineParse {
                            arg_level: 0,
                            pages: st2.pages.push(pg),
                            pages_raw: st2.pages_raw + st2.page_str,
                            page_str: Seq::empty(),
                            ..st2
                        },
                    ),
                }
            } else {
                LineStep::Next(push_char_to(LineParse { arg_level: lvl, ..st1 }, c))
            }
        } else {
            LineStep::Next(push_char_to(st1, c))
        }
    }
}

/// A step that goes on moves forward in the line, or empties the current page component.
pub proof fn lemma_line_step_progress(ist: IstInputStyle, s: Seq<char>, st: LineParse)
    ensures
        line_step(ist, s, st) matches LineStep::Next(n) ==> 0 <= st.pos < s.len() && n.pos <= s.len() && (
        n.pos > st.pos || (n.pos == st.pos && n.page_str.len() < st.page_str.len())),
{
    if st.part == LinePart::Page && 0 <= st.pos < s.len() && has_at(s, st.pos, ist.page_compositor@) {
        if st.page_str.len() == 0 {
            assert(spec_parse_page(st.page_str) is Err);
        }
    }
}

/// Reads the rest of the line from `st` on, until the page argument closes.
pub open spec fn run_line(ist: IstInputStyle, s: Seq<char>, st: LineParse) -> Result<LineParse, EntryError>
    decreases s.len() - st.pos, st.page_str.len(),
{
    match line_step(ist, s, st) {
        LineStep::Fail(e) => Err(e),
        LineStep::Done(f) => Ok(f),
        LineStep::Next(n) => {
            proof {
                lemma_line_step_progress(ist, s, st);
            }
            run_line(ist, s, n)
        },
    }
}

/// The state at the start of the first argument, at position `pos`.
pub open spec fn line_start(pos: int) -> LineParse {
    LineParse {
        part: LinePart::Value,
        pos: pos,
        entry: Seq::empty(),
        key: Seq::empty(),
        levels: Seq::empty(),
        range: RangeKind::Plain,
        cmds: None,
        arg_level: 1,
        page_str: Seq::empty(),
        pages_raw: Seq::empty(),
        pages: Seq::empty(),
    }
}

/// Every character of `s` is ASCII white space.
pub open spec fn all_ascii_ws(s: Seq<char>) -> bool {
    forall|i: int| 0 <= i < s.len() ==> is_ascii_ws(#[trigger] s[i])
}

/// What an index line means under the style `ist`: nothing for a blank or comment line;
/// otherwise the keyword, then the levels argument (with sort keys after the actual
/// character, levels split by the level character, and a page command after the
/// encapsulator, which may start with a range character), then the page argument; with
/// nothing left over.
pub open spec fn spec_parse_line(ist: IstInputStyle, s: Seq<char>) -> Result<Option<EntryView>, EntryError> {
    let kw = ist.keyword@;
    let p = kw.len() as int;
    if all_ascii_ws(s) || s[0] == ist.comment {
        Ok(None)
    } else if !has_at(s, 0, kw) || !(p < s.len() && s[p] == ist.arg_open) || p + 1 >= s.len() {
        Err(EntryError::Invalid)
    } else {
        match run_line(ist, s, line_start(p + 1)) {
            Err(e) => Err(e),
            Ok(f) => if f.entry.len() > 0 || f.key.len() > 0 || f.levels.len() == 0 || f.arg_level != 0
                || f.pos < s.len() {
                Err(EntryError::Invalid)
            } else {
                Ok(
                    Some(
                        EntryView {
                            levels: f.levels,
                            range: f.range,
                            page_commands: f.cmds,
                            pages: f.pages,
                            pages_raw: f.pages_raw,
                        },
                    ),
                )
            },
        }
    }
}

struct LineCursor {
    part: LinePart,
    pos: usize,
    entry: Vec<char>,
    key: Vec<char>,
    levels: Vec<(Option<String>, String)>,
    range: RangeKind,
    cmds: Option<Vec<char>>,
    arg_level: usize,
    page_str: Vec<char>,
    pages_raw: Vec<char>,
    pages: Vec<IndexPage>,
}

spec fn cursor_view(c: LineCursor) -> LineParse {
    LineParse {
        part: c.part,
        pos: c.pos as int,
        entry: c.entry@,
        key: c.key@,
        levels: levels_view(c.levels@),
        range: c.range,
        cmds: match c.cmds {
            Some(v) => Some(v@),
            None => None,
        },
        arg_level: c.arg_level as int,
        page_str: c.page_str@,
        pages_raw: c.pages_raw@,
        pages: c.pages@,
    }
}

enum StepOutcome {
    Next,
    Done,
    Fail(EntryError),
}

fn cursor_push(cur: &mut LineCursor, c: char)
    ensures
        cursor_view(*final(cur)) == push_char_to(cursor_view(*old(cur)), c),
{
    match cur.part {
        LinePart::Value => {
            cur.entry.push(c);
        },
        LinePart::Special => {
            let mut v = match cur.cmds.take() {
                Some(v) => v,
                None => Vec::new(),
            };
            v.push(c);
            cur.cmds = Some(v);
        },
        LinePart::Page => {
            cur.page_str.push(c);
        },
    }
}

fn cursor_finish_level(cur: &mut LineCursor)
    ensures
        cursor_view(*final(cur)) == finish_level(cursor_view(*old(cur))),
{
    let display = string_from_chars(cur.entry.as_slice());
    let key = if cur.key.len() == 0 {
        None
    } else {
        Some(string_from_chars(cur.key.as_slice()))
    };
    let ghost before = cur.levels@;
    let l = (key, display);
    cur.levels.push(l);
    assert(levels_view(cur.levels@) =~= levels_view(before).push(level_view(l)));
    cur.key = Vec::new();
    cur.entry = Vec::new();
}

fn append_chars(dst: &mut Vec<char>, src: &Vec<char>)
    ensures
        final(dst)@ == old(dst)@ + src@,
{
    let mut i: usize = 0;
    let ghost start = dst@;
    while i < src.len()
        invariant
            i <= src@.len(),
            dst@ == start + src@.take(i as int),
        decreases src@.len() - i,
    {
        dst.push(src[i]);
        i = i + 1;
        assert(dst@ =~= start + src@.take(i as int));
    }
    assert(src@.take(i as int) =~= src@);
}

#[verifier::rlimit(40)]
fn cursor_step(
    ist: &IstInputStyle,
    s: &Vec<char>,
    comp: &Vec<char>,
    cur: &mut LineCursor,
) -> (o: StepOutcome)
    requires
        comp@ == ist.page_compositor@,
        old(cur).pos <= s@.len(),
        1 <= old(cur).arg_level <= old(cur).pos,
    ensures
        match o {
            StepOutcome::Next => line_step(*ist, s@, cursor_view(*old(cur))) == LineStep::Next(cursor_view(*final(cur)))
                && final(cur).pos <= s@.len() && 1 <= final(cur).arg_level <= final(cur).pos,
            StepOutcome::Done => line_step(*ist, s@, cursor_view(*old(cur))) == LineStep::Done(cursor_view(*final(cur))),
            StepOutcome::Fail(e) => line_step(*ist, s@, cursor_view(*old(cur))) == LineStep::Fail(e),
        },
{
    let ghost st = cursor_view(*cur);
    let n = s.len();
    if cur.part == LinePart::Page && cur.pos < n && starts_with_at(s.as_slice(), cur.pos, comp.as_slice()) {
        match parse_page_chars(&cur.page_str) {
            Err(e) => {
                return StepOutcome::Fail(EntryError::Page(e));
            },
            Ok(pg) => {
                cur.pages.push(pg);
                append_chars(&mut cur.pages_raw, &cur.page_str);
                append_chars(&mut cur.pages_raw, comp);
                cur.page_str = Vec::new();
                cur.pos = cur.pos + comp.len();
                proof {
                    assert(cur.pos <= s@.len());
                }
                return StepOutcome::Next;
            },
        }
    }
    if cur.pos >= n {
        return StepOutcome::Fail(EntryError::Invalid);
    }
    let c = s[cur.pos];
    cur.pos = cur.pos + 1;
    if c == ist.quote {
        if cur.pos >= n {
            return StepOutcome::Fail(EntryError::Invalid);
        }
        let d = s[cur.pos];
        cur.pos = cur.pos + 1;
        cursor_push(cur, d);
        return StepOutcome::Next;
    }
    if c == ist.escape {
        if cur.pos >= n {
            return StepOutcome::Fail(EntryError::Invalid);
        }
        let d = s[cur.pos];
        if d == ist.quote {
            cur.pos = cur.pos + 1;
            cursor_push(cur, c);
            cursor_push(cur, d);
            return StepOutcome::Next;
        } else if d == ist.arg_open || d == ist.arg_close {
            return StepOutcome::Fail(EntryError::Invalid);
        } else {
            cursor_push(cur, c);
            return StepOutcome::Next;
        }
    }
    if cur.part == LinePart::Value && c == ist.actual {
        if cur.key.len() == 0 {
            core::mem::swap(&mut cur.key, &mut cur.entry);
            assert(cur.entry@ =~= Seq::<char>::empty());
        } else {
            cursor_push(cur, c);
        }
        return StepOutcome::Next;
    }
    if cur.part == LinePart::Value && c == ist.level {
        cursor_finish_level(cur);
        return StepOutcome::Next;
    }
    if cur.part == LinePart::Value && c == ist.encap {
        if cur.arg_level == 1 {
            cursor_finish_level(cur);
            cur.part = LinePart::Special;
        } else {
            cursor_push(cur, c);
        }
        return StepOutcome::Next;
    }
    if cur.part == LinePart::Special && c == ist.range_open {
        cur.range = RangeKind::Open;
        return StepOutcome::Next;
    }
    if cur.part == LinePart::Special && c == ist.range_close {
        cur.range = RangeKind::Close;
        return StepOutcome::Next;
    }
    if c == ist.arg_open {
        cur.arg_level = cur.arg_level + 1;
        cursor_push(cur, c);
        return StepOutcome::Next;
    }
    if c == ist.arg_close {
        let lvl = cur.arg_level - 1;
        if cur.part != LinePart::Page && lvl == 0 {
            if cur.pos < n && s[cur.pos] == ist.arg_open {
                cur.part = LinePart::Page;
                cur.pos = cur.pos + 1;
                cur.arg_level = 1;
                return StepOutcome::Next;
            } else {
                return StepOutcome::Fail(EntryError::Invalid);
            }
        } else if cur.part == LinePart::Page && lvl == 0 {
            if cur.cmds.is_none() {
                cursor_finish_level(cur);
            }
            match parse_page_chars(&cur.page_str) {
                Err(e) => {
                    return StepOutcome::Fail(EntryError::Page(e));
                },
                Ok(pg) => {
                    cur.arg_level = 0;
                    cur.pages.push(pg);
                    append_chars(&mut cur.pages_raw, &cur.page_str);
                    cur.page_str = Vec::new();
                    return StepOutcome::Done;
                },
            }
        } else {
            cur.arg_level = lvl;
            cursor_push(cur, c);
            return StepOutcome::Next;
        }
    }
    cursor_push(cur, c);
    StepOutcome::Next
}

/// A parsed line as plain values.
pub open spec fn parsed_view(r: Result<Option<IndexEntry>, EntryError>) -> Result<Option<EntryView>, EntryError> {
    match r {
        Ok(Some(e)) => Ok(Some(e@)),
        Ok(None) => Ok(None),
        Err(x) => Err(x),
    }
}

fn all_ascii_ws_exec(s: &Vec<char>) -> (b: bool)
    ensures
        b == all_ascii_ws(s@),
{
    let mut i: usize = 0;
    while i < s.len()
        invariant
            i <= s@.len(),
            forall|j: int| 0 <= j < i ==> is_ascii_ws(#[trigger] s@[j]),
        decreases s@.len() - i,
    {
        if !is_ascii_ws_exec(s[i]) {
            return false;
        }
        i = i + 1;
    }
    true
}

impl IndexEntry {
    /// Reads one line of an index file under the input style `ist`: `None` for a blank line
    /// or a comment line, the entry for a well-formed index line, and an error otherwise.
    pub fn parse_index_line(ist: &IstInputStyle, line: &str) -> (r: Result<Option<IndexEntry>, EntryError>)
        ensures
            parsed_view(r) == spec_parse_line(*ist, line@),
    {
        let s = str_chars(line);
        if all_ascii_ws_exec(&s) {
            return Ok(None);
        }
        if s[0] == ist.comment {
            return Ok(None);
        }
        let kw = str_chars(ist.keyword.as_str());
        if kw.len() > s.len() || !starts_with_at(s.as_slice(), 0, kw.as_slice()) {
            return Err(EntryError::Invalid);
        }
        let p = kw.len();
        if !(p < s.len() && s[p] == ist.arg_open) || p + 1 >= s.len() {
            return Err(EntryError::Invalid);
        }
        let comp = str_chars(ist.page_compositor.as_str());
        let mut cur = LineCursor {
            part: LinePart::Value,
            pos: p + 1,
            entry: Vec::new(),
            key: Vec::new(),
            levels: Vec::new(),
            range: RangeKind::Plain,
            cmds: None,
            arg_level: 1,
            page_str: Vec::new(),
            pages_raw: Vec::new(),
            pages: Vec::new(),
        };
        assert(cursor_view(cur) == line_start(p + 1)) by {
            assert(levels_view(cur.levels@) =~= Seq::empty());
        }
        loop
            invariant_except_break
                cur.pos <= s@.len(),
                1 <= cur.arg_level <= cur.pos,
                run_line(*ist, s@, line_start(p + 1)) == run_line(*ist, s@, cursor_view(cur)),
            invariant
                comp@ == ist.page_compositor@,
                s@ == line@,
                !all_ascii_ws(s@),
                s@[0] != ist.comment,
                kw@ == ist.keyword@,
                p == kw@.len(),
                has_at(s@, 0, ist.keyword@),
                p + 1 < s@.len(),
                s@[p as int] == ist.arg_open,
            ensures
                run_line(*ist, s@, line_start(p + 1)) == Ok::<LineParse, EntryError>(cursor_view(cur)),
            decreases s@.len() - cur.pos, cur.page_str@.len(),
        {
            proof {
                lemma_line_step_progress(*ist, s@, cursor_view(cur));
            }
            let ghost before = cursor_view(cur);
            match cursor_step(ist, &s, &comp, &mut cur) {
                StepOutcome::Next => {},
                StepOutcome::Done => {
                    assert(run_line(*ist, s@, before) == Ok::<LineParse, EntryError>(cursor_view(cur)));
                    break;
                },
                StepOutcome::Fail(e) => {
                    assert(run_line(*ist, s@, before) == Err::<LineParse, EntryError>(e));
                    return Err(e);
                },
            }
        }
        if cur.entry.len() > 0 || cur.key.len() > 0 || cur.levels.len() == 0 || cur.arg_level != 0 || cur.pos
            < s.len() {
            return Err(EntryError::Invalid);
        }
        let page_commands = match &cur.cmds {
            Some(v) => Some(string_from_chars(v.as_slice())),
            None => None,
        };
        let pages_raw = string_from_chars(cur.pages_raw.as_slice());
        Ok(Some(IndexEntry { levels: cur.levels, range: cur.range, page_commands, pages: cur.pages, pages_raw }))
    }
}

/// Having the same levels (what `IndexEntry::is_same` tests) is an equivalence.
pub proof fn law_same_levels_equivalence(a: EntryView, b: EntryView, c: EntryView)
    ensures
        levels_key(a.levels) == levels_key(a.levels),
        levels_key(a.levels) == levels_key(b.levels) ==> levels_key(b.levels) == levels_key(a.levels),
        levels_key(a.levels) == levels_key(b.levels) && levels_key(b.levels) == levels_key(c.levels)
            ==> levels_key(a.levels) == levels_key(c.levels),
{
}

proof fn lemma_run_line_pages(ist: IstInputStyle, s: Seq<char>, st: LineParse)
    ensures
        run_line(ist, s, st) matches Ok(f) ==> f.pages.len() > st.pages.len() && f.levels.len() >= st.levels.len(),
    decreases s.len() - st.pos, st.page_str.len(),
{
    lemma_line_step_progress(ist, s, st);
    match line_step(ist, s, st) {
        LineStep::Next(n) => {
            assert(n.pages.len() >= st.pages.len() && n.levels.len() >= st.levels.len());
            lemma_run_line_pages(ist, s, n);
        },
        _ => {},
    }
}

/// Every entry read from an index line has at least one level and a page with at least one
/// component.
pub proof fn law_parsed_entry_has_levels_and_pages(ist: IstInputStyle, s: Seq<char>)
    ensures
        spec_parse_line(ist, s) matches Ok(Some(e)) ==> e.levels.len() >= 1 && e.pages.len() >= 1,
{
    let p = ist.keyword@.len() as int;
    lemma_run_line_pages(ist, s, line_start(p + 1));
}

// ---------------------------------------------------------------------------
// Names in entry tables

/// `c` with ASCII capitals made small.
pub open spec fn ascii_lower(c: char) -> char {
    if 'A' <= c <= 'Z' {
        ((c as u32) + 32) as char
    } else {
        c
    }
}

/// The range kind that a name in an entry table stands for, ignoring ASCII case: `open` or
/// `-1`, `none` or `0`, `close` or `1`.
pub open spec fn range_of_name(name: Seq<char>) -> Option<RangeKind> {
    let n = name.map_values(|c: char| ascii_lower(c));
    if n == "open"@ || n == "-1"@ {
        Some(RangeKind::Open)
    } else if n == "none"@ || n == "0"@ {
        Some(RangeKind::Plain)
    } else if n == "close"@ || n == "1"@ {
        Some(RangeKind::Close)
    } else {
        None
    }
}

fn lower_exec(c: char) -> (r: char)
    ensures
        r == ascii_lower(c),
{
    if c >= 'A' && c <= 'Z' {
        let u = c as u32 + 32;
        assert(u < 0x80);
        let l = ((c as u8) + 32) as char;
        assert(l as u32 == u) by {
            assert((c as u8) as u32 == c as u32);
        }
        l
    } else {
        c
    }
}

/// The range kind that `name` stands for in an entry table (see `range_of_name`).
pub fn range_from_name(name: &str) -> (r: Option<RangeKind>)
    ensures
        r == range_of_name(name@),
{
    let cs = str_chars(name);
    let mut low: Vec<char> = Vec::new();
    let mut i: usize = 0;
    while i < cs.len()
        invariant
            cs@ == name@,
            i <= cs@.len(),
            low@ == cs@.take(i as int).map_values(|c: char| ascii_lower(c)),
        decreases cs@.len() - i,
    {
        let l = lower_exec(cs[i]);
        low.push(l);
        i = i + 1;
        assert(low@ =~= cs@.take(i as int).map_values(|c: char| ascii_lower(c)));
    }
    assert(cs@.take(i as int) =~= cs@);
    let open = str_chars("open");
    let minus_one = str_chars("-1");
    let none = str_chars("none");
    let zero = str_chars("0");
    let close = str_chars("close");
    let one = str_chars("1");
    if crate::text::chars_equal(&low, &open) || crate::text::chars_equal(&low, &minus_one) {
        Some(RangeKind::Open)
    } else if crate::text::chars_equal(&low, &none) || crate::text::chars_equal(&low, &zero) {
        Some(RangeKind::Plain)
    } else if crate::text::chars_equal(&low, &close) || crate::text::chars_equal(&low, &one) {
        Some(RangeKind::Close)
    } else {
        None
    }
}

/// The kind whose name (as `IndexPage::as_kind` gives it) is `name`, if any.
pub open spec fn kind_of_name(name: Seq<char>) -> Option<IndexPageKind> {
    if name == kind_name(IndexPageKind::Arabic) {
        Some(IndexPageKind::Arabic)
    } else if name == kind_name(IndexPageKind::Alpha) {
        Some(IndexPageKind::Alpha)
    } else if name == kind_name(IndexPageKind::alpha) {
        Some(IndexPageKind::alpha)
    } else if name == kind_name(IndexPageKind::roman) {
        Some(IndexPageKind::roman)
    } else if name == kind_name(IndexPageKind::Roman) {
        Some(IndexPageKind::Roman)
    } else if name == kind_name(IndexPageKind::ZhDigits) {
        Some(IndexPageKind::ZhDigits)
    } else if name == kind_name(IndexPageKind::ZhNumber) {
        Some(IndexPageKind::ZhNumber)
    } else {
        None
    }
}

/// The page component that a kind name and a value in an entry table stand for.
pub fn page_from_kind_name(kind: &str, value: u64) -> (r: Option<IndexPage>)
    ensures
        r == (match kind_of_name(kind@) {
            Some(k) => Some(IndexPage { kind: k, value: value }),
            None => None,
        }),
{
    let cs = str_chars(kind);
    let kinds = [
        IndexPageKind::Arabic,
        IndexPageKind::Alpha,
        IndexPageKind::alpha,
        IndexPageKind::roman,
        IndexPageKind::Roman,
        IndexPageKind::ZhDigits,
        IndexPageKind::ZhNumber,
    ];
    let mut i: usize = 0;
    while i < 7
        invariant
            cs@ == kind@,
            i <= 7,
            kinds@ == seq![
                IndexPageKind::Arabic,
                IndexPageKind::Alpha,
                IndexPageKind::alpha,
                IndexPageKind::roman,
                IndexPageKind::Roman,
                IndexPageKind::ZhDigits,
                IndexPageKind::ZhNumber,
            ],
            forall|j: int| 0 <= j < i ==> cs@ != kind_name(#[trigger] kinds@[j]),
        decreases 7 - i,
    {
        let k = kinds[i];
        let (name, _) = IndexPage { kind: k, value: 0 }.as_kind();
        let n = str_chars(name);
        if crate::text::chars_equal(&cs, &n) {
            return Some(IndexPage { kind: k, value });
        }
        i = i + 1;
    }
    None
}

/// Reading back the kind name and value of a page component gives the component.
pub proof fn law_kind_name_round_trip(p: IndexPage)
    ensures
        kind_of_name(kind_name(p.kind)) == Some(p.kind),
{
    reveal_strlit("Arabic");
    reveal_strlit("Alpha");
    reveal_strlit("alpha");
    reveal_strlit("roman");
    reveal_strlit("Roman");
    reveal_strlit("ZhDigits");
    reveal_strlit("ZhNumber");
    let a = kind_name(IndexPageKind::Arabic);
    let b = kind_name(IndexPageKind::Alpha);
    let c = kind_name(IndexPageKind::alpha);
    let d = kind_name(IndexPageKind::roman);
    let e = kind_name(IndexPageKind::Roman);
    let f = kind_name(IndexPageKind::ZhDigits);
    let g = kind_name(IndexPageKind::ZhNumber);
    assert(a.len() == 6 && b.len() == 5 && c.len() == 5 && d.len() == 5 && e.len() == 5 && f.len() == 8
        && g.len() == 8);
    assert(b[0] != c[0] && b[0] != d[0] && b[0] != e[0]);
    assert(c[0] != d[0] && c[0] != e[0] && d[0] != e[0]);
    assert(f[2] != g[2]);
}

// ---------------------------------------------------------------------------
// Building and reading entries field by field

/// An optional string slice seen as its characters.
pub open spec fn opt_str_chars(o: Option<&str>) -> Option<Seq<char>> {
    match o {
        Some(s) => Some(s@),
        None => None,
    }
}

fn opt_to_string(o: Option<&str>) -> (r: Option<String>)
    ensures
        opt_chars(r) == opt_str_chars(o),
{
    match o {
        Some(s) => Some(s.to_owned()),
        None => None,
    }
}

/// Appends a level to `entry`: its sort key, if any, and its display.
pub fn entry_levels_push(entry: &mut IndexEntry, key: Option<&str>, print: &str)
    ensures
        final(entry)@.levels == old(entry)@.levels.push((opt_str_chars(key), print@)),
        final(entry)@.range == old(entry)@.range,
        final(entry)@.page_commands == old(entry)@.page_commands,
        final(entry)@.pages == old(entry)@.pages,
        final(entry)@.pages_raw == old(entry)@.pages_raw,
{
    let level = (opt_to_string(key), print.to_owned());
    entry.levels.push(level);
    assert(levels_view(entry.levels@) =~= levels_view(old(entry).levels@).push(
        (opt_str_chars(key), print@),
    ));
}

/// The range kind that a name stands for when a script sets it: `Open`, `open` or
/// `-1`; `None`, `none`, `nil` or `0`; `Close`, `close` or `1`.
pub open spec fn range_setting(name: Seq<char>) -> Option<RangeKind> {
    if name == "Open"@ || name == "open"@ || name == "-1"@ {
        Some(RangeKind::Open)
    } else if name == "None"@ || name == "none"@ || name == "nil"@ || name == "0"@ {
        Some(RangeKind::Plain)
    } else if name == "Close"@ || name == "close"@ || name == "1"@ {
        Some(RangeKind::Close)
    } else {
        None
    }
}

fn str_is(a: &str, b: &str) -> (r: bool)
    ensures
        r == (a@ == b@),
{
    let x = str_chars(a);
    let y = str_chars(b);
    crate::text::chars_equal(&x, &y)
}

/// Sets the range kind of `entry` from its name (see `range_setting`) and returns
/// `true`; for any other name returns `false` and leaves `entry` as it was.
pub fn entry_range_set(entry: &mut IndexEntry, name: &str) -> (ok: bool)
    ensures
        ok == range_setting(name@) is Some,
        ok ==> final(entry)@ == (EntryView { range: range_setting(name@)->0, ..old(entry)@ }),
        !ok ==> final(entry)@ == old(entry)@,
{
    let range = if str_is(name, "Open") || str_is(name, "open") || str_is(name, "-1") {
        RangeKind::Open
    } else if str_is(name, "None") || str_is(name, "none") || str_is(name, "nil") || str_is(
        name,
        "0",
    ) {
        RangeKind::Plain
    } else if str_is(name, "Close") || str_is(name, "close") || str_is(name, "1") {
        RangeKind::Close
    } else {
        return false;
    };
    entry.range = range;
    true
}

/// Sets the page command of `entry` (none where `cmd` is `None`).
pub fn entry_page_commands_set(entry: &mut IndexEntry, cmd: Option<&str>)
    ensures
        final(entry)@ == (EntryView { page_commands: opt_str_chars(cmd), ..old(entry)@ }),
{
    entry.page_commands = opt_to_string(cmd);
}

/// Appends to the pages of `entry` the component that a kind name and a value stand
/// for (see `kind_of_name`) and returns `true`; for an unknown kind name returns
/// `false` and leaves `entry` as it was.
pub fn entry_pages_push(entry: &mut IndexEntry, kind: &str, value: u64) -> (ok: bool)
    ensures
        ok == kind_of_name(kind@) is Some,
        ok ==> final(entry)@ == (EntryView {
            pages: old(entry)@.pages.push((IndexPage { kind: kind_of_name(kind@)->0, value: value })),
            ..old(entry)@
        }),
        !ok ==> final(entry)@ == old(entry)@,
{
    match page_from_kind_name(kind, value) {
        Some(p) => {
            entry.pages.push(p);
            true
        },
        None => false,
    }
}

/// Sets the page of `entry` as it was written (empty where `raw` is `None`).
pub fn entry_pages_raw_set(entry: &mut IndexEntry, raw: Option<&str>)
    ensures
        final(entry)@ == (EntryView { pages_raw: opt_str_chars(raw).unwrap_or(Seq::<char>::empty()), ..old(entry)@ }),
{
    entry.pages_raw = match raw {
        Some(r) => r.to_owned(),
        None => String::new(),
    };
}

/// The number of levels of `entry`.
pub fn entry_levels_count(entry: &IndexEntry) -> (n: usize)
    ensures
        n == entry@.levels.len(),
{
    entry.levels.len()
}

/// The sort key of level `n` of `entry` (its display where it has none), if the entry
/// has that many levels.
pub fn entry_key_n(entry: &IndexEntry, n: usize) -> (r: Option<&str>)
    ensures
        n < entry@.levels.len() ==> (r matches Some(k) && k@ == level_key(entry@.levels[n as int]).0),
        n >= entry@.levels.len() ==> r is None,
{
    if n >= entry.levels.len() {
        return None;
    }
    let l = &entry.levels[n];
    assert(entry@.levels[n as int] == level_view(entry.levels@[n as int]));
    match &l.0 {
        Some(k) => Some(k.as_str()),
        None => Some(l.1.as_str()),
    }
}

/// How an entry is shown in a report about its page range: the argument opening
/// character, `..`, the encapsulator, the range character of its kind, its page command,
/// the argument closing character, then its page as written between argument characters.
pub open spec fn raw_record(e: EntryView, ist: IstInputStyle) -> Seq<char> {
    let range = match e.range {
        RangeKind::Plain => Seq::<char>::empty(),
        RangeKind::Open => seq![ist.range_open],
        RangeKind::Close => seq![ist.range_close],
    };
    let cmd = match e.page_commands {
        Some(c) => c,
        None => Seq::<char>::empty(),
    };
    seq![ist.arg_open, '.', '.', ist.encap] + range + cmd + seq![ist.arg_close, ist.arg_open]
        + e.pages_raw + seq![ist.arg_close]
}

/// Shows `e` as a report about its page range does (see `raw_record`).
pub fn record_raw(e: &IndexEntry, ist: &IstInputStyle) -> (s: String)
    ensures
        s@ == raw_record(e@, *ist),
{
    let mut s = String::new();
    crate::text::push_char(&mut s, ist.arg_open);
    crate::text::push_char(&mut s, '.');
    crate::text::push_char(&mut s, '.');
    crate::text::push_char(&mut s, ist.encap);
    let ghost a = s@;
    match e.range {
        RangeKind::Plain => {},
        RangeKind::Open => crate::text::push_char(&mut s, ist.range_open),
        RangeKind::Close => crate::text::push_char(&mut s, ist.range_close),
    }
    let ghost b = s@;
    match &e.page_commands {
        Some(c) => {
            let cs = str_chars(c.as_str());
            crate::text::push_chars(&mut s, cs.as_slice());
        },
        None => {},
    }
    let ghost c = s@;
    crate::text::push_char(&mut s, ist.arg_close);
    crate::text::push_char(&mut s, ist.arg_open);
    let raw = str_chars(e.pages_raw.as_str());
    crate::text::push_chars(&mut s, raw.as_slice());
    crate::text::push_char(&mut s, ist.arg_close);
    proof {
        let range = match e@.range {
            RangeKind::Plain => Seq::<char>::empty(),
            RangeKind::Open => seq![ist.range_open],
            RangeKind::Close => seq![ist.range_close],
        };
        let cmd = match e@.page_commands {
            Some(x) => x,
            None => Seq::<char>::empty(),
        };
        assert(a =~= seq![ist.arg_open, '.', '.', ist.encap]);
        assert(b =~= a + range);
        assert(c =~= b + cmd);
        assert(s@ =~= raw_record(e@, *ist));
    }
    s
}

// ---------------------------------------------------------------------------
// Escaped quotes

/// `c` is read as itself in the levels argument: it is none of the characters that mean
/// something there.
pub open spec fn plain_in_value(ist: IstInputStyle, c: char) -> bool {
    c != ist.quote && c != ist.escape && c != ist.arg_open && c != ist.arg_close && c != ist.actual && c
        != ist.level && c != ist.encap
}

/// `c` is read as itself in the page argument.
pub open spec fn plain_in_page(ist: IstInputStyle, c: char) -> bool {
    &&& c != ist.quote && c != ist.escape && c != ist.arg_open && c != ist.arg_close
    &&& ist.page_compositor@.len() > 0 && c != ist.page_compositor@[0]
}

proof fn lemma_value_run(ist: IstInputStyle, s: Seq<char>, st: LineParse, k: int)
    requires
        st.part == LinePart::Value,
        0 <= st.pos,
        0 <= k,
        st.pos + k <= s.len(),
        forall|j: int| st.pos <= j < st.pos + k ==> plain_in_value(ist, #[trigger] s[j]),
    ensures
        run_line(ist, s, st) == run_line(
            ist,
            s,
            LineParse { pos: st.pos + k, entry: st.entry + s.subrange(st.pos, st.pos + k), ..st },
        ),
    decreases k,
{
    if k > 0 {
        let c = s[st.pos];
        assert(plain_in_value(ist, c));
        let n = LineParse { pos: st.pos + 1, entry: st.entry.push(c), ..st };
        assert(line_step(ist, s, st) == LineStep::Next(n));
        lemma_value_run(ist, s, n, k - 1);
        assert(n.entry + s.subrange(n.pos, n.pos + k - 1) =~= st.entry + s.subrange(st.pos, st.pos + k));
    } else {
        assert(st.entry + s.subrange(st.pos, st.pos) =~= st.entry);
    }
}

proof fn lemma_page_run(ist: IstInputStyle, s: Seq<char>, st: LineParse, k: int)
    requires
        st.part == LinePart::Page,
        0 <= st.pos,
        0 <= k,
        st.pos + k <= s.len(),
        forall|j: int| st.pos <= j < st.pos + k ==> plain_in_page(ist, #[trigger] s[j]),
    ensures
        run_line(ist, s, st) == run_line(
            ist,
            s,
            LineParse { pos: st.pos + k, page_str: st.page_str + s.subrange(st.pos, st.pos + k), ..st },
        ),
    decreases k,
{
    if k > 0 {
        let c = s[st.pos];
        assert(plain_in_page(ist, c));
        assert(!has_at(s, st.pos, ist.page_compositor@)) by {
            if has_at(s, st.pos, ist.page_compositor@) {
                assert(s.subrange(st.pos, st.pos + ist.page_compositor@.len())[0] == c);
            }
        }
        let n = LineParse { pos: st.pos + 1, page_str: st.page_str.push(c), ..st };
        assert(line_step(ist, s, st) == LineStep::Next(n));
        lemma_page_run(ist, s, n, k - 1);
        assert(n.page_str + s.subrange(n.pos, n.pos + k - 1) =~= st.page_str + s.subrange(st.pos, st.pos + k));
    } else {
        assert(st.page_str + s.subrange(st.pos, st.pos) =~= st.page_str);
    }
}

proof fn lemma_levels_around(
    ist: IstInputStyle,
    s: Seq<char>,
    a: int,
    pre: Seq<char>,
    m: Seq<char>,
    out: Seq<char>,
    post: Seq<char>,
)
    requires
        0 <= a,
        a + 1 + pre.len() + m.len() + post.len() <= s.len(),
        forall|j: int| 0 <= j < pre.len() ==> plain_in_value(ist, #[trigger] pre[j]),
        forall|j: int| 0 <= j < post.len() ==> plain_in_value(ist, #[trigger] post[j]),
        s.subrange(a + 1, a + 1 + pre.len()) == pre,
        line_step(ist, s, LineParse { pos: a + 1 + pre.len(), entry: pre, ..line_start(a + 1) })
            == LineStep::Next(LineParse { pos: a + 1 + pre.len() + m.len(), entry: pre + out, ..line_start(a + 1) }),
        s.subrange(a + 1 + pre.len() + m.len(), a + 1 + pre.len() + m.len() + post.len()) == post,
    ensures
        run_line(ist, s, line_start(a + 1)) == run_line(
            ist,
            s,
            LineParse {
                pos: a + 1 + pre.len() + m.len() + post.len(),
                entry: pre + out + post,
                ..line_start(a + 1)
            },
        ),
{
    let b = a + 1 + pre.len();
    let e = b + m.len();
    let st0 = line_start(a + 1);
    assert forall|j: int| a + 1 <= j < b implies plain_in_value(ist, #[trigger] s[j]) by {
        assert(s[j] == s.subrange(a + 1, b)[j - a - 1]);
    }
    lemma_value_run(ist, s, st0, pre.len() as int);
    assert(st0.entry + pre =~= pre);
    let st2 = LineParse { pos: e, entry: pre + out, ..st0 };
    assert forall|j: int| e <= j < e + post.len() implies plain_in_value(ist, #[trigger] s[j]) by {
        assert(s[j] == s.subrange(e, e + post.len())[j - e]);
    }
    lemma_value_run(ist, s, st2, post.len() as int);
}

proof fn lemma_page_argument(ist: IstInputStyle, s: Seq<char>, c: int, text: Seq<char>, page: Seq<char>)
    requires
        0 <= c,
        c + 2 + page.len() + 1 == s.len(),
        ist.arg_open != ist.arg_close,
        ist.arg_close != ist.quote && ist.arg_close != ist.escape && ist.arg_close != ist.actual
            && ist.arg_close != ist.level && ist.arg_close != ist.encap,
        ist.page_compositor@.len() > 0 && ist.arg_close != ist.page_compositor@[0],
        forall|j: int| 0 <= j < page.len() ==> plain_in_page(ist, #[trigger] page[j]),
        spec_parse_page(page) is Ok,
        s[c] == ist.arg_close,
        s[c + 1] == ist.arg_open,
        s.subrange(c + 2, c + 2 + page.len()) == page,
        s[c + 2 + page.len()] == ist.arg_close,
    ensures
        ({
            let st = LineParse { pos: c, entry: text, ..line_start(0) };
            run_line(ist, s, st) matches Ok(f) && f.entry.len() == 0 && f.key.len() == 0 && f.arg_level == 0
                && f.pos == s.len() && f.levels == seq![(None::<Seq<char>>, text)] && f.range == RangeKind::Plain
                && f.cmds is None && f.pages == seq![spec_parse_page(page)->Ok_0] && f.pages_raw == page
        }),
{
    let d = c + 2 + page.len();
    let st3 = LineParse { pos: c, entry: text, ..line_start(0) };
    let st4 = LineParse { part: LinePart::Page, pos: c + 2, arg_level: 1, ..st3 };
    assert(line_step(ist, s, st3) == LineStep::Next(st4));
    assert forall|j: int| c + 2 <= j < d implies plain_in_page(ist, #[trigger] s[j]) by {
        assert(s[j] == s.subrange(c + 2, d)[j - c - 2]);
    }
    lemma_page_run(ist, s, st4, page.len() as int);
    assert(st4.page_str + page =~= page);
    assert(!has_at(s, d, ist.page_compositor@)) by {
        if has_at(s, d, ist.page_compositor@) {
            assert(s.subrange(d, d + ist.page_compositor@.len())[0] == s[d]);
        }
    }
    assert(Seq::<(Option<Seq<char>>, Seq<char>)>::empty().push((None::<Seq<char>>, text)) =~= seq![
        (None::<Seq<char>>, text),
    ]);
    assert(Seq::<char>::empty() + page =~= page);
    assert(Seq::<IndexPage>::empty().push(spec_parse_page(page)->Ok_0) =~= seq![spec_parse_page(page)->Ok_0]);
}

/// An index line whose levels argument is `pre`, `m` and `post` and whose page argument is
/// `page`, after the keyword.
pub open spec fn levels_line(
    ist: IstInputStyle,
    pre: Seq<char>,
    m: Seq<char>,
    post: Seq<char>,
    page: Seq<char>,
) -> Seq<char> {
    ist.keyword@ + seq![ist.arg_open] + pre + m + post + seq![ist.arg_close, ist.arg_open] + page + seq![
        ist.arg_close,
    ]
}

/// What the conditions of the laws below ask of the style and the text around `m`: the
/// delimiters mean only themselves, the text around is plain, the page argument is plain
/// and a page, and the line starts with no white space and no comment.
pub open spec fn plain_around(ist: IstInputStyle, pre: Seq<char>, post: Seq<char>, page: Seq<char>) -> bool {
    &&& ist.arg_open != ist.arg_close
    &&& ist.arg_close != ist.quote && ist.arg_close != ist.escape && ist.arg_close != ist.actual
        && ist.arg_close != ist.level && ist.arg_close != ist.encap
    &&& ist.page_compositor@.len() > 0 && ist.arg_close != ist.page_compositor@[0]
    &&& forall|j: int| 0 <= j < pre.len() ==> plain_in_value(ist, #[trigger] pre[j])
    &&& forall|j: int| 0 <= j < post.len() ==> plain_in_value(ist, #[trigger] post[j])
    &&& forall|j: int| 0 <= j < page.len() ==> plain_in_page(ist, #[trigger] page[j])
    &&& spec_parse_page(page) is Ok
    &&& !is_ascii_ws((ist.keyword@ + seq![ist.arg_open])[0])
    &&& (ist.keyword@ + seq![ist.arg_open])[0] != ist.comment
}

/// The entry of one level with the display `text` on the page `page`.
pub open spec fn one_level_entry(text: Seq<char>, page: Seq<char>) -> EntryView {
    EntryView {
        levels: seq![(None::<Seq<char>>, text)],
        range: RangeKind::Plain,
        page_commands: None,
        pages: seq![spec_parse_page(page)->Ok_0],
        pages_raw: page,
    }
}

proof fn lemma_levels_line_at(ist: IstInputStyle, pre: Seq<char>, m: Seq<char>, post: Seq<char>, page: Seq<char>)
    requires
        m.len() == 2,
    ensures
        ({
            let s = levels_line(ist, pre, m, post, page);
            let b = (ist.keyword@.len() + 1 + pre.len()) as int;
            s[b] == m[0] && s[b + 1] == m[1]
        }),
{
    let s = levels_line(ist, pre, m, post, page);
    let a = ist.keyword@.len() as int;
    let b = a + 1 + pre.len();
    assert(s =~= (ist.keyword@ + seq![ist.arg_open] + pre) + m + (post + seq![ist.arg_close, ist.arg_open] + page
        + seq![ist.arg_close]));
    assert(s[b] == m[0] && s[b + 1] == m[1]);
}

proof fn lemma_line_around(
    ist: IstInputStyle,
    pre: Seq<char>,
    m: Seq<char>,
    out: Seq<char>,
    post: Seq<char>,
    page: Seq<char>,
)
    requires
        plain_around(ist, pre, post, page),
        ({
            let a = ist.keyword@.len() as int;
            line_step(ist, levels_line(ist, pre, m, post, page), LineParse { pos: a + 1 + pre.len(), entry: pre, ..line_start(a + 1) })
                == LineStep::Next(LineParse { pos: a + 1 + pre.len() + m.len(), entry: pre + out, ..line_start(a + 1) })
        }),
    ensures
        spec_parse_line(ist, levels_line(ist, pre, m, post, page)) == Ok::<Option<EntryView>, EntryError>(
            Some(one_level_entry(pre + out + post, page)),
        ),
{
    let kw = ist.keyword@;
    let head = kw + seq![ist.arg_open];
    let text = pre + out + post;
    let s = levels_line(ist, pre, m, post, page);
    let a = kw.len() as int;
    let c = a + 1 + pre.len() + m.len() + post.len();
    assert(s =~= head + pre + m + post + (seq![ist.arg_close, ist.arg_open] + page + seq![ist.arg_close]));
    assert(s[0] == head[0]);
    assert(s.subrange(0, a) =~= kw);
    assert(s[a] == ist.arg_open);
    assert(s.subrange(a + 1, a + 1 + pre.len()) =~= pre);
    assert(s.subrange(a + 1 + pre.len() + m.len(), c) =~= post);
    lemma_levels_around(ist, s, a, pre, m, out, post);
    assert(s[c] == ist.arg_close && s[c + 1] == ist.arg_open);
    assert(s.subrange(c + 2, c + 2 + page.len()) =~= page);
    assert(s[c + 2 + page.len()] == ist.arg_close);
    lemma_page_argument(ist, s, c, text, page);
    let st = LineParse { pos: c, entry: text, ..line_start(0) };
    assert(LineParse { pos: c, entry: text, ..line_start(a + 1) } == st);
    assert(!all_ascii_ws(s)) by {
        assert(!is_ascii_ws(s[0]));
    }
}

/// An escaped quote is kept as it is written: where the escape character is followed by the
/// quote character in plain text of the levels argument, the one level read is that
/// argument, escape and quote included, in order.
pub proof fn law_escaped_quote_is_kept(ist: IstInputStyle, pre: Seq<char>, post: Seq<char>, page: Seq<char>)
    requires
        ist.escape != ist.quote,
        plain_around(ist, pre, post, page),
    ensures
        spec_parse_line(ist, levels_line(ist, pre, seq![ist.escape, ist.quote], post, page)) == Ok::<
            Option<EntryView>,
            EntryError,
        >(Some(one_level_entry(pre + seq![ist.escape, ist.quote] + post, page))),
{
    let m = seq![ist.escape, ist.quote];
    lemma_levels_line_at(ist, pre, m, post, page);
    assert(pre.push(ist.escape).push(ist.quote) =~= pre + m);
    lemma_line_around(ist, pre, m, m, post, page);
}

/// A quoted character is taken literally: where the quote character is followed by any
/// character `x` in plain text of the levels argument, the one level read is that argument
/// with the quote character left out and `x` kept, whatever it would otherwise mean.
pub proof fn law_quoted_char_is_literal(ist: IstInputStyle, pre: Seq<char>, x: char, post: Seq<char>, page: Seq<char>)
    requires
        plain_around(ist, pre, post, page),
    ensures
        spec_parse_line(ist, levels_line(ist, pre, seq![ist.quote, x], post, page)) == Ok::<
            Option<EntryView>,
            EntryError,
        >(Some(one_level_entry(pre + seq![x] + post, page))),
{
    let m = seq![ist.quote, x];
    lemma_levels_line_at(ist, pre, m, post, page);
    assert(pre.push(x) =~= pre + seq![x]);
    lemma_line_around(ist, pre, m, seq![x], post, page);
}

/// An escape character before any other character that means nothing here is kept too: the
/// level read holds the escape character and that character, in order.
pub proof fn law_escape_before_plain_char_is_kept(
    ist: IstInputStyle,
    pre: Seq<char>,
    x: char,
    post: Seq<char>,
    page: Seq<char>,
)
    requires
        ist.escape != ist.quote,
        plain_in_value(ist, x),
        plain_around(ist, pre, post, page),
    ensures
        spec_parse_line(ist, levels_line(ist, pre, seq![ist.escape, x], post, page)) == Ok::<
            Option<EntryView>,
            EntryError,
        >(Some(one_level_entry(pre + seq![ist.escape, x] + post, page))),
{
    let m = seq![ist.escape, x];
    lemma_levels_line_at(ist, pre, m, post, page);
    // the escape goes in alone, and `x` is then read as plain text
    let post2 = seq![x] + post;
    assert(levels_line(ist, pre, m, post, page) =~= levels_line(ist, pre, seq![ist.escape], post2, page));
    assert forall|j: int| 0 <= j < post2.len() implies plain_in_value(ist, #[trigger] post2[j]) by {
        if j > 0 {
            assert(post2[j] == post[j - 1]);
        }
    }
    assert(pre.push(ist.escape) =~= pre + seq![ist.escape]);
    lemma_line_around(ist, pre, seq![ist.escape], seq![ist.escape], post2, page);
    assert(pre + seq![ist.escape] + post2 =~= pre + seq![ist.escape, x] + post);
}

} // verus!
