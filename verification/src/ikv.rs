use vstd::prelude::*;

use crate::entry::{parsed_view, spec_parse_line, EntryError, EntryView, IndexEntry, RangeKind};
use crate::page::{
    all_digits, decimal_digits, is_digit, lemma_positional_prefix_le, lemma_positional_step, parse_page_chars,
    positional, spec_parse_page, IndexPage, PageError,
};
use crate::scan::{lemma_skip_ws_bounds, skip_ws, skip_ws_exec};
use crate::style::IstInputStyle;
use crate::text::{chars_equal, chars_range, has_at, starts_with_at, str_chars, string_from_chars, string_from_range};

verus! {

// ---------------------------------------------------------------------------
// Splitting lines

/// `s` without its leading ASCII white space.
pub open spec fn trim_start(s: Seq<char>) -> Seq<char> {
    s.skip(skip_ws(s, 0))
}

/// The first position from `i` on where `sep` occurs in `s`, or -1.
pub open spec fn find_sep(s: Seq<char>, sep: Seq<char>, i: int) -> int
    decreases s.len() + 1 - i,
{
    if i < 0 || i + sep.len() > s.len() {
        -1
    } else if has_at(s, i, sep) {
        i
    } else {
        find_sep(s, sep, i + 1)
    }
}

pub proof fn lemma_find_sep(s: Seq<char>, sep: Seq<char>, i: int)
    requires
        0 <= i,
    ensures
        find_sep(s, sep, i) == -1 || (i <= find_sep(s, sep, i) && find_sep(s, sep, i) + sep.len() <= s.len()
            && has_at(s, find_sep(s, sep, i), sep)),
        forall|j: int| i <= j && (find_sep(s, sep, i) == -1 || j < find_sep(s, sep, i)) ==> !has_at(s, j, sep),
    decreases s.len() + 1 - i,
{
    if i + sep.len() <= s.len() && !has_at(s, i, sep) {
        lemma_find_sep(s, sep, i + 1);
        assert forall|j: int| i <= j && (find_sep(s, sep, i) == -1 || j < find_sep(s, sep, i)) implies !has_at(
            s,
            j,
            sep,
        ) by {
            if j > i {
            }
        }
    }
}

/// The pieces of `s` from `i` on between the occurrences of a non-empty `sep`, each found
/// from the end of the one before.
pub open spec fn split_from(s: Seq<char>, sep: Seq<char>, i: int) -> Seq<Seq<char>>
    decreases s.len() - i,
{
    let j = find_sep(s, sep, i);
    if i < 0 || sep.len() == 0 || j < 0 {
        seq![s.subrange(i, s.len() as int)]
    } else {
        proof {
            lemma_find_sep(s, sep, i);
        }
        seq![s.subrange(i, j)] + split_from(s, sep, j + sep.len())
    }
}

/// The pieces of `s` between the occurrences of `sep`, as `str::split` gives them; an empty
/// `sep` occurs before and after each character.
pub open spec fn split_fields(s: Seq<char>, sep: Seq<char>) -> Seq<Seq<char>> {
    if sep.len() == 0 {
        seq![Seq::<char>::empty()] + s.map_values(|c: char| seq![c]) + seq![Seq::<char>::empty()]
    } else {
        split_from(s, sep, 0)
    }
}

pub(crate) fn split_exec(s: &Vec<char>, sep: &Vec<char>) -> (r: Vec<Vec<char>>)
    ensures
        r@.map_values(|v: Vec<char>| v@) == split_fields(s@, sep@),
{
    let mut r: Vec<Vec<char>> = Vec::new();
    if sep.len() == 0 {
        r.push(Vec::new());
        let mut i: usize = 0;
        while i < s.len()
            invariant
                i <= s@.len(),
                r@.map_values(|v: Vec<char>| v@) == seq![Seq::<char>::empty()] + s@.take(i as int).map_values(
                    |c: char| seq![c],
                ),
            decreases s@.len() - i,
        {
            let mut one: Vec<char> = Vec::new();
            one.push(s[i]);
            let ghost before = r@;
            r.push(one);
            i = i + 1;
            proof {
                assert(r@.map_values(|v: Vec<char>| v@) =~= before.map_values(|v: Vec<char>| v@).push(one@));
                assert(s@.take(i as int).map_values(|c: char| seq![c]) =~= s@.take(i - 1).map_values(
                    |c: char| seq![c],
                ).push(seq![s@[i - 1]]));
                assert(one@ =~= seq![s@[i - 1]]);
            }
        }
        let ghost before = r@;
        r.push(Vec::new());
        proof {
            assert(s@.take(i as int) =~= s@);
            assert(r@.map_values(|v: Vec<char>| v@) =~= before.map_values(|v: Vec<char>| v@).push(
                Seq::<char>::empty(),
            ));
        }
        return r;
    }
    let mut i: usize = 0;
    loop
        invariant_except_break
            i <= s@.len(),
            r@.map_values(|v: Vec<char>| v@) + split_from(s@, sep@, i as int) == split_from(s@, sep@, 0),
        invariant
            sep@.len() > 0,
        ensures
            r@.map_values(|v: Vec<char>| v@) == split_from(s@, sep@, 0),
        decreases s@.len() - i,
    {
        let mut j = i;
        let mut found = false;
        loop
            invariant_except_break
                !found,
                find_sep(s@, sep@, i as int) == find_sep(s@, sep@, j as int),
            invariant
                sep@.len() > 0,
                i <= j <= s@.len(),
            ensures
                found ==> find_sep(s@, sep@, i as int) == j && j + sep@.len() <= s@.len(),
                !found ==> find_sep(s@, sep@, i as int) == -1,
                i <= j <= s@.len(),
            decreases s@.len() - j,
        {
            if sep.len() > s.len() - j {
                break;
            }
            if starts_with_at(s.as_slice(), j, sep.as_slice()) {
                found = true;
                break;
            }
            j = j + 1;
        }
        proof {
            lemma_find_sep(s@, sep@, i as int);
        }
        if !found {
            let piece = chars_range(s, i, s.len());
            let ghost before = r@;
            r.push(piece);
            proof {
                assert(r@.map_values(|v: Vec<char>| v@) =~= before.map_values(|v: Vec<char>| v@).push(piece@));
                assert(split_from(s@, sep@, i as int) == seq![s@.subrange(i as int, s@.len() as int)]);
                assert(r@.map_values(|v: Vec<char>| v@) =~= before.map_values(|v: Vec<char>| v@) + split_from(
                    s@,
                    sep@,
                    i as int,
                ));
            }
            break;
        }
        let piece = chars_range(s, i, j);
        let ghost before = r@;
        r.push(piece);
        proof {
            assert(find_sep(s@, sep@, i as int) == j);
            assert(r@.map_values(|v: Vec<char>| v@) =~= before.map_values(|v: Vec<char>| v@).push(piece@));
            assert(split_from(s@, sep@, i as int) == seq![s@.subrange(i as int, j as int)] + split_from(
                s@,
                sep@,
                j + sep@.len(),
            ));
            assert(before.map_values(|v: Vec<char>| v@) + split_from(s@, sep@, i as int) =~= r@.map_values(
                |v: Vec<char>| v@,
            ) + split_from(s@, sep@, j + sep@.len()));
        }
        let sl = sep.len();
        let total = s.len();
        assert(j + sl <= total);
        i = j + sl;
    }
    r
}


pub proof fn lemma_split_nonempty(s: Seq<char>, sep: Seq<char>)
    ensures
        split_fields(s, sep).len() >= 1,
{
    if sep.len() > 0 {
        let j = find_sep(s, sep, 0);
        lemma_find_sep(s, sep, 0);
    }
}

// ---------------------------------------------------------------------------
// Numbers of levels and pages

/// The digits of a number of levels: without a leading `+`.
pub open spec fn count_digits(s: Seq<char>) -> Seq<char> {
    if s.len() > 0 && s[0] == '+' {
        s.drop_first()
    } else {
        s
    }
}

/// The number of levels as written: an optional `+`, then decimal digits, of a value that
/// fits in `usize`.
pub open spec fn parse_count(s: Seq<char>) -> Option<usize> {
    let d = count_digits(s);
    if d.len() == 0 || !all_digits(d) || positional(decimal_digits(d), 10) > usize::MAX {
        None
    } else {
        Some(positional(decimal_digits(d), 10) as usize)
    }
}

fn parse_count_exec(s: &Vec<char>) -> (r: Option<usize>)
    ensures
        r == parse_count(s@),
{
    let from: usize = if s.len() > 0 && s[0] == '+' {
        1
    } else {
        0
    };
    let d = chars_range(s, from, s.len());
    assert(d@ =~= count_digits(s@));
    if d.len() == 0 {
        return None;
    }
    let mut k: usize = 0;
    while k < d.len()
        invariant
            d@ == count_digits(s@),
            k <= d@.len(),
            forall|j: int| 0 <= j < k ==> is_digit(#[trigger] d@[j]),
        decreases d@.len() - k,
    {
        if !(d[k] >= '0' && d[k] <= '9') {
            assert(!is_digit(d@[k as int]));
            return None;
        }
        k = k + 1;
    }
    let ghost ds = decimal_digits(d@);
    assert(forall|j: int| 0 <= j < ds.len() ==> ds[j] >= 0 && ds[j] < 10) by {
        assert forall|j: int| 0 <= j < ds.len() implies ds[j] >= 0 && ds[j] < 10 by {
            assert(is_digit(d@[j]));
        }
    }
    let mut value: usize = 0;
    let mut i: usize = 0;
    assert(ds.take(0) =~= Seq::<int>::empty());
    while i < d.len()
        invariant
            d@ == count_digits(s@),
            d@.len() > 0,
            i <= d@.len(),
            ds == decimal_digits(d@),
            ds.len() == d@.len(),
            all_digits(d@),
            forall|j: int| 0 <= j < ds.len() ==> ds[j] >= 0 && ds[j] < 10,
            value == positional(ds.take(i as int), 10),
        decreases d@.len() - i,
    {
        proof {
            lemma_positional_step(ds, 10, i as int);
            lemma_positional_prefix_le(ds, 10, i + 1);
        }
        assert(is_digit(d@[i as int]));
        let digit = (d[i] as u32 - '0' as u32) as usize;
        assert(digit == ds[i as int]);
        match value.checked_mul(10) {
            None => {
                return None;
            },
            Some(m) => match m.checked_add(digit) {
                None => {
                    return None;
                },
                Some(v) => {
                    value = v;
                },
            },
        }
        i = i + 1;
    }
    assert(ds.take(ds.len() as int) =~= ds);
    Some(value)
}

/// The pages of the pieces from `i` on, after `acc`; the first refused piece decides.
pub open spec fn parse_pages(pieces: Seq<Seq<char>>, i: int, acc: Seq<IndexPage>) -> Result<
    Seq<IndexPage>,
    PageError,
>
    decreases pieces.len() - i,
{
    if i < 0 || i >= pieces.len() {
        Ok(acc)
    } else {
        match spec_parse_page(pieces[i]) {
            Err(e) => Err(e),
            Ok(p) => parse_pages(pieces, i + 1, acc.push(p)),
        }
    }
}

fn parse_pages_exec(pieces: &Vec<Vec<char>>) -> (r: Result<Vec<IndexPage>, PageError>)
    ensures
        match r {
            Ok(v) => parse_pages(pieces@.map_values(|p: Vec<char>| p@), 0, Seq::empty()) == Ok::<
                Seq<IndexPage>,
                PageError,
            >(v@),
            Err(e) => parse_pages(pieces@.map_values(|p: Vec<char>| p@), 0, Seq::empty()) == Err::<
                Seq<IndexPage>,
                PageError,
            >(e),
        },
{
    let ghost ps = pieces@.map_values(|p: Vec<char>| p@);
    let mut acc: Vec<IndexPage> = Vec::new();
    let mut i: usize = 0;
    while i < pieces.len()
        invariant
            ps == pieces@.map_values(|p: Vec<char>| p@),
            i <= pieces@.len(),
            parse_pages(ps, 0, Seq::empty()) == parse_pages(ps, i as int, acc@),
        decreases pieces@.len() - i,
    {
        match parse_page_chars(&pieces[i]) {
            Err(e) => {
                return Err(e);
            },
            Ok(p) => {
                acc.push(p);
            },
        }
        i = i + 1;
    }
    Ok(acc)
}

// ---------------------------------------------------------------------------
// Entries in key-value form

/// The first line of an entry in key-value form: its range kind, page command, page, page
/// text and number of levels.
pub struct IkvHead {
    pub range: RangeKind,
    pub cmds: Option<Seq<char>>,
    pub pages: Seq<IndexPage>,
    pub raw: Seq<char>,
    pub count: usize,
}

/// The range kind that the range field `r` gives: an empty field is a plain record, and
/// the opening or closing range character alone opens or closes a range.
pub open spec fn range_field(ist: IstInputStyle, r: Seq<char>) -> Option<RangeKind> {
    if r.len() == 0 {
        Some(RangeKind::Plain)
    } else if r == seq![ist.range_open] {
        Some(RangeKind::Open)
    } else if r == seq![ist.range_close] {
        Some(RangeKind::Close)
    } else {
        None
    }
}

/// What the first line of an entry in key-value form says: the fields split by the
/// separator are the page (its components split by the page compositor), the range, the
/// page command (none where empty) and the number of levels, and nothing more.
pub open spec fn ikv_head(ist: IstInputStyle, line: Seq<char>) -> Result<IkvHead, EntryError> {
    let f = split_fields(line, ist.separator@);
    match parse_pages(split_fields(f[0], ist.page_compositor@), 0, Seq::empty()) {
        Err(e) => Err(EntryError::Page(e)),
        Ok(pages) => if f.len() < 2 {
            Err(EntryError::MissingRange)
        } else if range_field(ist, f[1]) is None {
            Err(EntryError::BadRange)
        } else if f.len() < 3 {
            Err(EntryError::MissingCommands)
        } else if f.len() < 4 {
            Err(EntryError::MissingLength)
        } else {
            match parse_count(f[3]) {
                None => Err(EntryError::BadLength),
                Some(n) => if f.len() > 4 {
                    Err(EntryError::ExtraField)
                } else {
                    Ok(
                        IkvHead {
                            range: range_field(ist, f[1])->0,
                            cmds: if f[2].len() > 0 {
                                Some(f[2])
                            } else {
                                None
                            },
                            pages: pages,
                            raw: f[0],
                            count: n,
                        },
                    )
                },
            }
        },
    }
}

/// A level in key-value form: a sort key that is empty or equal to the display is none.
pub open spec fn ikv_level(key: Seq<char>, val: Seq<char>) -> (Option<Seq<char>>, Seq<char>) {
    if key.len() == 0 || key == val {
        (None, val)
    } else {
        (Some(key), val)
    }
}

/// Reads the levels `i` to `n` from the lines at `p` on, a sort key line then a display line
/// each, without leading white space: the levels, or the error, and the position after the
/// lines read.
pub open spec fn read_levels(
    lines: Seq<Seq<char>>,
    p: int,
    n: int,
    i: int,
    acc: Seq<(Option<Seq<char>>, Seq<char>)>,
) -> (Result<Seq<(Option<Seq<char>>, Seq<char>)>, EntryError>, int)
    decreases n - i,
{
    if i >= n {
        (Ok(acc), p)
    } else if p < 0 || p >= lines.len() {
        (Err(EntryError::MissingKey((i + 1) as usize)), p)
    } else if p + 1 >= lines.len() {
        (Err(EntryError::MissingDisplay((i + 1) as usize)), p + 1)
    } else {
        let key = trim_start(lines[p]);
        let val = trim_start(lines[p + 1]);
        if val.len() == 0 {
            (Err(EntryError::EmptyDisplay), p + 2)
        } else {
            read_levels(lines, p + 2, n, i + 1, acc.push(ikv_level(key, val)))
        }
    }
}

/// The entry of the first line `h` and the levels read after it.
pub open spec fn ikv_entry(
    h: IkvHead,
    read: (Result<Seq<(Option<Seq<char>>, Seq<char>)>, EntryError>, int),
) -> (Result<Option<EntryView>, EntryError>, int) {
    match read.0 {
        Err(e) => (Err(e), read.1),
        Ok(levels) => (
            Ok(
                Some(
                    EntryView {
                        levels: levels,
                        range: h.range,
                        page_commands: h.cmds,
                        pages: h.pages,
                        pages_raw: h.raw,
                    },
                ),
            ),
            read.1,
        ),
    }
}

/// The lines as characters.
pub open spec fn lines_view(lines: Seq<String>) -> Seq<Seq<char>> {
    lines.map_values(|l: String| l@)
}

/// Reads the entry at line `pos` of `lines`: nothing where the lines are used up, and
/// nothing from a blank line or a comment line (after white space, the comment character);
/// a line in the index format (it starts with the keyword, after white space) is read as
/// such; otherwise the entry is in key-value form, its first line followed by two lines per
/// level. Gives the entry, or the error, and the position after the lines read.
pub open spec fn spec_from_ikv(ist: IstInputStyle, lines: Seq<Seq<char>>, pos: int) -> (Result<
    Option<EntryView>,
    EntryError,
>, int) {
    if pos < 0 || pos >= lines.len() {
        (Ok(None), pos)
    } else {
        let line = trim_start(lines[pos]);
        if line.len() == 0 || line[0] == ist.comment {
            (Ok(None), pos + 1)
        } else if has_at(line, 0, ist.keyword@) {
            (spec_parse_line(ist, line), pos + 1)
        } else {
            match ikv_head(ist, line) {
                Err(e) => (Err(e), pos + 1),
                Ok(h) => ikv_entry(h, read_levels(lines, pos + 1, h.count as int, 0, Seq::empty())),
            }
        }
    }
}

fn trimmed(s: &String) -> (r: Vec<char>)
    ensures
        r@ == trim_start(s@),
{
    let cs = str_chars(s.as_str());
    proof {
        lemma_skip_ws_bounds(cs@, 0);
    }
    let k = skip_ws_exec(cs.as_slice(), 0);
    let r = chars_range(&cs, k, cs.len());
    assert(r@ =~= cs@.skip(k as int));
    r
}


/// Reads the entry at line `*pos` of `lines` (see `spec_from_ikv`) and moves `*pos` past
/// the lines read.
pub fn from_ikv(ist: &IstInputStyle, lines: &[String], pos: &mut usize) -> (r: Result<Option<IndexEntry>, EntryError>)
    ensures
        (parsed_view(r), *final(pos) as int) == spec_from_ikv(*ist, lines_view(lines@), *old(pos) as int),
{
    let ghost lv = lines_view(lines@);
    let ghost p0 = *pos as int;
    if *pos >= lines.len() {
        return Ok(None);
    }
    assert(lv[p0] == lines@[p0]@);
    let line = trimmed(&lines[*pos]);
    *pos = *pos + 1;
    if line.len() == 0 || line[0] == ist.comment {
        return Ok(None);
    }
    let kw = str_chars(ist.keyword.as_str());
    if kw.len() <= line.len() && starts_with_at(line.as_slice(), 0, kw.as_slice()) {
        let text = string_from_chars(line.as_slice());
        return IndexEntry::parse_index_line(ist, text.as_str());
    }
    assert(!has_at(line@, 0, ist.keyword@));
    let sep = str_chars(ist.separator.as_str());
    let comp = str_chars(ist.page_compositor.as_str());
    let fields = split_exec(&line, &sep);
    proof {
        lemma_split_nonempty(line@, sep@);
    }
    let ghost f = fields@.map_values(|v: Vec<char>| v@);
    assert(f[0] == fields@[0]@);
    let page_pieces = split_exec(&fields[0], &comp);
    let pages = match parse_pages_exec(&page_pieces) {
        Ok(v) => v,
        Err(e) => {
            return Err(EntryError::Page(e));
        },
    };
    if fields.len() < 2 {
        return Err(EntryError::MissingRange);
    }
    assert(f[1] == fields@[1]@);
    let rf = &fields[1];
    let range = if rf.len() == 0 {
        RangeKind::Plain
    } else if rf.len() == 1 && rf[0] == ist.range_open {
        assert(rf@ =~= seq![ist.range_open]);
        RangeKind::Open
    } else if rf.len() == 1 && rf[0] == ist.range_close {
        assert(rf@ =~= seq![ist.range_close]);
        RangeKind::Close
    } else {
        assert(rf@.len() != 1 || (rf@[0] != ist.range_open && rf@[0] != ist.range_close));
        return Err(EntryError::BadRange);
    };
    if fields.len() < 3 {
        return Err(EntryError::MissingCommands);
    }
    assert(f[2] == fields@[2]@);
    let c = &fields[2];
    let cmds = if c.len() > 0 {
        Some(string_from_chars(c.as_slice()))
    } else {
        None
    };
    if fields.len() < 4 {
        return Err(EntryError::MissingLength);
    }
    assert(f[3] == fields@[3]@);
    let count = match parse_count_exec(&fields[3]) {
        Some(n) => n,
        None => {
            return Err(EntryError::BadLength);
        },
    };
    if fields.len() > 4 {
        return Err(EntryError::ExtraField);
    }
    let mut levels: Vec<(Option<String>, String)> = Vec::new();
    let mut i: usize = 0;
    let ghost head = IkvHead {
        range: range,
        cmds: crate::entry::opt_chars(cmds),
        pages: pages@,
        raw: fields@[0]@,
        count: count,
    };
    assert(ikv_head(*ist, line@) == Ok::<IkvHead, EntryError>(head));
    assert(spec_from_ikv(*ist, lv, p0) == ikv_entry(head, read_levels(lv, p0 + 1, count as int, 0, Seq::empty())));
    assert(crate::entry::levels_view(levels@) =~= Seq::empty());
    while i < count
        invariant
            spec_from_ikv(*ist, lv, p0) == ikv_entry(head, read_levels(lv, p0 + 1, count as int, 0, Seq::empty())),
            p0 == *old(pos) as int,
            head.count == count,
            lv == lines_view(lines@),
            i <= count,
            *pos <= lines@.len() + 1,
            read_levels(lv, p0 + 1, count as int, 0, Seq::empty()) == read_levels(
                lv,
                *pos as int,
                count as int,
                i as int,
                crate::entry::levels_view(levels@),
            ),
        decreases count - i,
    {
        if *pos >= lines.len() {
            return Err(EntryError::MissingKey(i + 1));
        }
        assert(lv[*pos as int] == lines@[*pos as int]@);
        let key = trimmed(&lines[*pos]);
        *pos = *pos + 1;
        if *pos >= lines.len() {
            return Err(EntryError::MissingDisplay(i + 1));
        }
        assert(lv[*pos as int] == lines@[*pos as int]@);
        let val = trimmed(&lines[*pos]);
        *pos = *pos + 1;
        if val.len() == 0 {
            return Err(EntryError::EmptyDisplay);
        }
        let display = string_from_chars(val.as_slice());
        let level = if key.len() == 0 || chars_equal(&key, &val) {
            (None, display)
        } else {
            (Some(string_from_chars(key.as_slice())), display)
        };
        let ghost before = levels@;
        levels.push(level);
        assert(crate::entry::levels_view(levels@) =~= crate::entry::levels_view(before).push(
            crate::entry::level_view(level),
        ));
        i = i + 1;
    }
    let pages_raw = string_from_chars(fields[0].as_slice());
    Ok(Some(IndexEntry { levels, range, page_commands: cmds, pages, pages_raw }))
}

impl IndexEntry {
    /// Reads the entry at line `*pos` of `lines` in key-value form or in the index format, and
    /// moves `*pos` past the lines read (the same as `from_ikv`).
    pub fn from_ikv(ist: &IstInputStyle, lines: &[String], pos: &mut usize) -> (r: Result<
        Option<IndexEntry>,
        EntryError,
    >)
        ensures
            (parsed_view(r), *final(pos) as int) == spec_from_ikv(*ist, lines_view(lines@), *old(pos) as int),
    {
        from_ikv(ist, lines, pos)
    }
}

proof fn lemma_read_levels_pos(
    lines: Seq<Seq<char>>,
    p: int,
    n: int,
    i: int,
    acc: Seq<(Option<Seq<char>>, Seq<char>)>,
)
    requires
        0 <= p <= lines.len(),
    ensures
        p <= read_levels(lines, p, n, i, acc).1 <= lines.len(),
    decreases n - i,
{
    if i < n && p + 1 < lines.len() {
        let key = trim_start(lines[p]);
        let val = trim_start(lines[p + 1]);
        if val.len() > 0 {
            lemma_read_levels_pos(lines, p + 2, n, i + 1, acc.push(ikv_level(key, val)));
        }
    }
}

/// Reading an entry from a line that remains uses that line and stays within the lines.
pub proof fn lemma_from_ikv_progress(ist: IstInputStyle, lines: Seq<Seq<char>>, pos: int)
    requires
        0 <= pos < lines.len(),
    ensures
        pos < spec_from_ikv(ist, lines, pos).1 <= lines.len(),
{
    let line = trim_start(lines[pos]);
    if !has_at(line, 0, ist.keyword@) {
        match ikv_head(ist, line) {
            Ok(h) => {
                lemma_read_levels_pos(lines, pos + 1, h.count as int, 0, Seq::empty());
            },
            Err(_) => {},
        }
    }
}

} // verus!
