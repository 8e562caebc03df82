use vstd::prelude::*;

use crate::entry::{all_ascii_ws, parsed_view, spec_parse_line, EntryError, EntryView, IndexEntry};
use crate::scan::{is_ascii_ws, skip_ws};
use crate::text::has_at;
use crate::ikv::{
    from_ikv, lemma_from_ikv_progress, lines_view, spec_from_ikv, split_exec, split_fields,
    trim_start,
};
use crate::style::IstInputStyle;
use crate::text::{str_chars, string_from_chars};

verus! {

/// `s` without a final carriage return.
pub open spec fn strip_cr(s: Seq<char>) -> Seq<char> {
    if s.len() > 0 && s.last() == '\r' {
        s.drop_last()
    } else {
        s
    }
}

/// The lines of `s`, as `str::lines` gives them: split at each line feed, a carriage
/// return before the line feed dropped, and no line after a final line feed.
pub open spec fn text_lines(s: Seq<char>) -> Seq<Seq<char>> {
    let pieces = split_fields(s, seq!['\n']);
    let body = pieces.drop_last().map_values(|p: Seq<char>| strip_cr(p));
    if pieces.last().len() == 0 {
        body
    } else {
        body.push(pieces.last())
    }
}

/// Splits `text` into its lines (see `text_lines`).
pub fn split_lines(text: &str) -> (r: Vec<String>)
    ensures
        lines_view(r@) == text_lines(text@),
{
    let cs = str_chars(text);
    let mut nl: Vec<char> = Vec::new();
    nl.push('\n');
    assert(nl@ =~= seq!['\n']);
    let pieces = split_exec(&cs, &nl);
    let ghost ps = pieces@.map_values(|v: Vec<char>| v@);
    proof {
        crate::ikv::lemma_split_nonempty(cs@, nl@);
    }
    let n = pieces.len();
    let mut r: Vec<String> = Vec::new();
    let mut i: usize = 0;
    while i + 1 < n
        invariant
            ps == pieces@.map_values(|v: Vec<char>| v@),
            n == pieces@.len(),
            n >= 1,
            i + 1 <= n,
            r@.len() == i,
            forall|j: int| 0 <= j < i ==> #[trigger] r@[j]@ == strip_cr(ps[j]),
        decreases n - i,
    {
        let p = &pieces[i];
        assert(ps[i as int] == p@);
        let line = if p.len() > 0 && p[p.len() - 1] == '\r' {
            crate::text::string_from_range(p.as_slice(), 0, p.len() - 1)
        } else {
            string_from_chars(p.as_slice())
        };
        assert(p@.drop_last() =~= p@.subrange(0, p@.len() - 1));
        r.push(line);
        i = i + 1;
    }
    let last = &pieces[n - 1];
    assert(ps[n - 1] == last@);
    let ghost body = r@;
    if last.len() > 0 {
        r.push(string_from_chars(last.as_slice()));
    }
    proof {
        let t = text_lines(text@);
        assert(ps.drop_last().len() == n - 1);
        assert forall|j: int| 0 <= j < n - 1 implies lines_view(body)[j] == ps.drop_last().map_values(
            |p: Seq<char>| strip_cr(p),
        )[j] by {
            assert(lines_view(body)[j] == body[j]@);
        }
        assert(lines_view(body) =~= ps.drop_last().map_values(|p: Seq<char>| strip_cr(p)));
        assert(lines_view(r@) =~= t);
    }
    r
}

/// The entries read from a file and the lines refused, by number (from one) with the error.
pub struct ReadReport {
    pub entries: Vec<IndexEntry>,
    pub rejected: Vec<(usize, EntryError)>,
}

/// The entries of a file as plain values.
pub open spec fn entries_view(es: Seq<IndexEntry>) -> Seq<EntryView> {
    es.map_values(|e: IndexEntry| e@)
}

/// Reads the index lines from line `i` on: each entry is kept, blank and comment lines are
/// passed over, and each refused line is noted with its number and error.
pub open spec fn read_idx_from(
    ist: IstInputStyle,
    lines: Seq<Seq<char>>,
    i: int,
    es: Seq<EntryView>,
    rej: Seq<(usize, EntryError)>,
) -> (Seq<EntryView>, Seq<(usize, EntryError)>)
    decreases lines.len() - i,
{
    if i < 0 || i >= lines.len() {
        (es, rej)
    } else {
        match spec_parse_line(ist, lines[i]) {
            Ok(Some(e)) => read_idx_from(ist, lines, i + 1, es.push(e), rej),
            Ok(None) => read_idx_from(ist, lines, i + 1, es, rej),
            Err(x) => read_idx_from(ist, lines, i + 1, es, rej.push(((i + 1) as usize, x))),
        }
    }
}

/// Reads every line of an index file.
pub fn idx_input_read_all(ist: &IstInputStyle, text: &str) -> (r: ReadReport)
    ensures
        (entries_view(r.entries@), r.rejected@) == read_idx_from(
            *ist,
            text_lines(text@),
            0,
            Seq::empty(),
            Seq::empty(),
        ),
{
    let lines = split_lines(text);
    let ghost lv = lines_view(lines@);
    let mut entries: Vec<IndexEntry> = Vec::new();
    let mut rejected: Vec<(usize, EntryError)> = Vec::new();
    let mut i: usize = 0;
    assert(entries_view(entries@) =~= Seq::empty());
    assert(rejected@ =~= Seq::empty());
    while i < lines.len()
        invariant
            lv == lines_view(lines@),
            lv == text_lines(text@),
            i <= lines@.len(),
            read_idx_from(*ist, lv, 0, Seq::empty(), Seq::empty()) == read_idx_from(
                *ist,
                lv,
                i as int,
                entries_view(entries@),
                rejected@,
            ),
        decreases lines@.len() - i,
    {
        assert(lv[i as int] == lines@[i as int]@);
        let ghost before = entries@;
        match IndexEntry::parse_index_line(ist, lines[i].as_str()) {
            Ok(Some(e)) => {
                entries.push(e);
                assert(entries_view(entries@) =~= entries_view(before).push(e@));
            },
            Ok(None) => {},
            Err(x) => {
                rejected.push((i + 1, x));
            },
        }
        i = i + 1;
    }
    ReadReport { entries, rejected }
}

/// Reads the blocks of a file in key-value form from line `pos` on: each entry is kept, and
/// each refused block is noted with the number of its first line and its error.
pub open spec fn read_ikv_from(
    ist: IstInputStyle,
    lines: Seq<Seq<char>>,
    pos: int,
    es: Seq<EntryView>,
    rej: Seq<(usize, EntryError)>,
) -> (Seq<EntryView>, Seq<(usize, EntryError)>)
    decreases lines.len() - pos,
{
    if pos < 0 || pos >= lines.len() {
        (es, rej)
    } else {
        proof {
            lemma_from_ikv_progress(ist, lines, pos);
        }
        let (r, q) = spec_from_ikv(ist, lines, pos);
        match r {
            Ok(Some(e)) => read_ikv_from(ist, lines, q, es.push(e), rej),
            Ok(None) => read_ikv_from(ist, lines, q, es, rej),
            Err(x) => read_ikv_from(ist, lines, q, es, rej.push(((pos + 1) as usize, x))),
        }
    }
}

/// Reads every block of a file in key-value form.
pub fn ikv_input_read_all(ist: &IstInputStyle, text: &str) -> (r: ReadReport)
    ensures
        (entries_view(r.entries@), r.rejected@) == read_ikv_from(
            *ist,
            text_lines(text@),
            0,
            Seq::empty(),
            Seq::empty(),
        ),
{
    let lines = split_lines(text);
    let ghost lv = lines_view(lines@);
    let mut entries: Vec<IndexEntry> = Vec::new();
    let mut rejected: Vec<(usize, EntryError)> = Vec::new();
    let mut pos: usize = 0;
    assert(entries_view(entries@) =~= Seq::empty());
    assert(rejected@ =~= Seq::empty());
    while pos < lines.len()
        invariant
            lv == lines_view(lines@),
            lv == text_lines(text@),
            pos <= lines@.len(),
            read_ikv_from(*ist, lv, 0, Seq::empty(), Seq::empty()) == read_ikv_from(
                *ist,
                lv,
                pos as int,
                entries_view(entries@),
                rejected@,
            ),
        decreases lines@.len() - pos,
    {
        proof {
            lemma_from_ikv_progress(*ist, lv, pos as int);
        }
        let start = pos;
        assert(lv[pos as int] == lines@[pos as int]@);
        let ghost before = entries@;
        let r = from_ikv(ist, lines.as_slice(), &mut pos);
        match r {
            Ok(Some(e)) => {
                entries.push(e);
                assert(entries_view(entries@) =~= entries_view(before).push(e@));
            },
            Ok(None) => {},
            Err(x) => {
                rejected.push((start + 1, x));
            },
        }
    }
    ReadReport { entries, rejected }
}

proof fn lemma_read_idx_count(
    ist: IstInputStyle,
    lines: Seq<Seq<char>>,
    i: int,
    es: Seq<EntryView>,
    rej: Seq<(usize, EntryError)>,
)
    requires
        0 <= i <= lines.len(),
    ensures
        read_idx_from(ist, lines, i, es, rej).0.len() + read_idx_from(ist, lines, i, es, rej).1.len() <= es.len()
            + rej.len() + lines.len() - i,
    decreases lines.len() - i,
{
    if i < lines.len() {
        match spec_parse_line(ist, lines[i]) {
            Ok(Some(e)) => lemma_read_idx_count(ist, lines, i + 1, es.push(e), rej),
            Ok(None) => lemma_read_idx_count(ist, lines, i + 1, es, rej),
            Err(x) => lemma_read_idx_count(ist, lines, i + 1, es, rej.push(((i + 1) as usize, x))),
        }
    }
}

/// Each line of an index file gives at most one entry or one refusal.
pub proof fn law_read_idx_at_most_one_per_line(ist: IstInputStyle, text: Seq<char>)
    ensures
        read_idx_from(ist, text_lines(text), 0, Seq::empty(), Seq::empty()).0.len() + read_idx_from(
            ist,
            text_lines(text),
            0,
            Seq::empty(),
            Seq::empty(),
        ).1.len() <= text_lines(text).len(),
{
    lemma_read_idx_count(ist, text_lines(text), 0, Seq::empty(), Seq::empty());
}

proof fn lemma_all_ws_skips_all(s: Seq<char>, i: int)
    requires
        0 <= i <= s.len(),
        all_ascii_ws(s),
    ensures
        skip_ws(s, i) == s.len(),
    decreases s.len() - i,
{
    if i < s.len() {
        lemma_all_ws_skips_all(s, i + 1);
    }
}

/// The character that an index line holding an entry starts with: the first of the keyword,
/// or the argument opener where the keyword is empty.
pub open spec fn entry_head(ist: IstInputStyle) -> char {
    if ist.keyword@.len() > 0 {
        ist.keyword@[0]
    } else {
        ist.arg_open
    }
}

/// An index line reads the same in key-value form: where an entry line starts with no white
/// space (see `entry_head`) and the comment character is none, a line that the index format accepts (an entry,
/// or a blank or comment line that gives nothing) gives the same in key-value form, and
/// takes that one line.
pub proof fn law_index_line_reads_as_key_value(ist: IstInputStyle, lines: Seq<Seq<char>>, p: int)
    requires
        0 <= p < lines.len(),
        !is_ascii_ws(entry_head(ist)),
        !is_ascii_ws(ist.comment),
        spec_parse_line(ist, lines[p]) is Ok,
    ensures
        spec_from_ikv(ist, lines, p) == (spec_parse_line(ist, lines[p]), p + 1),
{
    let line = lines[p];
    if all_ascii_ws(line) {
        lemma_all_ws_skips_all(line, 0);
        assert(trim_start(line).len() == 0);
    } else {
        assert(line.len() > 0);
        if line[0] == ist.comment {
            assert(skip_ws(line, 0) == 0);
            assert(line.skip(0) =~= line);
        } else {
            assert(has_at(line, 0, ist.keyword@));
            if ist.keyword@.len() > 0 {
                assert(line[0] == ist.keyword@[0]) by {
                    assert(line.subrange(0, ist.keyword@.len() as int)[0] == line[0]);
                }
            } else {
                assert(line[0] == ist.arg_open);
            }
            assert(skip_ws(line, 0) == 0);
            assert(line.skip(0) =~= line);
            assert(trim_start(line) == line);
        }
    }
}

proof fn lemma_idx_lines_as_ikv(
    ist: IstInputStyle,
    lines: Seq<Seq<char>>,
    p: int,
    es: Seq<EntryView>,
    rej: Seq<(usize, EntryError)>,
)
    requires
        0 <= p <= lines.len(),
        !is_ascii_ws(entry_head(ist)),
        !is_ascii_ws(ist.comment),
        forall|i: int| 0 <= i < lines.len() ==> #[trigger] spec_parse_line(ist, lines[i]) is Ok,
    ensures
        read_ikv_from(ist, lines, p, es, rej) == read_idx_from(ist, lines, p, es, rej),
    decreases lines.len() - p,
{
    if p < lines.len() {
        assert(spec_parse_line(ist, lines[p]) is Ok);
        law_index_line_reads_as_key_value(ist, lines, p);
        lemma_from_ikv_progress(ist, lines, p);
        match spec_parse_line(ist, lines[p]) {
            Ok(Some(e)) => {
                lemma_idx_lines_as_ikv(ist, lines, p + 1, es.push(e), rej);
            },
            Ok(None) => {
                lemma_idx_lines_as_ikv(ist, lines, p + 1, es, rej);
            },
            _ => {},
        }
    }
}

/// A file of index lines is also a file in key-value form: where every line is accepted by
/// the index format (entries, blank lines and comment lines), an entry line does not start
/// with white space (see `entry_head`) and the comment character is none, reading the file in key-value form
/// gives the same entries, and no refusal, as reading it as an index file.
pub proof fn law_index_file_reads_as_key_value(ist: IstInputStyle, lines: Seq<Seq<char>>)
    requires
        !is_ascii_ws(entry_head(ist)),
        !is_ascii_ws(ist.comment),
        forall|i: int| 0 <= i < lines.len() ==> #[trigger] spec_parse_line(ist, lines[i]) is Ok,
    ensures
        read_ikv_from(ist, lines, 0, Seq::empty(), Seq::empty()) == read_idx_from(
            ist,
            lines,
            0,
            Seq::empty(),
            Seq::empty(),
        ),
        read_idx_from(ist, lines, 0, Seq::empty(), Seq::empty()).1.len() == 0,
{
    lemma_idx_lines_as_ikv(ist, lines, 0, Seq::empty(), Seq::empty());
    lemma_idx_no_rejects(ist, lines, 0, Seq::empty(), Seq::empty());
}

proof fn lemma_idx_no_rejects(
    ist: IstInputStyle,
    lines: Seq<Seq<char>>,
    p: int,
    es: Seq<EntryView>,
    rej: Seq<(usize, EntryError)>,
)
    requires
        0 <= p <= lines.len(),
        forall|i: int| 0 <= i < lines.len() ==> #[trigger] spec_parse_line(ist, lines[i]) is Ok,
    ensures
        read_idx_from(ist, lines, p, es, rej).1 == rej,
    decreases lines.len() - p,
{
    if p < lines.len() {
        assert(spec_parse_line(ist, lines[p]) is Ok);
        match spec_parse_line(ist, lines[p]) {
            Ok(Some(e)) => lemma_idx_no_rejects(ist, lines, p + 1, es.push(e), rej),
            Ok(None) => lemma_idx_no_rejects(ist, lines, p + 1, es, rej),
            _ => {},
        }
    }
}

} // verus!
