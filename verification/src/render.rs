use vstd::prelude::*;

use crate::merge::{merged_level_n, page_command_of, MergedEntry, MergedEntryView, MergedPage, MergedPageView};
use crate::style::IstOutputStyle;
use crate::text::{push_chars, str_chars};

verus! {

// ---------------------------------------------------------------------------
// Writing a merged entry as a line of the index

/// The displays of the first `n` levels, joined by `", "`.
pub open spec fn joined_displays(levels: Seq<(Option<Seq<char>>, Seq<char>)>, n: int) -> Seq<char>
    decreases n,
{
    if n <= 0 {
        Seq::empty()
    } else if n == 1 {
        levels[0].1
    } else {
        joined_displays(levels, n - 1) + ", "@ + levels[n - 1].1
    }
}

/// The text of a merged page: the page as written, or the start and the end of the range
/// as written with `delim_r` between them.
pub open spec fn page_text(m: MergedPageView, delim_r: Seq<char>) -> Seq<char> {
    match m {
        MergedPageView::Single { page, .. } => page.1,
        MergedPageView::Range { start, end, .. } => start.1 + delim_r + end.1,
    }
}

/// A merged page as written: its text, inside `\cmd{..}` where it has the page command
/// `cmd`.
pub open spec fn page_out(m: MergedPageView, delim_r: Seq<char>) -> Seq<char> {
    match page_command_of(m) {
        Some(c) => "\\"@ + c + "{"@ + page_text(m, delim_r) + "}"@,
        None => page_text(m, delim_r),
    }
}

/// The first `n` merged pages as written, with `delim_n` between them.
pub open spec fn pages_out(ps: Seq<MergedPageView>, delim_n: Seq<char>, delim_r: Seq<char>, n: int) -> Seq<char>
    decreases n,
{
    if n <= 0 {
        Seq::empty()
    } else if n == 1 {
        page_out(ps[0], delim_r)
    } else {
        pages_out(ps, delim_n, delim_r, n - 1) + delim_n + page_out(ps[n - 1], delim_r)
    }
}

/// The line of the index for a merged entry: `item_0`, the displays of its levels joined by
/// `", "`, `delim_0`, its pages as written with `delim_n` between them, and a line feed.
pub open spec fn entry_line(e: MergedEntryView, item_0: Seq<char>, delim_0: Seq<char>, delim_n: Seq<char>, delim_r: Seq<char>) -> Seq<char> {
    item_0 + joined_displays(e.levels, e.levels.len() as int) + delim_0 + pages_out(
        e.pages,
        delim_n,
        delim_r,
        e.pages.len() as int,
    ) + "\n"@
}

fn push_str(s: &mut String, t: &str)
    ensures
        final(s)@ == old(s)@ + t@,
{
    let cs = str_chars(t);
    push_chars(s, cs.as_slice());
}

fn page_out_exec(m: &MergedPage, delim_r: &str) -> (s: String)
    ensures
        s@ == page_out(m@, delim_r@),
{
    let mut text = String::new();
    match m {
        MergedPage::Single { page, .. } => push_str(&mut text, page.1.as_str()),
        MergedPage::Range { start, end, .. } => {
            push_str(&mut text, start.1.as_str());
            push_str(&mut text, delim_r);
            push_str(&mut text, end.1.as_str());
        },
    }
    assert(text@ =~= page_text(m@, delim_r@));
    match m.page_command() {
        Some(c) => {
            let mut s = String::new();
            push_str(&mut s, "\\");
            push_str(&mut s, c);
            push_str(&mut s, "{");
            push_str(&mut s, text.as_str());
            push_str(&mut s, "}");
            proof {
                reveal_strlit("\\");
                reveal_strlit("{");
                reveal_strlit("}");
            }
            assert(s@ =~= "\\"@ + c@ + "{"@ + text@ + "}"@);
            s
        },
        None => text,
    }
}

/// Writes `e` as a line of the index (see `entry_line`).
pub fn render_entry(e: &MergedEntry, style: &IstOutputStyle) -> (s: String)
    ensures
        s@ == entry_line(e@, style.item_0@, style.delim_0@, style.delim_n@, style.delim_r@),
{
    let mut s = String::new();
    push_str(&mut s, style.item_0.as_str());
    let ghost head = s@;
    let n = e.levels.len();
    let mut i: usize = 0;
    while i < n
        invariant
            n == e@.levels.len(),
            i <= n,
            s@ == head + joined_displays(e@.levels, i as int),
        decreases n - i,
    {
        if i > 0 {
            push_str(&mut s, ", ");
        }
        let d = match merged_level_n(e, i) {
            Some(d) => d,
            None => "",
        };
        push_str(&mut s, d);
        i = i + 1;
        proof {
            reveal_strlit(", ");
            assert(s@ =~= head + joined_displays(e@.levels, i as int));
        }
    }
    push_str(&mut s, style.delim_0.as_str());
    let ghost mid = s@;
    let pages = e.pages.as_slice();
    let m = pages.len();
    assert(pages@.map_values(|x: MergedPage| x@) == e@.pages);
    let mut k: usize = 0;
    while k < m
        invariant
            m == pages@.len(),
            pages@.map_values(|x: MergedPage| x@) == e@.pages,
            k <= m,
            s@ == mid + pages_out(e@.pages, style.delim_n@, style.delim_r@, k as int),
        decreases m - k,
    {
        if k > 0 {
            push_str(&mut s, style.delim_n.as_str());
        }
        let t = page_out_exec(&pages[k], style.delim_r.as_str());
        assert(pages@.map_values(|x: MergedPage| x@)[k as int] == pages@[k as int]@);
        push_str(&mut s, t.as_str());
        k = k + 1;
        assert(s@ =~= mid + pages_out(e@.pages, style.delim_n@, style.delim_r@, k as int));
    }
    push_str(&mut s, "\n");
    proof {
        reveal_strlit("\n");
    }
    assert(s@ =~= entry_line(e@, style.item_0@, style.delim_0@, style.delim_n@, style.delim_r@));
    s
}

} // verus!
