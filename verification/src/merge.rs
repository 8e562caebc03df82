use indexmap::IndexMap;
use vstd::prelude::*;

use crate::compare::{is_le, is_lt, page_order, PageComparator, PageOrder};
use crate::entry::{level_key, level_view, levels_key, opt_chars, EntryView, IndexEntry, RangeKind};
use crate::page::{IndexPage, IndexPageKind};
use crate::style::{IstInputStyle, IstOutputStyle};
use crate::text::{chars_equal, str_chars};

verus! {

// ---------------------------------------------------------------------------
// Records and spans

/// A record handed to the page builder, as plain values: its page command,
/// its range kind, its page as written and its page.
pub struct RecordView {
    pub cmd: Option<Seq<char>>,
    pub kind: RangeKind,
    pub raw: Seq<char>,
    pub pages: Seq<IndexPage>,
}

/// A record as plain values.
pub open spec fn record_view(r: (Option<String>, RangeKind, String, Vec<IndexPage>)) -> RecordView {
    RecordView { cmd: opt_chars(r.0), kind: r.1, raw: r.2@, pages: r.3@ }
}

/// The records as plain values.
pub open spec fn records_view(
    p: Seq<(Option<String>, RangeKind, String, Vec<IndexPage>)>,
) -> Seq<RecordView> {
    p.map_values(|r: (Option<String>, RangeKind, String, Vec<IndexPage>)| record_view(r))
}

/// A page item under construction, by the positions of records: a single page (of the
/// record `start`), or a range from the page of `start` to the page of `end`.
/// Its page command and its order of arrival are those of the record `start`.
#[derive(Debug, Clone, Copy, PartialEq, Eq, Structural)]
pub struct Span {
    pub start: usize,
    pub end: usize,
    pub is_range: bool,
}

proof fn lemma_span_at(s: Seq<Span>, n: int, i: int)
    requires
        spans_ok(s, n),
        0 <= i < s.len(),
    ensures
        s[i].start < n,
        s[i].end < n,
{
    assert(s[i].start < n && s[i].end < n);
}

/// The single page of record `k`.
pub open spec fn single(k: usize) -> Span {
    Span { start: k, end: k, is_range: false }
}

/// Every span refers to records below `n`.
pub open spec fn spans_ok(s: Seq<Span>, n: int) -> bool {
    forall|i: int| 0 <= i < s.len() ==> #[trigger] s[i].start < n && s[i].end < n
}

// ---------------------------------------------------------------------------
// Ordering of page commands

/// Compares `a` and `b` from position `i` on, by code point: -1, 0 or 1.
pub open spec fn lex_order(a: Seq<char>, b: Seq<char>, i: int) -> int
    decreases a.len() - i,
{
    if i < 0 || i >= a.len() {
        if i >= 0 && i < b.len() {
            -1
        } else {
            0
        }
    } else if i >= b.len() {
        1
    } else if (a[i] as u32) < (b[i] as u32) {
        -1
    } else if (a[i] as u32) > (b[i] as u32) {
        1
    } else {
        lex_order(a, b, i + 1)
    }
}

/// How two page commands are ordered: no command first, then by characters.
pub open spec fn cmd_order(a: Option<Seq<char>>, b: Option<Seq<char>>) -> int {
    match (a, b) {
        (None, None) => 0,
        (None, Some(_)) => -1,
        (Some(_), None) => 1,
        (Some(x), Some(y)) => lex_order(x, y, 0),
    }
}

fn lex_compare(a: &Vec<char>, b: &Vec<char>) -> (r: i8)
    ensures
        r == lex_order(a@, b@, 0),
{
    let mut i: usize = 0;
    while i < a.len() && i < b.len()
        invariant
            i <= a@.len(),
            i <= b@.len(),
            lex_order(a@, b@, 0) == lex_order(a@, b@, i as int),
        decreases a@.len() - i,
    {
        let x = a[i] as u32;
        let y = b[i] as u32;
        if x < y {
            return -1;
        } else if x > y {
            return 1;
        }
        i = i + 1;
    }
    if i < a.len() {
        1
    } else if i < b.len() {
        -1
    } else {
        0
    }
}

fn cmd_compare(a: &Option<Vec<char>>, b: &Option<Vec<char>>) -> (r: i8)
    ensures
        r == cmd_order(opt_vec_view(*a), opt_vec_view(*b)),
{
    match (a, b) {
        (None, None) => 0,
        (None, Some(_)) => -1,
        (Some(_), None) => 1,
        (Some(x), Some(y)) => lex_compare(x, y),
    }
}

/// An optional character vector seen as characters.
pub open spec fn opt_vec_view(o: Option<Vec<char>>) -> Option<Seq<char>> {
    match o {
        Some(v) => Some(v@),
        None => None,
    }
}


fn cmd_eq_exec(a: &Option<Vec<char>>, b: &Option<Vec<char>>) -> (r: bool)
    ensures
        r == (opt_vec_view(*a) == opt_vec_view(*b)),
{
    match (a, b) {
        (None, None) => true,
        (Some(x), Some(y)) => chars_equal(x, y),
        _ => false,
    }
}

// ---------------------------------------------------------------------------
// Matching range records

/// The open records not yet closed, and the items made so far.
pub struct PairState {
    pub stack: Seq<usize>,
    pub items: Seq<Span>,
}

/// The position in `stack`, among its first `n`, of the last open record whose page
/// command is `cmd`.
pub open spec fn last_with_cmd(
    recs: Seq<RecordView>,
    stack: Seq<usize>,
    cmd: Option<Seq<char>>,
    n: int,
) -> Option<int>
    decreases n,
{
    if n <= 0 {
        None
    } else if recs[stack[n - 1] as int].cmd == cmd {
        Some(n - 1)
    } else {
        last_with_cmd(recs, stack, cmd, n - 1)
    }
}

/// The open record that a closing record with the command `cmd` closes: the last open one
/// with the same command; when there is none and matching is not strict, the last open one.
pub open spec fn close_match(
    recs: Seq<RecordView>,
    strict: bool,
    stack: Seq<usize>,
    cmd: Option<Seq<char>>,
) -> Option<int> {
    match last_with_cmd(recs, stack, cmd, stack.len() as int) {
        Some(i) => Some(i),
        None => if !strict && stack.len() > 0 {
            Some(stack.len() - 1)
        } else {
            None
        },
    }
}

/// Takes the record `k` into account: a plain record is a single page; an open record waits
/// for its close; a close that finds its open makes a range, and one that finds none stands
/// as a single page.
pub open spec fn pair_step(recs: Seq<RecordView>, strict: bool, st: PairState, k: int) -> PairState {
    match recs[k].kind {
        RangeKind::Plain => PairState { stack: st.stack, items: st.items.push(single(k as usize)) },
        RangeKind::Open => PairState { stack: st.stack.push(k as usize), items: st.items },
        RangeKind::Close => match close_match(recs, strict, st.stack, recs[k].cmd) {
            Some(i) => PairState {
                stack: st.stack.remove(i),
                items: st.items.push(Span { start: st.stack[i], end: k as usize, is_range: true }),
            },
            None => PairState { stack: st.stack, items: st.items.push(single(k as usize)) },
        },
    }
}

/// The state after the first `n` records.
pub open spec fn pair_upto(recs: Seq<RecordView>, strict: bool, n: int) -> PairState
    decreases n,
{
    if n <= 0 {
        PairState { stack: Seq::empty(), items: Seq::empty() }
    } else {
        pair_step(recs, strict, pair_upto(recs, strict, n - 1), n - 1)
    }
}

/// The items of all records: those made in turn, then each open record left unclosed,
/// as a single page.
pub open spec fn paired(recs: Seq<RecordView>, strict: bool) -> Seq<Span> {
    let st = pair_upto(recs, strict, recs.len() as int);
    st.items + st.stack.map_values(|o: usize| single(o))
}

/// The page commands of the records, as character vectors.
pub open spec fn cmds_match(cmds: Seq<Option<Vec<char>>>, recs: Seq<RecordView>) -> bool {
    &&& cmds.len() == recs.len()
    &&& forall|i: int| 0 <= i < recs.len() ==> #[trigger] opt_vec_view(cmds[i]) == recs[i].cmd
}

fn find_last_open(
    cmds: &Vec<Option<Vec<char>>>,
    stack: &Vec<usize>,
    k: usize,
    Ghost(recs): Ghost<Seq<RecordView>>,
) -> (r: Option<usize>)
    requires
        cmds_match(cmds@, recs),
        k < recs.len(),
        forall|i: int| 0 <= i < stack@.len() ==> #[trigger] stack@[i] < recs.len(),
    ensures
        match r {
            Some(i) => last_with_cmd(recs, stack@, recs[k as int].cmd, stack@.len() as int) == Some(i as int),
            None => last_with_cmd(recs, stack@, recs[k as int].cmd, stack@.len() as int) is None,
        },
{
    let mut n = stack.len();
    while n > 0
        invariant
            cmds_match(cmds@, recs),
            k < recs.len(),
            forall|i: int| 0 <= i < stack@.len() ==> #[trigger] stack@[i] < recs.len(),
            n <= stack@.len(),
            last_with_cmd(recs, stack@, recs[k as int].cmd, stack@.len() as int)
                == last_with_cmd(recs, stack@, recs[k as int].cmd, n as int),
        decreases n,
    {
        let o = stack[n - 1];
        if cmd_eq_exec(&cmds[o], &cmds[k]) {
            return Some(n - 1);
        }
        n = n - 1;
    }
    None
}

proof fn lemma_pair_bounds(recs: Seq<RecordView>, strict: bool, n: int)
    requires
        0 <= n <= recs.len(),
        recs.len() <= usize::MAX,
    ensures
        forall|i: int|
            0 <= i < pair_upto(recs, strict, n).stack.len() ==> #[trigger] pair_upto(
                recs,
                strict,
                n,
            ).stack[i] < n,
        spans_ok(pair_upto(recs, strict, n).items, n),
        pair_upto(recs, strict, n).items.len() + pair_upto(recs, strict, n).stack.len() <= n,
    decreases n,
{
    if n > 0 {
        lemma_pair_bounds(recs, strict, n - 1);
        let st = pair_upto(recs, strict, n - 1);
        let st2 = pair_upto(recs, strict, n);
        assert(st2 == pair_step(recs, strict, st, n - 1));
        match recs[n - 1].kind {
            RangeKind::Close => {
                match close_match(recs, strict, st.stack, recs[n - 1].cmd) {
                    Some(i) => {
                        assert(0 <= i < st.stack.len()) by {
                            lemma_last_with_cmd_range(recs, st.stack, recs[n - 1].cmd, st.stack.len() as int);
                        }
                        assert forall|j: int| 0 <= j < st2.stack.len() implies #[trigger] st2.stack[j] < n by {
                            if j < i {
                                assert(st2.stack[j] == st.stack[j]);
                            } else {
                                assert(st2.stack[j] == st.stack[j + 1]);
                            }
                        }
                    },
                    None => {},
                }
            },
            _ => {},
        }
    }
}

proof fn lemma_last_with_cmd_range(
    recs: Seq<RecordView>,
    stack: Seq<usize>,
    cmd: Option<Seq<char>>,
    n: int,
)
    ensures
        match last_with_cmd(recs, stack, cmd, n) {
            Some(i) => 0 <= i < n,
            None => true,
        },
    decreases n,
{
    if n > 0 {
        lemma_last_with_cmd_range(recs, stack, cmd, n - 1);
    }
}

fn pair_records(
    p: &Vec<(Option<String>, RangeKind, String, Vec<IndexPage>)>,
    cmds: &Vec<Option<Vec<char>>>,
    strict: bool,
) -> (items: Vec<Span>)
    requires
        cmds_match(cmds@, records_view(p@)),
    ensures
        items@ == paired(records_view(p@), strict),
        spans_ok(items@, p@.len() as int),
        items@.len() <= p@.len(),
{
    let ghost recs = records_view(p@);
    let mut stack: Vec<usize> = Vec::new();
    let mut items: Vec<Span> = Vec::new();
    let mut k: usize = 0;
    while k < p.len()
        invariant
            recs == records_view(p@),
            cmds_match(cmds@, recs),
            k <= p@.len(),
            stack@ == pair_upto(recs, strict, k as int).stack,
            items@ == pair_upto(recs, strict, k as int).items,
        decreases p@.len() - k,
    {
        proof {
            lemma_pair_bounds(recs, strict, k as int);
        }
        let ghost st = pair_upto(recs, strict, k as int);
        assert(pair_upto(recs, strict, k + 1) == pair_step(recs, strict, st, k as int));
        assert(recs[k as int].kind == p@[k as int].1);
        match p[k].1 {
            RangeKind::Plain => {
                items.push(Span { start: k, end: k, is_range: false });
            },
            RangeKind::Open => {
                stack.push(k);
            },
            RangeKind::Close => {
                let found = match find_last_open(cmds, &stack, k, Ghost(recs)) {
                    Some(i) => Some(i),
                    None => if !strict && stack.len() > 0 {
                        Some(stack.len() - 1)
                    } else {
                        None
                    },
                };
                match found {
                    Some(i) => {
                        proof {
                            lemma_last_with_cmd_range(recs, stack@, recs[k as int].cmd, stack@.len() as int);
                        }
                        let o = stack.remove(i);
                        items.push(Span { start: o, end: k, is_range: true });
                    },
                    None => {
                        items.push(Span { start: k, end: k, is_range: false });
                    },
                }
            },
        }
        k = k + 1;
    }
    proof {
        lemma_pair_bounds(recs, strict, k as int);
    }
    let ghost base = items@;
    let mut j: usize = 0;
    while j < stack.len()
        invariant
            j <= stack@.len(),
            items@ == base + stack@.take(j as int).map_values(|o: usize| single(o)),
        decreases stack@.len() - j,
    {
        items.push(Span { start: stack[j], end: stack[j], is_range: false });
        j = j + 1;
        assert(stack@.take(j as int).map_values(|o: usize| single(o)) =~= stack@.take(
            (j - 1) as int,
        ).map_values(|o: usize| single(o)).push(single(stack@[j - 1])));
    }
    assert(stack@.take(j as int) =~= stack@);
    items
}

// ---------------------------------------------------------------------------
// Sorting items

/// `a` comes before `b` by the page of its first record, then by arrival.
pub open spec fn page_before(recs: Seq<RecordView>, t: Seq<u8>, a: Span, b: Span) -> bool {
    let o = page_order(t, recs[a.start as int].pages, recs[b.start as int].pages);
    is_lt(o) || (o == PageOrder::Equal && a.start < b.start)
}

/// `a` comes before `b` by page command, then as `page_before` says.
pub open spec fn group_before(recs: Seq<RecordView>, t: Seq<u8>, a: Span, b: Span) -> bool {
    let c = cmd_order(recs[a.start as int].cmd, recs[b.start as int].cmd);
    c < 0 || (c == 0 && page_before(recs, t, a, b))
}

/// The order that a sort uses: by group first, or by page alone.
pub open spec fn order_rel(recs: Seq<RecordView>, t: Seq<u8>, by_group: bool) -> spec_fn(Span, Span) -> bool {
    |a: Span, b: Span|
        if by_group {
            group_before(recs, t, a, b)
        } else {
            page_before(recs, t, a, b)
        }
}

/// The first position, from `k` on, whose item `x` comes before.
pub open spec fn insert_pos(s: Seq<Span>, x: Span, before: spec_fn(Span, Span) -> bool, k: int) -> int
    decreases s.len() - k,
{
    if k < 0 || k >= s.len() || before(x, s[k]) {
        k
    } else {
        insert_pos(s, x, before, k + 1)
    }
}

/// `s` sorted by insertion: each item in turn goes just before the first item placed so far
/// that it comes before, so that items that none comes before keep their order.
pub open spec fn sort_spans(s: Seq<Span>, before: spec_fn(Span, Span) -> bool) -> Seq<Span>
    decreases s.len(),
{
    if s.len() == 0 {
        s
    } else {
        let sorted = sort_spans(s.drop_last(), before);
        sorted.insert(insert_pos(sorted, s.last(), before, 0), s.last())
    }
}

fn comes_before(
    p: &Vec<(Option<String>, RangeKind, String, Vec<IndexPage>)>,
    cmds: &Vec<Option<Vec<char>>>,
    pc: &PageComparator,
    by_group: bool,
    a: Span,
    b: Span,
    Ghost(recs): Ghost<Seq<RecordView>>,
) -> (r: bool)
    requires
        recs == records_view(p@),
        cmds_match(cmds@, recs),
        a.start < p@.len(),
        b.start < p@.len(),
    ensures
        r == (order_rel(recs, pc@, by_group))(a, b),
{
    assert(recs[a.start as int] == record_view(p@[a.start as int]));
    assert(recs[b.start as int] == record_view(p@[b.start as int]));
    let o = pc.compare(p[a.start].3.as_slice(), p[b.start].3.as_slice());
    let by_page = match o {
        PageOrder::LessOther => true,
        PageOrder::LessSame => true,
        PageOrder::Equal => a.start < b.start,
        _ => false,
    };
    if by_group {
        let c = cmd_compare(&cmds[a.start], &cmds[b.start]);
        c < 0 || (c == 0 && by_page)
    } else {
        by_page
    }
}

fn sort_items(
    p: &Vec<(Option<String>, RangeKind, String, Vec<IndexPage>)>,
    cmds: &Vec<Option<Vec<char>>>,
    pc: &PageComparator,
    by_group: bool,
    items: &Vec<Span>,
    Ghost(recs): Ghost<Seq<RecordView>>,
) -> (out: Vec<Span>)
    requires
        recs == records_view(p@),
        cmds_match(cmds@, recs),
        spans_ok(items@, p@.len() as int),
    ensures
        out@ == sort_spans(items@, order_rel(recs, pc@, by_group)),
        spans_ok(out@, p@.len() as int),
        out@.len() == items@.len(),
{
    let ghost rel = order_rel(recs, pc@, by_group);
    let mut out: Vec<Span> = Vec::new();
    let mut i: usize = 0;
    while i < items.len()
        invariant
            recs == records_view(p@),
            cmds_match(cmds@, recs),
            rel == order_rel(recs, pc@, by_group),
            spans_ok(items@, p@.len() as int),
            i <= items@.len(),
            out@ == sort_spans(items@.take(i as int), rel),
            spans_ok(out@, p@.len() as int),
            out@.len() == i,
        decreases items@.len() - i,
    {
        let x = items[i];
        assert(items@[i as int] == x);
        assert(items@[i as int].start < p@.len() && items@[i as int].end < p@.len());
        let mut k: usize = 0;
        loop
            invariant
                recs == records_view(p@),
                cmds_match(cmds@, recs),
                rel == order_rel(recs, pc@, by_group),
                spans_ok(out@, p@.len() as int),
                x.start < p@.len(),
                k <= out@.len(),
                insert_pos(out@, x, rel, 0) == insert_pos(out@, x, rel, k as int),
            ensures
                k <= out@.len(),
                insert_pos(out@, x, rel, 0) == k,
            decreases out@.len() - k,
        {
            if k >= out.len() {
                break;
            }
            let y = out[k];
            assert(out@[k as int] == y);
            if comes_before(p, cmds, pc, by_group, x, y, Ghost(recs)) {
                break;
            }
            k = k + 1;
        }
        proof {
            let t = items@.take(i + 1);
            assert(t.drop_last() =~= items@.take(i as int));
            assert(t.last() == x);
            assert(sort_spans(t, rel) == out@.insert(k as int, x));
        }
        let ghost before_insert = out@;
        out.insert(k, x);
        i = i + 1;
        assert forall|j: int| 0 <= j < out@.len() implies #[trigger] out@[j].start < p@.len()
            && out@[j].end < p@.len() by {
            if j < k {
                assert(out@[j] == before_insert[j]);
                lemma_span_at(before_insert, p@.len() as int, j);
            } else if j == k {
                assert(out@[j] == x);
            } else {
                assert(out@[j] == before_insert[j - 1]);
                lemma_span_at(before_insert, p@.len() as int, j - 1);
            }
        }
    }
    assert(items@.take(i as int) =~= items@);
    out
}

// ---------------------------------------------------------------------------
// Reducing the items of one page command

/// The page where `s` starts.
pub open spec fn start_pages(recs: Seq<RecordView>, s: Span) -> Seq<IndexPage> {
    recs[s.start as int].pages
}

/// The page where `s` ends.
pub open spec fn end_pages(recs: Seq<RecordView>, s: Span) -> Seq<IndexPage> {
    recs[s.end as int].pages
}

/// `cs` directly follows `pe`: their last components are of the same rank and the value
/// of the last component of `cs` is one more.
pub open spec fn adjacent(t: Seq<u8>, pe: Seq<IndexPage>, cs: Seq<IndexPage>) -> bool {
    &&& page_order(t, pe, cs) == PageOrder::LessSame
    &&& pe.len() > 0
    &&& cs.len() > 0
    &&& pe.last().value + 1 == cs.last().value
}

/// `last` starts no later than `prev` ends.
pub open spec fn overlaps(recs: Seq<RecordView>, t: Seq<u8>, prev: Span, last: Span) -> bool {
    !is_lt(page_order(t, end_pages(recs, prev), start_pages(recs, last)))
}

/// Two neighbouring items are merged when they overlap, or when merging is on, the second
/// directly follows the first, and one of them is a range.
pub open spec fn should_merge(recs: Seq<RecordView>, t: Seq<u8>, auto: bool, prev: Span, last: Span) -> bool {
    overlaps(recs, t, prev, last) || (auto && adjacent(t, end_pages(recs, prev), start_pages(recs, last))
        && (prev.is_range || last.is_range))
}

/// The item that two merged items become: the first one where they are the same single
/// page or where it ends no earlier; otherwise a range from the start of the first to the
/// end of the second.
pub open spec fn merged(recs: Seq<RecordView>, t: Seq<u8>, prev: Span, last: Span) -> Span {
    let ends = page_order(t, end_pages(recs, prev), end_pages(recs, last));
    if overlaps(recs, t, prev, last) && !prev.is_range && !last.is_range && ends == PageOrder::Equal {
        prev
    } else if is_lt(ends) {
        Span { start: prev.start, end: last.end, is_range: true }
    } else {
        prev
    }
}

/// Merges the last two items of `red` for as long as they should be merged.
pub open spec fn collapse(recs: Seq<RecordView>, t: Seq<u8>, auto: bool, red: Seq<Span>) -> Seq<Span>
    decreases red.len(),
{
    if red.len() < 2 {
        red
    } else {
        let prev = red[red.len() - 2];
        let last = red[red.len() - 1];
        if should_merge(recs, t, auto, prev, last) {
            collapse(recs, t, auto, red.take(red.len() - 2).push(merged(recs, t, prev, last)))
        } else {
            red
        }
    }
}

/// The end of the run of single pages, each directly following the one before, that goes
/// on from position `j`.
pub open spec fn run_end(recs: Seq<RecordView>, t: Seq<u8>, red: Seq<Span>, j: int) -> int
    decreases red.len() - j,
{
    if j <= 0 || j >= red.len() || red[j].is_range || !adjacent(
        t,
        end_pages(recs, red[j - 1]),
        start_pages(recs, red[j]),
    ) {
        j
    } else {
        run_end(recs, t, red, j + 1)
    }
}

pub proof fn lemma_run_end_range(recs: Seq<RecordView>, t: Seq<u8>, red: Seq<Span>, j: int)
    requires
        1 <= j <= red.len(),
    ensures
        j <= run_end(recs, t, red, j) <= red.len(),
    decreases red.len() - j,
{
    if j < red.len() && !red[j].is_range && adjacent(t, end_pages(recs, red[j - 1]), start_pages(recs, red[j])) {
        lemma_run_end_range(recs, t, red, j + 1);
    }
}

/// From position `i` on, turns each run of at least three single pages, each directly
/// following the one before, into one range (when merging is on).
pub open spec fn collapse_runs(recs: Seq<RecordView>, t: Seq<u8>, auto: bool, red: Seq<Span>, i: int) -> Seq<Span>
    decreases red.len() - i,
{
    if i < 0 || i >= red.len() {
        red
    } else if red[i].is_range {
        collapse_runs(recs, t, auto, red, i + 1)
    } else {
        let j = run_end(recs, t, red, i + 1);
        proof {
            lemma_run_end_range(recs, t, red, i + 1);
        }
        if auto && j - i >= 3 {
            let range = Span { start: red[i].start, end: red[j - 1].end, is_range: true };
            collapse_runs(recs, t, auto, red.take(i).push(range) + red.skip(j), i + 1)
        } else {
            collapse_runs(recs, t, auto, red, j)
        }
    }
}

/// Reduces the items sorted by group, from position `k` on: each item joins the current
/// group and is merged with its neighbours; when the next item has another page command,
/// the runs of the group are collapsed and the group goes to the result.
pub open spec fn reduce_from(
    recs: Seq<RecordView>,
    t: Seq<u8>,
    auto: bool,
    items: Seq<Span>,
    k: int,
    red: Seq<Span>,
    fin: Seq<Span>,
) -> Seq<Span>
    decreases items.len() - k,
{
    if k < 0 || k >= items.len() {
        fin
    } else {
        let red1 = collapse(recs, t, auto, red.push(items[k]));
        if k + 1 >= items.len() || recs[items[k + 1].start as int].cmd != recs[red1[0].start as int].cmd {
            reduce_from(recs, t, auto, items, k + 1, Seq::empty(), fin + collapse_runs(recs, t, auto, red1, 0))
        } else {
            reduce_from(recs, t, auto, items, k + 1, red1, fin)
        }
    }
}

proof fn lemma_less_same_prefix(t: Seq<u8>, l: Seq<IndexPage>, r: Seq<IndexPage>, i: int)
    requires
        l.len() > 0,
        r.len() > 0,
        0 <= i,
        crate::compare::prefix_order(t, l, r, i) == PageOrder::LessSame,
    ensures
        l.last().value < r.last().value,
    decreases l.len() - i,
{
    if i < l.len() - 1 && i < r.len() - 1 {
        if crate::compare::key_order(t, l[i], r[i]) == 0 {
            lemma_less_same_prefix(t, l, r, i + 1);
        }
    }
}

proof fn lemma_less_same(t: Seq<u8>, l: Seq<IndexPage>, r: Seq<IndexPage>)
    requires
        page_order(t, l, r) == PageOrder::LessSame,
    ensures
        l.len() > 0,
        r.len() > 0,
        l.last().value < r.last().value,
{
    lemma_less_same_prefix(t, l, r, 0);
}

fn adjacent_exec(pc: &PageComparator, pe: &[IndexPage], cs: &[IndexPage]) -> (r: bool)
    ensures
        r == adjacent(pc@, pe@, cs@),
{
    let o = pc.compare(pe, cs);
    match o {
        PageOrder::LessSame => {
            proof {
                lemma_less_same(pc@, pe@, cs@);
            }
            pe[pe.len() - 1].value + 1 == cs[cs.len() - 1].value
        },
        _ => false,
    }
}

fn page_lt(pc: &PageComparator, a: &[IndexPage], b: &[IndexPage]) -> (r: bool)
    ensures
        r == is_lt(page_order(pc@, a@, b@)),
{
    match pc.compare(a, b) {
        PageOrder::LessOther => true,
        PageOrder::LessSame => true,
        _ => false,
    }
}

fn merge_pair(
    p: &Vec<(Option<String>, RangeKind, String, Vec<IndexPage>)>,
    pc: &PageComparator,
    auto: bool,
    prev: Span,
    last: Span,
    Ghost(recs): Ghost<Seq<RecordView>>,
) -> (r: Option<Span>)
    requires
        recs == records_view(p@),
        prev.start < p@.len(),
        prev.end < p@.len(),
        last.start < p@.len(),
        last.end < p@.len(),
    ensures
        match r {
            Some(m) => should_merge(recs, pc@, auto, prev, last) && m == merged(recs, pc@, prev, last),
            None => !should_merge(recs, pc@, auto, prev, last),
        },
{
    assert(recs[prev.end as int] == record_view(p@[prev.end as int]));
    assert(recs[last.start as int] == record_view(p@[last.start as int]));
    assert(recs[last.end as int] == record_view(p@[last.end as int]));
    let pe = p[prev.end].3.as_slice();
    let ls = p[last.start].3.as_slice();
    let le = p[last.end].3.as_slice();
    let overlap = !page_lt(pc, pe, ls);
    let merge = overlap || (auto && adjacent_exec(pc, pe, ls) && (prev.is_range || last.is_range));
    if !merge {
        return None;
    }
    let ends = pc.compare(pe, le);
    let same_end = match ends {
        PageOrder::Equal => true,
        _ => false,
    };
    if overlap && !prev.is_range && !last.is_range && same_end {
        Some(prev)
    } else if page_lt(pc, pe, le) {
        Some(Span { start: prev.start, end: last.end, is_range: true })
    } else {
        Some(prev)
    }
}

fn collapse_exec(
    p: &Vec<(Option<String>, RangeKind, String, Vec<IndexPage>)>,
    pc: &PageComparator,
    auto: bool,
    red: &mut Vec<Span>,
    Ghost(recs): Ghost<Seq<RecordView>>,
)
    requires
        recs == records_view(p@),
        spans_ok(old(red)@, p@.len() as int),
    ensures
        final(red)@ == collapse(recs, pc@, auto, old(red)@),
        spans_ok(final(red)@, p@.len() as int),
        final(red)@.len() <= old(red)@.len(),
        old(red)@.len() > 0 ==> final(red)@.len() > 0,
{
    loop
        invariant
            recs == records_view(p@),
            spans_ok(red@, p@.len() as int),
            collapse(recs, pc@, auto, old(red)@) == collapse(recs, pc@, auto, red@),
            red@.len() <= old(red)@.len(),
            old(red)@.len() > 0 ==> red@.len() > 0,
        ensures
            red@ == collapse(recs, pc@, auto, old(red)@),
            spans_ok(red@, p@.len() as int),
            red@.len() <= old(red)@.len(),
            old(red)@.len() > 0 ==> red@.len() > 0,
        decreases red@.len(),
    {
        let n = red.len();
        if n < 2 {
            break;
        }
        let prev = red[n - 2];
        let last = red[n - 1];
        assert(red@[n - 2].start < p@.len() && red@[n - 2].end < p@.len());
        assert(red@[n - 1].start < p@.len() && red@[n - 1].end < p@.len());
        match merge_pair(p, pc, auto, prev, last, Ghost(recs)) {
            Some(m) => {
                let ghost before = red@;
                red.pop();
                red.pop();
                red.push(m);
                assert(red@ =~= before.take(before.len() - 2).push(m));
                assert forall|i: int| 0 <= i < red@.len() implies #[trigger] red@[i].start < p@.len()
                    && red@[i].end < p@.len() by {
                    if i < red@.len() - 1 {
                        assert(red@[i] == before[i]);
                        assert(before[i].start < p@.len() && before[i].end < p@.len());
                    }
                }
            },
            None => {
                break;
            },
        }
    }
}

fn run_end_exec(
    p: &Vec<(Option<String>, RangeKind, String, Vec<IndexPage>)>,
    pc: &PageComparator,
    red: &Vec<Span>,
    from: usize,
    Ghost(recs): Ghost<Seq<RecordView>>,
) -> (j: usize)
    requires
        recs == records_view(p@),
        spans_ok(red@, p@.len() as int),
        1 <= from <= red@.len(),
    ensures
        j == run_end(recs, pc@, red@, from as int),
        from <= j <= red@.len(),
{
    let mut j = from;
    loop
        invariant
            recs == records_view(p@),
            spans_ok(red@, p@.len() as int),
            1 <= from <= j <= red@.len(),
            run_end(recs, pc@, red@, from as int) == run_end(recs, pc@, red@, j as int),
        ensures
            j == run_end(recs, pc@, red@, from as int),
            from <= j <= red@.len(),
        decreases red@.len() - j,
    {
        if j >= red.len() {
            break;
        }
        let a = red[j - 1];
        let b = red[j];
        if b.is_range {
            break;
        }
        proof {
            lemma_span_at(red@, p@.len() as int, j - 1);
            lemma_span_at(red@, p@.len() as int, j as int);
        }
        assert(recs[a.end as int] == record_view(p@[a.end as int]));
        assert(recs[b.start as int] == record_view(p@[b.start as int]));
        if !adjacent_exec(pc, p[a.end].3.as_slice(), p[b.start].3.as_slice()) {
            break;
        }
        j = j + 1;
    }
    j
}

fn replace_run(red: &Vec<Span>, i: usize, j: usize, x: Span) -> (r: Vec<Span>)
    requires
        i < j <= red@.len(),
    ensures
        r@ == red@.take(i as int).push(x) + red@.skip(j as int),
{
    let mut r: Vec<Span> = Vec::new();
    let mut k: usize = 0;
    while k < i
        invariant
            k <= i < j <= red@.len(),
            r@ == red@.take(k as int),
        decreases i - k,
    {
        r.push(red[k]);
        k = k + 1;
        assert(r@ =~= red@.take(k as int));
    }
    r.push(x);
    let mut m: usize = j;
    while m < red.len()
        invariant
            i < j <= m <= red@.len(),
            r@ == red@.take(i as int).push(x) + red@.subrange(j as int, m as int),
        decreases red@.len() - m,
    {
        r.push(red[m]);
        m = m + 1;
        assert(r@ =~= red@.take(i as int).push(x) + red@.subrange(j as int, m as int));
    }
    assert(red@.subrange(j as int, m as int) =~= red@.skip(j as int));
    r
}

fn collapse_runs_exec(
    p: &Vec<(Option<String>, RangeKind, String, Vec<IndexPage>)>,
    pc: &PageComparator,
    auto: bool,
    red: Vec<Span>,
    Ghost(recs): Ghost<Seq<RecordView>>,
) -> (r: Vec<Span>)
    requires
        recs == records_view(p@),
        spans_ok(red@, p@.len() as int),
    ensures
        r@ == collapse_runs(recs, pc@, auto, red@, 0),
        spans_ok(r@, p@.len() as int),
        r@.len() <= red@.len(),
{
    let mut cur = red;
    let mut i: usize = 0;
    while i < cur.len()
        invariant
            recs == records_view(p@),
            spans_ok(cur@, p@.len() as int),
            i <= cur@.len(),
            collapse_runs(recs, pc@, auto, red@, 0) == collapse_runs(recs, pc@, auto, cur@, i as int),
            cur@.len() <= red@.len(),
        decreases cur@.len() - i,
    {
        if cur[i].is_range {
            i = i + 1;
        } else {
            let j = run_end_exec(p, pc, &cur, i + 1, Ghost(recs));
            if auto && j - i >= 3 {
                let first = cur[i];
                let last = cur[j - 1];
                proof {
                    lemma_span_at(cur@, p@.len() as int, i as int);
                    lemma_span_at(cur@, p@.len() as int, j - 1);
                }
                let range = Span { start: first.start, end: last.end, is_range: true };
                let next = replace_run(&cur, i, j, range);
                assert forall|k: int| 0 <= k < next@.len() implies #[trigger] next@[k].start < p@.len()
                    && next@[k].end < p@.len() by {
                    if k < i {
                        assert(next@[k] == cur@[k]);
                        assert(cur@[k].start < p@.len() && cur@[k].end < p@.len());
                    } else if k > i {
                        assert(next@[k] == cur@[k - i - 1 + j]);
                        assert(cur@[k - i - 1 + j].start < p@.len() && cur@[k - i - 1 + j].end < p@.len());
                    }
                }
                cur = next;
                i = i + 1;
            } else {
                i = j;
            }
        }
    }
    cur
}

fn reduce_items(
    p: &Vec<(Option<String>, RangeKind, String, Vec<IndexPage>)>,
    cmds: &Vec<Option<Vec<char>>>,
    pc: &PageComparator,
    auto: bool,
    items: &Vec<Span>,
    Ghost(recs): Ghost<Seq<RecordView>>,
) -> (fin: Vec<Span>)
    requires
        recs == records_view(p@),
        cmds_match(cmds@, recs),
        spans_ok(items@, p@.len() as int),
    ensures
        fin@ == reduce_from(recs, pc@, auto, items@, 0, Seq::empty(), Seq::empty()),
        spans_ok(fin@, p@.len() as int),
        fin@.len() <= items@.len(),
{
    let mut red: Vec<Span> = Vec::new();
    let mut fin: Vec<Span> = Vec::new();
    let mut k: usize = 0;
    while k < items.len()
        invariant
            recs == records_view(p@),
            cmds_match(cmds@, recs),
            spans_ok(items@, p@.len() as int),
            spans_ok(red@, p@.len() as int),
            spans_ok(fin@, p@.len() as int),
            k <= items@.len(),
            reduce_from(recs, pc@, auto, items@, 0, Seq::empty(), Seq::empty())
                == reduce_from(recs, pc@, auto, items@, k as int, red@, fin@),
            fin@.len() + red@.len() <= k,
        decreases items@.len() - k,
    {
        let x = items[k];
        assert(items@[k as int].start < p@.len() && items@[k as int].end < p@.len());
        let ghost red_before = red@;
        red.push(x);
        assert(spans_ok(red@, p@.len() as int)) by {
            assert forall|i: int| 0 <= i < red@.len() implies #[trigger] red@[i].start < p@.len()
                && red@[i].end < p@.len() by {
                if i < red@.len() - 1 {
                    assert(red@[i] == red_before[i]);
                    assert(red_before[i].start < p@.len() && red_before[i].end < p@.len());
                }
            }
        }
        collapse_exec(p, pc, auto, &mut red, Ghost(recs));
        let boundary = if k + 1 >= items.len() {
            true
        } else {
            let nx = items[k + 1];
            assert(items@[k + 1].start < p@.len());
            assert(red@[0].start < p@.len());
            !cmd_eq_exec(&cmds[nx.start], &cmds[red[0].start])
        };
        if boundary {
            let mut runs = collapse_runs_exec(p, pc, auto, red, Ghost(recs));
            let ghost fin_before = fin@;
            let ghost runs_before = runs@;
            fin.append(&mut runs);
            assert forall|i: int| 0 <= i < fin@.len() implies #[trigger] fin@[i].start < p@.len()
                && fin@[i].end < p@.len() by {
                if i < fin_before.len() {
                    assert(fin@[i] == fin_before[i]);
                    assert(fin_before[i].start < p@.len() && fin_before[i].end < p@.len());
                } else {
                    assert(fin@[i] == runs_before[i - fin_before.len()]);
                    lemma_span_at(runs_before, p@.len() as int, i - fin_before.len());
                }
            }
            red = Vec::new();
        }
        k = k + 1;
    }
    fin
}

// ---------------------------------------------------------------------------
// Merged pages

/// A page, or a range of pages, of an index entry after merging, with its page command.
/// Each page is given with its components and as it was written.
#[derive(Debug)]
pub enum MergedPage {
    Single { page_command: Option<String>, page: (Vec<IndexPage>, String) },
    Range {
        page_command: Option<String>,
        start: (Vec<IndexPage>, String),
        end: (Vec<IndexPage>, String),
    },
}

/// A merged page as plain values.
pub enum MergedPageView {
    Single { page_command: Option<Seq<char>>, page: (Seq<IndexPage>, Seq<char>) },
    Range {
        page_command: Option<Seq<char>>,
        start: (Seq<IndexPage>, Seq<char>),
        end: (Seq<IndexPage>, Seq<char>),
    },
}

impl View for MergedPage {
    type V = MergedPageView;

    open spec fn view(&self) -> MergedPageView {
        match self {
            MergedPage::Single { page_command, page } => MergedPageView::Single {
                page_command: opt_chars(*page_command),
                page: (page.0@, page.1@),
            },
            MergedPage::Range { page_command, start, end } => MergedPageView::Range {
                page_command: opt_chars(*page_command),
                start: (start.0@, start.1@),
                end: (end.0@, end.1@),
            },
        }
    }
}

impl Clone for MergedPage {
    fn clone(&self) -> (r: Self)
        ensures
            r@ == self@,
    {
        match self {
            MergedPage::Single { page_command, page } => MergedPage::Single {
                page_command: copy_cmd(page_command),
                page: (copy_pages(&page.0), page.1.clone()),
            },
            MergedPage::Range { page_command, start, end } => MergedPage::Range {
                page_command: copy_cmd(page_command),
                start: (copy_pages(&start.0), start.1.clone()),
                end: (copy_pages(&end.0), end.1.clone()),
            },
        }
    }
}

impl MergedPage {
    /// The page command of this page or range.
    pub fn page_command(&self) -> (r: Option<&str>)
        ensures
            match self@ {
                MergedPageView::Single { page_command, .. } => opt_str_view(r) == page_command,
                MergedPageView::Range { page_command, .. } => opt_str_view(r) == page_command,
            },
    {
        match self {
            MergedPage::Single { page_command, .. } => match page_command {
                Some(c) => Some(c.as_str()),
                None => None,
            },
            MergedPage::Range { page_command, .. } => match page_command {
                Some(c) => Some(c.as_str()),
                None => None,
            },
        }
    }
}

/// An optional string slice seen as characters.
pub open spec fn opt_str_view(o: Option<&str>) -> Option<Seq<char>> {
    match o {
        Some(s) => Some(s@),
        None => None,
    }
}

/// The merged pages of an index entry, in order.
#[derive(Debug, Clone)]
pub struct MergedPages(Vec<MergedPage>);

impl View for MergedPages {
    type V = Seq<MergedPageView>;

    closed spec fn view(&self) -> Seq<MergedPageView> {
        self.0@.map_values(|m: MergedPage| m@)
    }
}

impl Default for MergedPages {
    fn default() -> (r: Self)
        ensures
            r@ == Seq::<MergedPageView>::empty(),
    {
        let r = MergedPages(Vec::new());
        assert(r@ =~= Seq::<MergedPageView>::empty());
        r
    }
}

impl MergedPages {
    /// The pages, in order.
    pub fn as_slice(&self) -> (r: &[MergedPage])
        ensures
            r@.map_values(|m: MergedPage| m@) == self@,
    {
        self.0.as_slice()
    }

    /// The number of pages and ranges.
    pub fn len(&self) -> (n: usize)
        ensures
            n == self@.len(),
    {
        self.0.len()
    }

    /// Whether there is no page.
    pub fn is_empty(&self) -> (b: bool)
        ensures
            b == (self@.len() == 0),
    {
        self.0.len() == 0
    }
}

/// A record's page: its components and its text.
pub open spec fn page_tuple(r: RecordView) -> (Seq<IndexPage>, Seq<char>) {
    (r.pages, r.raw)
}

/// The merged page that a span stands for: its page command is that of its first record.
pub open spec fn span_page(recs: Seq<RecordView>, s: Span) -> MergedPageView {
    if s.is_range {
        MergedPageView::Range {
            page_command: recs[s.start as int].cmd,
            start: page_tuple(recs[s.start as int]),
            end: page_tuple(recs[s.end as int]),
        }
    } else {
        MergedPageView::Single { page_command: recs[s.start as int].cmd, page: page_tuple(recs[s.start as int]) }
    }
}

/// The spans that merging the records gives: ranges matched, sorted by page command, page and
/// arrival, reduced group by group, and sorted again by page and arrival.
pub open spec fn final_spans(recs: Seq<RecordView>, t: Seq<u8>, auto: bool, strict: bool) -> Seq<Span> {
    let grouped = sort_spans(paired(recs, strict), order_rel(recs, t, true));
    let reduced = reduce_from(recs, t, auto, grouped, 0, Seq::empty(), Seq::empty());
    sort_spans(reduced, order_rel(recs, t, false))
}

/// The merged pages of the records.
pub open spec fn merged_pages(recs: Seq<RecordView>, t: Seq<u8>, auto: bool, strict: bool) -> Seq<MergedPageView> {
    final_spans(recs, t, auto, strict).map_values(|s: Span| span_page(recs, s))
}

fn copy_pages(v: &Vec<IndexPage>) -> (r: Vec<IndexPage>)
    ensures
        r@ == v@,
{
    let mut r: Vec<IndexPage> = Vec::new();
    let mut i: usize = 0;
    while i < v.len()
        invariant
            i <= v@.len(),
            r@ == v@.take(i as int),
        decreases v@.len() - i,
    {
        r.push(v[i]);
        i = i + 1;
        assert(r@ =~= v@.take(i as int));
    }
    assert(v@.take(i as int) =~= v@);
    r
}

fn copy_cmd(c: &Option<String>) -> (r: Option<String>)
    ensures
        opt_chars(r) == opt_chars(*c),
{
    match c {
        Some(s) => Some(s.clone()),
        None => None,
    }
}

fn page_of(
    p: &Vec<(Option<String>, RangeKind, String, Vec<IndexPage>)>,
    s: Span,
    Ghost(recs): Ghost<Seq<RecordView>>,
) -> (m: MergedPage)
    requires
        recs == records_view(p@),
        s.start < p@.len(),
        s.end < p@.len(),
    ensures
        m@ == span_page(recs, s),
{
    assert(recs[s.start as int] == record_view(p@[s.start as int]));
    assert(recs[s.end as int] == record_view(p@[s.end as int]));
    let r = &p[s.start];
    let command = copy_cmd(&r.0);
    let start = (copy_pages(&r.3), r.2.clone());
    if s.is_range {
        let e = &p[s.end];
        let end = (copy_pages(&e.3), e.2.clone());
        MergedPage::Range { page_command: command, start, end }
    } else {
        MergedPage::Single { page_command: command, page: start }
    }
}

/// The page commands of the records, as characters.
fn record_cmds(p: &Vec<(Option<String>, RangeKind, String, Vec<IndexPage>)>) -> (cmds: Vec<Option<Vec<char>>>)
    ensures
        cmds_match(cmds@, records_view(p@)),
{
    let ghost recs = records_view(p@);
    let mut cmds: Vec<Option<Vec<char>>> = Vec::new();
    let mut i: usize = 0;
    while i < p.len()
        invariant
            recs == records_view(p@),
            i <= p@.len(),
            cmds@.len() == i,
            forall|j: int| 0 <= j < i ==> #[trigger] opt_vec_view(cmds@[j]) == recs[j].cmd,
        decreases p@.len() - i,
    {
        assert(recs[i as int] == record_view(p@[i as int]));
        let c = match &p[i].0 {
            Some(s) => Some(str_chars(s.as_str())),
            None => None,
        };
        cmds.push(c);
        i = i + 1;
    }
    cmds
}

/// The positions of the records that stay unpaired among the first `n` spans: a single
/// page made by a closing or an opening record.
pub open spec fn unmatched_upto(recs: Seq<RecordView>, spans: Seq<Span>, n: int) -> Seq<usize>
    decreases n,
{
    if n <= 0 {
        Seq::empty()
    } else {
        let prev = unmatched_upto(recs, spans, n - 1);
        let s = spans[n - 1];
        if !s.is_range && recs[s.start as int].kind != RangeKind::Plain {
            prev.push(s.start)
        } else {
            prev
        }
    }
}

/// The records that matching leaves unpaired: each closing record that finds no open one,
/// in the order they come, then each opening record that stays open, in the order they
/// came.
pub open spec fn unmatched(recs: Seq<RecordView>, strict: bool) -> Seq<usize> {
    unmatched_upto(recs, paired(recs, strict), paired(recs, strict).len() as int)
}

fn unmatched_exec(
    p: &Vec<(Option<String>, RangeKind, String, Vec<IndexPage>)>,
    cmds: &Vec<Option<Vec<char>>>,
    strict: bool,
) -> (u: Vec<usize>)
    requires
        cmds_match(cmds@, records_view(p@)),
    ensures
        u@ == unmatched(records_view(p@), strict),
        forall|i: int| 0 <= i < u@.len() ==> #[trigger] u@[i] < p@.len(),
{
    let ghost recs = records_view(p@);
    let items = pair_records(p, cmds, strict);
    let mut u: Vec<usize> = Vec::new();
    let mut k: usize = 0;
    while k < items.len()
        invariant
            recs == records_view(p@),
            items@ == paired(recs, strict),
            spans_ok(items@, p@.len() as int),
            k <= items@.len(),
            u@ == unmatched_upto(recs, items@, k as int),
            forall|i: int| 0 <= i < u@.len() ==> #[trigger] u@[i] < p@.len(),
        decreases items@.len() - k,
    {
        let sp = items[k];
        assert(sp.start < p@.len());
        assert(recs[sp.start as int] == record_view(p@[sp.start as int]));
        let kind = p[sp.start].1;
        if !sp.is_range && kind != RangeKind::Plain {
            u.push(sp.start);
        }
        k = k + 1;
    }
    u
}

/// Builds the merged pages of index entries.
pub struct MergedPagesBuilder<'s> {
    comparator: PageComparator,
    auto_merge: bool,
    strict: bool,
    #[allow(dead_code)]
    input_style: &'s IstInputStyle,
    #[allow(dead_code)]
    output_style: &'s IstOutputStyle,
}

impl<'s> MergedPagesBuilder<'s> {
    /// The precedence table that the builder compares pages by.
    pub closed spec fn table(&self) -> Seq<u8> {
        self.comparator@
    }

    /// Whether runs of pages are merged into ranges.
    pub closed spec fn merging(&self) -> bool {
        self.auto_merge
    }

    /// Whether a closing record only closes an open one with the same page command.
    pub closed spec fn matching_strict(&self) -> bool {
        self.strict
    }

    /// The reading and writing styles that the builder was made with.
    pub closed spec fn styles(&self) -> (IstInputStyle, IstOutputStyle) {
        (*self.input_style, *self.output_style)
    }

    /// A builder that compares pages with `page_cmp`.
    pub fn new(
        page_cmp: PageComparator,
        auto_merge: bool,
        strict: bool,
        style: (&'s IstInputStyle, &'s IstOutputStyle),
    ) -> (b: Self)
        ensures
            b.table() == page_cmp@,
            b.merging() == auto_merge,
            b.matching_strict() == strict,
            b.styles() == (*style.0, *style.1),
    {
        MergedPagesBuilder { comparator: page_cmp, auto_merge, strict, input_style: style.0, output_style: style.1 }
    }

    /// The positions of the records `p` that matching leaves unpaired (see `unmatched`),
    /// which a reader of the merged pages may want to report.
    pub fn unmatched_ranges(&self, p: &Vec<(Option<String>, RangeKind, String, Vec<IndexPage>)>) -> (u: Vec<
        usize,
    >)
        ensures
            u@ == unmatched(records_view(p@), self.matching_strict()),
            forall|i: int| 0 <= i < u@.len() ==> #[trigger] u@[i] < p@.len(),
    {
        let cmds = record_cmds(p);
        unmatched_exec(p, &cmds, self.strict)
    }

    /// Merges the pages of the records `p` (page command, range kind, page text, page):
    /// matches each closing record with an open one, merges overlapping and adjacent pages
    /// of the same command, turns runs of three or more consecutive pages into ranges, and
    /// orders the result by page.
    pub fn build_from_vec(&mut self, p: Vec<(Option<String>, RangeKind, String, Vec<IndexPage>)>) -> (r: MergedPages)
        ensures
            *final(self) == *old(self),
            r@ == merged_pages(records_view(p@), old(self).table(), old(self).merging(), old(self).matching_strict()),
            r@.len() <= p@.len(),
    {
        let ghost recs = records_view(p@);
        let cmds = record_cmds(&p);
        let pc = &self.comparator;
        let items = pair_records(&p, &cmds, self.strict);
        let grouped = sort_items(&p, &cmds, pc, true, &items, Ghost(recs));
        let reduced = reduce_items(&p, &cmds, pc, self.auto_merge, &grouped, Ghost(recs));
        let ordered = sort_items(&p, &cmds, pc, false, &reduced, Ghost(recs));
        let mut out: Vec<MergedPage> = Vec::new();
        let mut k: usize = 0;
        while k < ordered.len()
            invariant
                recs == records_view(p@),
                spans_ok(ordered@, p@.len() as int),
                k <= ordered@.len(),
                out@.map_values(|m: MergedPage| m@) == ordered@.take(k as int).map_values(
                    |s: Span| span_page(recs, s),
                ),
            decreases ordered@.len() - k,
        {
            proof {
                lemma_span_at(ordered@, p@.len() as int, k as int);
            }
            let m = page_of(&p, ordered[k], Ghost(recs));
            let ghost prev_out = out@;
            out.push(m);
            k = k + 1;
            proof {
                let f = |m: MergedPage| m@;
                let g = |s: Span| span_page(recs, s);
                assert(out@.map_values(f) =~= prev_out.map_values(f).push(m@));
                assert(ordered@.take(k as int) =~= ordered@.take(k - 1).push(ordered@[k - 1]));
                assert(ordered@.take(k as int).map_values(g) =~= ordered@.take(k - 1).map_values(g).push(
                    span_page(recs, ordered@[k - 1]),
                ));
            }
        }
        assert(ordered@.take(k as int) =~= ordered@);
        MergedPages(out)
    }
}

// ---------------------------------------------------------------------------
// Laws of the merged pages

/// No item of `s` comes before an earlier one.
pub open spec fn sorted_by(s: Seq<Span>, before: spec_fn(Span, Span) -> bool) -> bool {
    forall|i: int, j: int| 0 <= i < j < s.len() ==> !before(s[j], s[i])
}

/// `before` is asymmetric and transitive.
pub open spec fn strict_order(before: spec_fn(Span, Span) -> bool) -> bool {
    &&& forall|a: Span, b: Span| #[trigger] before(a, b) ==> !before(b, a)
    &&& forall|a: Span, b: Span, c: Span| #[trigger] before(a, b) && #[trigger] before(b, c) ==> before(a, c)
}

proof fn lemma_insert_pos_props(s: Seq<Span>, x: Span, before: spec_fn(Span, Span) -> bool, k: int)
    requires
        0 <= k <= s.len(),
    ensures
        k <= insert_pos(s, x, before, k) <= s.len(),
        forall|i: int| k <= i < insert_pos(s, x, before, k) ==> !before(x, #[trigger] s[i]),
        insert_pos(s, x, before, k) < s.len() ==> before(x, s[insert_pos(s, x, before, k)]),
    decreases s.len() - k,
{
    if k < s.len() && !before(x, s[k]) {
        lemma_insert_pos_props(s, x, before, k + 1);
    }
}

proof fn lemma_insert_sorted(s: Seq<Span>, x: Span, before: spec_fn(Span, Span) -> bool)
    requires
        sorted_by(s, before),
        strict_order(before),
    ensures
        sorted_by(s.insert(insert_pos(s, x, before, 0), x), before),
{
    lemma_insert_pos_props(s, x, before, 0);
    let p = insert_pos(s, x, before, 0);
    let r = s.insert(p, x);
    assert forall|i: int, j: int| 0 <= i < j < r.len() implies !before(r[j], r[i]) by {
        if j < p {
            assert(r[i] == s[i] && r[j] == s[j]);
        } else if j == p {
            assert(r[i] == s[i]);
        } else if i < p {
            assert(r[i] == s[i] && r[j] == s[j - 1]);
        } else if i == p {
            assert(r[j] == s[j - 1]);
            assert(before(x, s[p]));
            if j - 1 > p {
                assert(!before(s[j - 1], s[p]));
                if before(s[j - 1], x) {
                    assert(before(s[j - 1], s[p]));
                }
            }
        } else {
            assert(r[i] == s[i - 1] && r[j] == s[j - 1]);
        }
    }
}

/// Sorting by insertion under an asymmetric and transitive order gives a sorted sequence.
pub proof fn lemma_sort_spans_sorted(s: Seq<Span>, before: spec_fn(Span, Span) -> bool)
    requires
        strict_order(before),
    ensures
        sorted_by(sort_spans(s, before), before),
    decreases s.len(),
{
    if s.len() > 0 {
        lemma_sort_spans_sorted(s.drop_last(), before);
        lemma_insert_sorted(sort_spans(s.drop_last(), before), s.last(), before);
    }
}

proof fn lemma_le_both_ways(t: Seq<u8>, a: Seq<IndexPage>, b: Seq<IndexPage>)
    requires
        is_le(page_order(t, a, b)),
        is_le(page_order(t, b, a)),
    ensures
        page_order(t, a, b) == PageOrder::Equal,
{
    crate::compare::law_page_order_flip(t, a, b);
}

proof fn lemma_page_before_strict(recs: Seq<RecordView>, t: Seq<u8>)
    ensures
        strict_order(order_rel(recs, t, false)),
{
    let rel = order_rel(recs, t, false);
    assert forall|a: Span, b: Span| #[trigger] rel(a, b) implies !rel(b, a) by {
        crate::compare::law_page_order_flip(t, start_pages(recs, a), start_pages(recs, b));
    }
    assert forall|a: Span, b: Span, c: Span| #[trigger] rel(a, b) && #[trigger] rel(b, c) implies rel(a, c) by {
        let pa = start_pages(recs, a);
        let pb = start_pages(recs, b);
        let pc = start_pages(recs, c);
        crate::compare::law_page_order_transitive(t, pa, pb, pc);
        crate::compare::law_page_order_flip(t, pa, pb);
        crate::compare::law_page_order_flip(t, pb, pc);
        crate::compare::law_page_order_flip(t, pa, pc);
        if page_order(t, pa, pb) == PageOrder::Equal && page_order(t, pb, pc) == PageOrder::Equal {
            crate::compare::law_page_order_transitive(t, pc, pb, pa);
            lemma_le_both_ways(t, pa, pc);
        }
    }
}

/// The merged pages come in the order of their first pages.
pub open spec fn first_pages(m: MergedPageView) -> Seq<IndexPage> {
    match m {
        MergedPageView::Single { page, .. } => page.0,
        MergedPageView::Range { start, .. } => start.0,
    }
}

/// The merged pages are in order: no merged page starts on a page before that of an
/// earlier one.
pub proof fn law_merged_pages_in_page_order(recs: Seq<RecordView>, t: Seq<u8>, auto: bool, strict: bool)
    ensures
        forall|i: int, j: int|
            0 <= i < j < merged_pages(recs, t, auto, strict).len() ==> is_le(
                page_order(
                    t,
                    first_pages(#[trigger] merged_pages(recs, t, auto, strict)[i]),
                    first_pages(#[trigger] merged_pages(recs, t, auto, strict)[j]),
                ),
            ),
{
    let grouped = sort_spans(paired(recs, strict), order_rel(recs, t, true));
    let reduced = reduce_from(recs, t, auto, grouped, 0, Seq::empty(), Seq::empty());
    let rel = order_rel(recs, t, false);
    let f = final_spans(recs, t, auto, strict);
    let m = merged_pages(recs, t, auto, strict);
    lemma_page_before_strict(recs, t);
    lemma_sort_spans_sorted(reduced, rel);
    assert forall|i: int, j: int| 0 <= i < j < m.len() implies is_le(
        page_order(t, first_pages(#[trigger] m[i]), first_pages(#[trigger] m[j])),
    ) by {
        assert(!rel(f[j], f[i]));
        assert(first_pages(m[i]) == start_pages(recs, f[i]));
        assert(first_pages(m[j]) == start_pages(recs, f[j]));
        crate::compare::law_page_order_flip(t, start_pages(recs, f[i]), start_pages(recs, f[j]));
    }
}

// ---------------------------------------------------------------------------
// Grouping entries by their levels

/// The map type of the `indexmap` crate, which keeps its keys in the order they came.
#[verifier::external_type_specification]
#[verifier::external_body]
#[verifier::reject_recursive_types(K)]
#[verifier::reject_recursive_types(V)]
#[verifier::reject_recursive_types(S)]
pub struct ExIndexMap<K, V, S>(IndexMap<K, V, S>);

/// The keys of a map from level identities, in the map's order.
pub uninterp spec fn group_keys(m: IndexMap<Vec<(String, String)>, ()>) -> Seq<Seq<(Seq<char>, Seq<char>)>>;

/// A level identity as plain values.
pub open spec fn key_view(k: Vec<(String, String)>) -> Seq<(Seq<char>, Seq<char>)> {
    k@.map_values(|p: (String, String)| (p.0@, p.1@))
}

/// Makes an empty map (calls `IndexMap::new`): it holds no key.
#[verifier::external_body]
fn new_group_map() -> (m: IndexMap<Vec<(String, String)>, ()>)
    ensures
        group_keys(m) == Seq::<Seq<(Seq<char>, Seq<char>)>>::empty(),
{
    IndexMap::new()
}

/// Inserts `key` (calls `IndexMap::insert_full`). Where an equal key is in the map, the map
/// keeps its keys and the position of that key comes back with `Some`; otherwise the key
/// goes last and its position comes back with `None`.
#[verifier::external_body]
fn group_map_insert(m: &mut IndexMap<Vec<(String, String)>, ()>, key: Vec<(String, String)>) -> (r: (
    usize,
    Option<()>,
))
    ensures
        group_keys(*old(m)).contains(key_view(key)) ==> {
            &&& group_keys(*final(m)) == group_keys(*old(m))
            &&& r.0 < group_keys(*old(m)).len()
            &&& group_keys(*old(m))[r.0 as int] == key_view(key)
            &&& r.1 is Some
        },
        !group_keys(*old(m)).contains(key_view(key)) ==> {
            &&& group_keys(*final(m)) == group_keys(*old(m)).push(key_view(key))
            &&& r.0 == group_keys(*old(m)).len()
            &&& r.1 is None
        },
{
    m.insert_full(key, ())
}

/// The position of the first key equal to `k`, from `i` on; the length where there is none.
pub open spec fn first_index(keys: Seq<Seq<(Seq<char>, Seq<char>)>>, k: Seq<(Seq<char>, Seq<char>)>, i: int) -> int
    decreases keys.len() - i,
{
    if i < 0 || i >= keys.len() {
        keys.len() as int
    } else if keys[i] == k {
        i
    } else {
        first_index(keys, k, i + 1)
    }
}

/// The groups of the entries so far: their level identities in order of first appearance,
/// and the group of each entry.
pub struct Grouping {
    pub keys: Seq<Seq<(Seq<char>, Seq<char>)>>,
    pub gids: Seq<int>,
}

/// The groups of the first `n` entries: an entry joins the group of its level identity,
/// and one with a new identity opens a new group, last.
pub open spec fn group_upto(entries: Seq<EntryView>, n: int) -> Grouping
    decreases n,
{
    if n <= 0 {
        Grouping { keys: Seq::empty(), gids: Seq::empty() }
    } else {
        let g = group_upto(entries, n - 1);
        let k = levels_key(entries[n - 1].levels);
        let i = first_index(g.keys, k, 0);
        if i < g.keys.len() {
            Grouping { keys: g.keys, gids: g.gids.push(i) }
        } else {
            Grouping { keys: g.keys.push(k), gids: g.gids.push(g.keys.len() as int) }
        }
    }
}

/// The entries, among the first `n`, that belong to the group `g`, in order.
pub open spec fn members(gids: Seq<int>, g: int, n: int) -> Seq<int>
    decreases n,
{
    if n <= 0 {
        Seq::empty()
    } else if gids[n - 1] == g {
        members(gids, g, n - 1).push(n - 1)
    } else {
        members(gids, g, n - 1)
    }
}

/// The record that an entry hands to the page builder.
pub open spec fn entry_record(e: EntryView) -> RecordView {
    RecordView { cmd: e.page_commands, kind: e.range, raw: e.pages_raw, pages: e.pages }
}

/// A merged entry as plain values.
pub struct MergedEntryView {
    pub levels: Seq<(Option<Seq<char>>, Seq<char>)>,
    pub pages: Seq<MergedPageView>,
}

/// The merged entries: one per group, in order of first appearance, with the levels of the
/// group's first entry and the merged pages of all its entries.
pub open spec fn merged_entries(entries: Seq<EntryView>, t: Seq<u8>, auto: bool, strict: bool) -> Seq<MergedEntryView> {
    let g = group_upto(entries, entries.len() as int);
    Seq::new(
        g.keys.len(),
        |i: int|
            {
                let ms = members(g.gids, i, entries.len() as int);
                MergedEntryView {
                    levels: entries[ms[0]].levels,
                    pages: merged_pages(ms.map_values(|j: int| entry_record(entries[j])), t, auto, strict),
                }
            },
    )
}

/// The levels of an index entry with the pages merged from all its records.
#[derive(Debug, Clone)]
pub struct MergedEntry {
    pub levels: Vec<(Option<String>, String)>,
    pub pages: MergedPages,
}

impl View for MergedEntry {
    type V = MergedEntryView;

    open spec fn view(&self) -> MergedEntryView {
        MergedEntryView { levels: crate::entry::levels_view(self.levels@), pages: self.pages@ }
    }
}

fn level_identity(levels: &Vec<(Option<String>, String)>) -> (k: Vec<(String, String)>)
    ensures
        key_view(k) == levels_key(crate::entry::levels_view(levels@)),
{
    let mut k: Vec<(String, String)> = Vec::new();
    let mut i: usize = 0;
    while i < levels.len()
        invariant
            i <= levels@.len(),
            k@.len() == i,
            forall|j: int| 0 <= j < i ==> (#[trigger] k@[j].0@, k@[j].1@) == level_key(level_view(levels@[j])),
        decreases levels@.len() - i,
    {
        let l = &levels[i];
        let pair = match &l.0 {
            Some(key) => (key.clone(), l.1.clone()),
            None => (l.1.clone(), l.1.clone()),
        };
        k.push(pair);
        i = i + 1;
    }
    proof {
        let a = key_view(k);
        let b = levels_key(crate::entry::levels_view(levels@));
        assert forall|j: int| 0 <= j < a.len() implies a[j] == b[j] by {
            assert(crate::entry::levels_view(levels@)[j] == level_view(levels@[j]));
            assert((k@[j].0@, k@[j].1@) == level_key(level_view(levels@[j])));
        }
        assert(a =~= b);
    }
    k
}

fn copy_levels(levels: &Vec<(Option<String>, String)>) -> (r: Vec<(Option<String>, String)>)
    ensures
        crate::entry::levels_view(r@) == crate::entry::levels_view(levels@),
{
    let mut r: Vec<(Option<String>, String)> = Vec::new();
    let mut i: usize = 0;
    while i < levels.len()
        invariant
            i <= levels@.len(),
            r@.len() == i,
            forall|j: int| 0 <= j < i ==> level_view(#[trigger] r@[j]) == level_view(levels@[j]),
        decreases levels@.len() - i,
    {
        let l = &levels[i];
        let pair = (copy_cmd(&l.0), l.1.clone());
        r.push(pair);
        i = i + 1;
    }
    proof {
        let a = crate::entry::levels_view(r@);
        let b = crate::entry::levels_view(levels@);
        assert forall|j: int| 0 <= j < a.len() implies a[j] == b[j] by {
            assert(level_view(r@[j]) == level_view(levels@[j]));
        }
        assert(a =~= b);
    }
    r
}

proof fn lemma_first_index(keys: Seq<Seq<(Seq<char>, Seq<char>)>>, k: Seq<(Seq<char>, Seq<char>)>, i: int)
    requires
        0 <= i <= keys.len(),
    ensures
        i <= first_index(keys, k, i) <= keys.len(),
        first_index(keys, k, i) < keys.len() ==> keys[first_index(keys, k, i)] == k,
        forall|j: int| i <= j < first_index(keys, k, i) ==> keys[j] != k,
    decreases keys.len() - i,
{
    if i < keys.len() && keys[i] != k {
        lemma_first_index(keys, k, i + 1);
    }
}

proof fn lemma_group_upto(entries: Seq<EntryView>, n: int)
    requires
        0 <= n <= entries.len(),
    ensures
        group_upto(entries, n).keys.no_duplicates(),
        group_upto(entries, n).gids.len() == n,
        group_upto(entries, n).keys.len() <= n,
        forall|j: int|
            0 <= j < n ==> 0 <= #[trigger] group_upto(entries, n).gids[j] < group_upto(entries, n).keys.len()
                && group_upto(entries, n).keys[group_upto(entries, n).gids[j]] == levels_key(entries[j].levels),
    decreases n,
{
    if n > 0 {
        lemma_group_upto(entries, n - 1);
        let g = group_upto(entries, n - 1);
        let k = levels_key(entries[n - 1].levels);
        lemma_first_index(g.keys, k, 0);
        let g2 = group_upto(entries, n);
        assert forall|j: int| 0 <= j < n implies 0 <= #[trigger] g2.gids[j] < g2.keys.len()
            && g2.keys[g2.gids[j]] == levels_key(entries[j].levels) by {
            if j < n - 1 {
                assert(g2.gids[j] == g.gids[j]);
            }
        }
        if first_index(g.keys, k, 0) >= g.keys.len() {
            assert forall|a: int, b: int| 0 <= a < g2.keys.len() && 0 <= b < g2.keys.len() && a != b
                implies g2.keys[a] != g2.keys[b] by {
                if a < g.keys.len() && b < g.keys.len() {
                } else if a < g.keys.len() {
                    assert(g.keys[a] != k);
                } else {
                    assert(g.keys[b] != k);
                }
            }
        }
    }
}

/// `f` is the first position of `g` in `gids`.
pub open spec fn first_of(gids: Seq<int>, g: int, f: int) -> bool {
    forall|j: int| 0 <= j < f ==> gids[j] != g
}

proof fn lemma_members_empty(gids: Seq<int>, g: int, n: int)
    requires
        forall|j: int| 0 <= j < n ==> gids[j] != g,
    ensures
        members(gids, g, n).len() == 0,
    decreases n,
{
    if n > 0 {
        lemma_members_empty(gids, g, n - 1);
    }
}

proof fn lemma_members_first(gids: Seq<int>, g: int, n: int, f: int)
    requires
        0 <= f < n,
        gids[f] == g,
        first_of(gids, g, f),
    ensures
        members(gids, g, n).len() > 0,
        members(gids, g, n)[0] == f,
    decreases n,
{
    if n - 1 == f {
        lemma_members_empty(gids, g, f);
    } else {
        lemma_members_first(gids, g, n - 1, f);
    }
}

proof fn lemma_distinct_index(keys: Seq<Seq<(Seq<char>, Seq<char>)>>, k: Seq<(Seq<char>, Seq<char>)>, j: int)
    requires
        keys.no_duplicates(),
        0 <= j < keys.len(),
        keys[j] == k,
    ensures
        first_index(keys, k, 0) == j,
{
    lemma_first_index(keys, k, 0);
    let f = first_index(keys, k, 0);
    if f != j {
        assert(f < j);
        assert(keys[f] == k);
    }
}

/// The reports about the entries of group `g` whose page ranges stay unpaired (see
/// `unmatched`): each entry's range kind and how it is shown (see `raw_record`).
pub open spec fn group_reports(es: Seq<EntryView>, ist: IstInputStyle, strict: bool, g: int) -> Seq<
    (RangeKind, Seq<char>),
> {
    let ms = members(group_upto(es, es.len() as int).gids, g, es.len() as int);
    unmatched(ms.map_values(|m: int| entry_record(es[m])), strict).map_values(
        |u: usize| (es[ms[u as int]].range, crate::entry::raw_record(es[ms[u as int]], ist)),
    )
}

/// The reports of the first `g` groups, group by group.
pub open spec fn reports_upto(es: Seq<EntryView>, ist: IstInputStyle, strict: bool, g: int) -> Seq<
    (RangeKind, Seq<char>),
>
    decreases g,
{
    if g <= 0 {
        Seq::empty()
    } else {
        reports_upto(es, ist, strict, g - 1) + group_reports(es, ist, strict, g - 1)
    }
}

/// The reports of all the groups (see `group_reports`).
pub open spec fn merge_reports(es: Seq<EntryView>, ist: IstInputStyle, strict: bool) -> Seq<
    (RangeKind, Seq<char>),
> {
    reports_upto(es, ist, strict, group_upto(es, es.len() as int).keys.len() as int)
}

/// Reports as plain values.
pub open spec fn reports_view(r: Seq<(RangeKind, String)>) -> Seq<(RangeKind, Seq<char>)> {
    r.map_values(|x: (RangeKind, String)| (x.0, x.1@))
}

fn entry_to_record(e: &IndexEntry) -> (r: (Option<String>, RangeKind, String, Vec<IndexPage>))
    ensures
        record_view(r) == entry_record(e@),
{
    (copy_cmd(&e.page_commands), e.range, e.pages_raw.clone(), copy_pages(&e.pages))
}

/// Groups the entries by their levels (two entries belong together where their levels have,
/// level by level, the same sort key and display), in order of first appearance, and merges
/// the pages of each group; a group keeps the levels of its first entry.
pub fn merge_entries(
    from: Vec<IndexEntry>,
    style: (&IstInputStyle, &IstOutputStyle),
    comparator: PageComparator,
    auto_merge: bool,
    strict: bool,
) -> (r: (Vec<MergedEntry>, Vec<(RangeKind, String)>))
    ensures
        r.0@.map_values(|m: MergedEntry| m@) == merged_entries(
            from@.map_values(|e: IndexEntry| e@),
            comparator@,
            auto_merge,
            strict,
        ),
        reports_view(r.1@) == merge_reports(from@.map_values(|e: IndexEntry| e@), *style.0, strict),
{
    let ghost es = from@.map_values(|e: IndexEntry| e@);
    let mut map = new_group_map();
    let mut gids: Vec<usize> = Vec::new();
    let mut firsts: Vec<usize> = Vec::new();
    let mut i: usize = 0;
    while i < from.len()
        invariant
            es == from@.map_values(|e: IndexEntry| e@),
            i <= from@.len(),
            group_keys(map) == group_upto(es, i as int).keys,
            gids@.len() == i,
            forall|j: int| 0 <= j < i ==> #[trigger] gids@[j] as int == group_upto(es, i as int).gids[j],
            firsts@.len() == group_keys(map).len(),
            forall|g: int|
                0 <= g < firsts@.len() ==> #[trigger] firsts@[g] < i && gids@[firsts@[g] as int] == g
                    && first_of(group_upto(es, i as int).gids, g, firsts@[g] as int),
        decreases from@.len() - i,
    {
        proof {
            lemma_group_upto(es, i as int);
        }
        let ghost gr = group_upto(es, i as int);
        let ghost k = levels_key(es[i as int].levels);
        let key = level_identity(&from[i].levels);
        assert(es[i as int] == from@[i as int]@);
        let (g, old) = group_map_insert(&mut map, key);
        proof {
            lemma_first_index(gr.keys, k, 0);
            if gr.keys.contains(k) {
                lemma_distinct_index(gr.keys, k, g as int);
            } else {
                if first_index(gr.keys, k, 0) < gr.keys.len() {
                    assert(gr.keys.contains(k));
                }
            }
        }
        let ghost gr2 = group_upto(es, i + 1);
        if old.is_none() {
            firsts.push(i);
        }
        gids.push(g);
        i = i + 1;
        proof {
            assert forall|j: int| 0 <= j < i implies #[trigger] gids@[j] as int == gr2.gids[j] by {
                if j < i - 1 {
                    assert(gr2.gids[j] == gr.gids[j]);
                }
            }
            assert forall|h: int| 0 <= h < firsts@.len() implies #[trigger] firsts@[h] < i && gids@[firsts@[h] as int] == h
                && first_of(gr2.gids, h, firsts@[h] as int) by {
                assert forall|j: int| 0 <= j < firsts@[h] implies gr2.gids[j] != h by {
                    if j < i - 1 {
                        assert(gr2.gids[j] == gr.gids[j]);
                        if h < gr.keys.len() {
                        }
                    }
                }
            }
        }
    }
    let n = from.len();
    let ghost gr = group_upto(es, n as int);
    let mut builder = MergedPagesBuilder::new(comparator, auto_merge, strict, style);
    let mut out: Vec<MergedEntry> = Vec::new();
    let mut reports: Vec<(RangeKind, String)> = Vec::new();
    assert(reports_view(reports@) =~= reports_upto(es, *style.0, strict, 0));
    let mut g: usize = 0;
    while g < firsts.len()
        invariant
            es == from@.map_values(|e: IndexEntry| e@),
            n == from@.len(),
            gr == group_upto(es, n as int),
            firsts@.len() == gr.keys.len(),
            gids@.len() == n,
            forall|j: int| 0 <= j < n ==> #[trigger] gids@[j] as int == gr.gids[j],
            forall|h: int|
                0 <= h < firsts@.len() ==> #[trigger] firsts@[h] < n && gids@[firsts@[h] as int] == h
                    && first_of(gr.gids, h, firsts@[h] as int),
            builder.table() == comparator@,
            builder.merging() == auto_merge,
            builder.matching_strict() == strict,
            g <= firsts@.len(),
            reports_view(reports@) == reports_upto(es, *style.0, strict, g as int),
            out@.len() == g,
            forall|h: int| 0 <= h < g ==> #[trigger] out@[h]@ == merged_entries(es, comparator@, auto_merge, strict)[h],
        decreases firsts@.len() - g,
    {
        let mut recs: Vec<(Option<String>, RangeKind, String, Vec<IndexPage>)> = Vec::new();
        let mut idxs: Vec<usize> = Vec::new();
        let mut j: usize = 0;
        while j < n
            invariant
                es == from@.map_values(|e: IndexEntry| e@),
                n == from@.len(),
                gids@.len() == n,
                forall|m: int| 0 <= m < n ==> #[trigger] gids@[m] as int == gr.gids[m],
                j <= n,
                recs@.len() == members(gr.gids, g as int, j as int).len(),
                idxs@.len() == recs@.len(),
                forall|m: int|
                    0 <= m < recs@.len() ==> #[trigger] record_view(recs@[m]) == entry_record(
                        es[members(gr.gids, g as int, j as int)[m]],
                    ),
                forall|m: int|
                    0 <= m < idxs@.len() ==> #[trigger] idxs@[m] as int == members(gr.gids, g as int, j as int)[m]
                        && idxs@[m] < n,
            decreases n - j,
        {
            assert(gids@[j as int] as int == gr.gids[j as int]);
            if gids[j] == g {
                let rec = entry_to_record(&from[j]);
                assert(es[j as int] == from@[j as int]@);
                recs.push(rec);
                idxs.push(j);
            }
            j = j + 1;
        }
        let ghost ms = members(gr.gids, g as int, n as int);
        proof {
            lemma_members_first(gr.gids, g as int, n as int, firsts@[g as int] as int);
            assert(records_view(recs@) =~= ms.map_values(|m: int| entry_record(es[m])));
        }
        let unpaired = builder.unmatched_ranges(&recs);
        let ghost rv = ms.map_values(|m: int| entry_record(es[m]));
        let ghost target = group_reports(es, *style.0, strict, g as int);
        assert(target == unmatched(rv, strict).map_values(
            |u: usize| (es[ms[u as int]].range, crate::entry::raw_record(es[ms[u as int]], *style.0)),
        ));
        let ghost before = reports_view(reports@);
        let mut k: usize = 0;
        while k < unpaired.len()
            invariant
                es == from@.map_values(|e: IndexEntry| e@),
                n == from@.len(),
                unpaired@ == unmatched(rv, strict),
                forall|i: int| 0 <= i < unpaired@.len() ==> #[trigger] unpaired@[i] < idxs@.len(),
                idxs@.len() == ms.len(),
                forall|m: int| 0 <= m < idxs@.len() ==> #[trigger] idxs@[m] as int == ms[m] && idxs@[m] < n,
                k <= unpaired@.len(),
                target.len() == unpaired@.len(),
                forall|i: int| 0 <= i < target.len() ==> #[trigger] target[i] == (es[ms[unpaired@[i] as int]].range,
                    crate::entry::raw_record(es[ms[unpaired@[i] as int]], *style.0)),
                reports_view(reports@) == before + target.take(k as int),
            decreases unpaired@.len() - k,
        {
            let u = unpaired[k];
            let i = idxs[u];
            assert(es[i as int] == from@[i as int]@);
            let raw = crate::entry::record_raw(&from[i], style.0);
            let ghost prev = reports@;
            reports.push((from[i].range, raw));
            k = k + 1;
            proof {
                assert(reports_view(reports@) =~= reports_view(prev).push((from@[i as int].range, raw@)));
                assert(target.take(k as int) =~= target.take(k - 1).push(target[k - 1]));
            }
        }
        proof {
            assert(target.take(k as int) =~= target);
            assert(reports_upto(es, *style.0, strict, g + 1) == before + target);
        }
        let f = firsts[g];
        assert(es[f as int] == from@[f as int]@);
        let levels = copy_levels(&from[f].levels);
        let pages = builder.build_from_vec(recs);
        let m = MergedEntry { levels, pages };
        out.push(m);
        g = g + 1;
    }
    proof {
        let target = merged_entries(es, comparator@, auto_merge, strict);
        assert(out@.map_values(|m: MergedEntry| m@) =~= target);
    }
    (out, reports)
}

// ---------------------------------------------------------------------------
// Laws of the merged entries

/// Some entry among the first `n` belongs to the group `g`.
pub open spec fn has_member(gids: Seq<int>, g: int, n: int) -> bool {
    exists|f: int| 0 <= f < n && gids[f] == g
}

proof fn lemma_groups_have_members(entries: Seq<EntryView>, n: int)
    requires
        0 <= n <= entries.len(),
    ensures
        forall|g: int|
            0 <= g < group_upto(entries, n).keys.len() ==> #[trigger] has_member(
                group_upto(entries, n).gids,
                g,
                n,
            ),
    decreases n,
{
    if n > 0 {
        lemma_groups_have_members(entries, n - 1);
        lemma_group_upto(entries, n - 1);
        let g = group_upto(entries, n - 1);
        let g2 = group_upto(entries, n);
        let k = levels_key(entries[n - 1].levels);
        lemma_first_index(g.keys, k, 0);
        assert forall|h: int| 0 <= h < g2.keys.len() implies #[trigger] has_member(g2.gids, h, n) by {
            if h < g.keys.len() {
                assert(has_member(g.gids, h, n - 1));
                let f = choose|f: int| 0 <= f < n - 1 && g.gids[f] == h;
                assert(g2.gids[f] == g.gids[f]);
            } else {
                assert(g2.gids[n - 1] == h);
            }
        }
    }
}

proof fn lemma_members_props(gids: Seq<int>, g: int, n: int)
    requires
        0 <= n <= gids.len(),
    ensures
        forall|m: int|
            0 <= m < members(gids, g, n).len() ==> 0 <= #[trigger] members(gids, g, n)[m] < n && gids[members(
                gids,
                g,
                n,
            )[m]] == g,
        has_member(gids, g, n) ==> members(gids, g, n).len() > 0,
    decreases n,
{
    if n > 0 {
        lemma_members_props(gids, g, n - 1);
        let prev = members(gids, g, n - 1);
        let cur = members(gids, g, n);
        assert forall|m: int| 0 <= m < cur.len() implies 0 <= #[trigger] cur[m] < n && gids[cur[m]] == g by {
            if m < prev.len() {
                assert(cur[m] == prev[m]);
            }
        }
        if has_member(gids, g, n) && gids[n - 1] != g {
            let f = choose|f: int| 0 <= f < n && gids[f] == g;
            assert(has_member(gids, g, n - 1));
        }
    }
}

proof fn lemma_merged_levels(entries: Seq<EntryView>, t: Seq<u8>, auto: bool, strict: bool, i: int)
    requires
        0 <= i < merged_entries(entries, t, auto, strict).len(),
    ensures
        levels_key(merged_entries(entries, t, auto, strict)[i].levels) == group_upto(
            entries,
            entries.len() as int,
        ).keys[i],
{
    let n = entries.len() as int;
    let gr = group_upto(entries, n);
    lemma_group_upto(entries, n);
    lemma_groups_have_members(entries, n);
    assert(has_member(gr.gids, i, n));
    lemma_members_props(gr.gids, i, n);
    let ms = members(gr.gids, i, n);
    assert(0 <= ms[0] < n && gr.gids[ms[0]] == i);
}

/// No two merged entries have the same levels: their sort keys and displays differ at
/// some level, or they have different numbers of levels.
pub proof fn law_merged_entries_distinct(entries: Seq<EntryView>, t: Seq<u8>, auto: bool, strict: bool)
    ensures
        forall|i: int, j: int|
            0 <= i < j < merged_entries(entries, t, auto, strict).len() ==> levels_key(
                #[trigger] merged_entries(entries, t, auto, strict)[i].levels,
            ) != levels_key(#[trigger] merged_entries(entries, t, auto, strict)[j].levels),
{
    let m = merged_entries(entries, t, auto, strict);
    let gr = group_upto(entries, entries.len() as int);
    lemma_group_upto(entries, entries.len() as int);
    assert forall|i: int, j: int| 0 <= i < j < m.len() implies levels_key(#[trigger] m[i].levels) != levels_key(
        #[trigger] m[j].levels,
    ) by {
        lemma_merged_levels(entries, t, auto, strict, i);
        lemma_merged_levels(entries, t, auto, strict, j);
        assert(gr.keys[i] != gr.keys[j]);
    }
}

/// Every entry has a merged entry with the same levels, and there are no more merged entries
/// than entries.
pub proof fn law_merged_entries_cover(entries: Seq<EntryView>, t: Seq<u8>, auto: bool, strict: bool)
    ensures
        merged_entries(entries, t, auto, strict).len() <= entries.len(),
        forall|j: int|
            0 <= j < entries.len() ==> exists|i: int|
                0 <= i < merged_entries(entries, t, auto, strict).len() && levels_key(
                    merged_entries(entries, t, auto, strict)[i].levels,
                ) == levels_key(#[trigger] entries[j].levels),
{
    let m = merged_entries(entries, t, auto, strict);
    let gr = group_upto(entries, entries.len() as int);
    lemma_group_upto(entries, entries.len() as int);
    assert forall|j: int| 0 <= j < entries.len() implies exists|i: int|
        0 <= i < m.len() && levels_key(m[i].levels) == levels_key(#[trigger] entries[j].levels) by {
        let i = gr.gids[j];
        lemma_merged_levels(entries, t, auto, strict, i);
    }
}

/// Two entries go into the same merged entry exactly when they have the same levels, which is
/// what `IndexEntry::is_same` tests.
pub proof fn law_grouped_iff_same(entries: Seq<EntryView>, a: int, b: int)
    requires
        0 <= a < entries.len(),
        0 <= b < entries.len(),
    ensures
        (group_upto(entries, entries.len() as int).gids[a] == group_upto(entries, entries.len() as int).gids[b])
            <==> (levels_key(entries[a].levels) == levels_key(entries[b].levels)),
{
    let gr = group_upto(entries, entries.len() as int);
    lemma_group_upto(entries, entries.len() as int);
    assert(gr.keys[gr.gids[a]] == levels_key(entries[a].levels));
    assert(gr.keys[gr.gids[b]] == levels_key(entries[b].levels));
}

// ---------------------------------------------------------------------------
// Measures of merged entries

/// The sort key of a level: its key, or its display where it has none.
pub open spec fn effective_key(l: (Option<Seq<char>>, Seq<char>)) -> Seq<char> {
    match l.0 {
        Some(k) => k,
        None => l.1,
    }
}

/// The number of leading levels, from position `i` on, that `a` and `b` share by sort key.
pub open spec fn shared_keys(
    a: Seq<(Option<Seq<char>>, Seq<char>)>,
    b: Seq<(Option<Seq<char>>, Seq<char>)>,
    i: int,
) -> int
    decreases a.len() - i,
{
    if 0 <= i && i < a.len() && i < b.len() && effective_key(a[i]) == effective_key(b[i]) {
        1 + shared_keys(a, b, i + 1)
    } else {
        0
    }
}

fn key_of(l: &(Option<String>, String)) -> (r: &String)
    ensures
        r@ == effective_key(level_view(*l)),
{
    match &l.0 {
        Some(k) => k,
        None => &l.1,
    }
}

/// How many leading levels `entry1` shares with `entry2` by sort key (the display of a
/// level without a key).
pub fn merged_max_same_key(entry1: &MergedEntry, entry2: &MergedEntry) -> (n: usize)
    ensures
        n == shared_keys(entry1@.levels, entry2@.levels, 0),
{
    let ghost a = entry1@.levels;
    let ghost b = entry2@.levels;
    let mut i: usize = 0;
    loop
        invariant
            a == entry1@.levels,
            b == entry2@.levels,
            a.len() == entry1.levels@.len(),
            b.len() == entry2.levels@.len(),
            i <= a.len(),
            shared_keys(a, b, 0) == i + shared_keys(a, b, i as int),
        ensures
            shared_keys(a, b, 0) == i,
        decreases a.len() - i,
    {
        if i >= entry1.levels.len() || i >= entry2.levels.len() {
            break;
        }
        assert(a[i as int] == level_view(entry1.levels@[i as int]));
        assert(b[i as int] == level_view(entry2.levels@[i as int]));
        if *key_of(&entry1.levels[i]) != *key_of(&entry2.levels[i]) {
            break;
        }
        i = i + 1;
    }
    i
}

/// How many pages a merged page covers: one for a single page, the difference of the last
/// components plus one for a range, and none where a page is empty.
pub open spec fn spec_span(m: MergedPageView) -> u64 {
    match m {
        MergedPageView::Single { page, .. } => if page.0.len() == 0 {
            0
        } else {
            1
        },
        MergedPageView::Range { start, end, .. } => if start.0.len() == 0 || end.0.len() == 0 {
            0
        } else {
            (1 + end.0.last().value - start.0.last().value) as u64
        },
    }
}

/// A range with pages does not end more than one page before it starts, and its end is
/// below the largest value.
pub open spec fn span_fits(m: MergedPageView) -> bool {
    match m {
        MergedPageView::Single { .. } => true,
        MergedPageView::Range { start, end, .. } => start.0.len() > 0 && end.0.len() > 0 ==> end.0.last().value
            < u64::MAX && start.0.last().value <= end.0.last().value + 1,
    }
}

/// How many pages `m` covers (see `spec_span`).
fn page_span(m: &MergedPage) -> (n: u64)
    requires
        span_fits(m@),
    ensures
        n == spec_span(m@),
{
    match m {
        MergedPage::Single { page, .. } => if page.0.len() == 0 {
            0
        } else {
            1
        },
        MergedPage::Range { start, end, .. } => {
            if start.0.len() == 0 || end.0.len() == 0 {
                0
            } else {
                1 + end.0[end.0.len() - 1].value - start.0[start.0.len() - 1].value
            }
        },
    }
}

/// How many pages page `n` of `entry` covers (see `spec_span`), 0 where the entry has
/// fewer pages. A range must not end more than one page before it starts.
pub fn merged_page_span_n(entry: &MergedEntry, n: usize) -> (r: usize)
    requires
        n < entry@.pages.len() ==> span_fits(entry@.pages[n as int]),
        n < entry@.pages.len() ==> spec_span(entry@.pages[n as int]) <= usize::MAX,
    ensures
        n < entry@.pages.len() ==> r == spec_span(entry@.pages[n as int]),
        n >= entry@.pages.len() ==> r == 0,
{
    let pages = entry.pages.as_slice();
    if n >= pages.len() {
        return 0;
    }
    assert(pages@.map_values(|m: MergedPage| m@)[n as int] == pages@[n as int]@);
    page_span(&pages[n]) as usize
}

/// The number of levels of `entry`.
pub fn merged_levels_count(entry: &MergedEntry) -> (n: usize)
    ensures
        n == entry@.levels.len(),
{
    entry.levels.len()
}

/// The sort key of level `n` of `entry` (its display where it has none), if the entry
/// has that many levels.
pub fn merged_key_n(entry: &MergedEntry, n: usize) -> (r: Option<&str>)
    ensures
        n < entry@.levels.len() ==> (r matches Some(k) && k@ == effective_key(entry@.levels[n as int])),
        n >= entry@.levels.len() ==> r is None,
{
    if n >= entry.levels.len() {
        return None;
    }
    assert(entry@.levels[n as int] == level_view(entry.levels@[n as int]));
    Some(key_of(&entry.levels[n]).as_str())
}

/// The display of level `n` of `entry`, if the entry has that many levels.
pub fn merged_level_n(entry: &MergedEntry, n: usize) -> (r: Option<&str>)
    ensures
        n < entry@.levels.len() ==> (r matches Some(d) && d@ == entry@.levels[n as int].1),
        n >= entry@.levels.len() ==> r is None,
{
    if n >= entry.levels.len() {
        return None;
    }
    assert(entry@.levels[n as int] == level_view(entry.levels@[n as int]));
    Some(entry.levels[n].1.as_str())
}

/// The number of merged pages and ranges of `entry`.
pub fn merged_pages_count(entry: &MergedEntry) -> (n: usize)
    ensures
        n == entry@.pages.len(),
{
    entry.pages.len()
}

/// The page command of a merged page.
pub open spec fn page_command_of(m: MergedPageView) -> Option<Seq<char>> {
    match m {
        MergedPageView::Single { page_command, .. } => page_command,
        MergedPageView::Range { page_command, .. } => page_command,
    }
}

/// The page command of page `n` of `entry` (`Some(None)` where it has none), or `None`
/// where the entry has fewer pages.
pub fn merged_page_command_n(entry: &MergedEntry, n: usize) -> (r: Option<Option<&str>>)
    ensures
        n < entry@.pages.len() ==> (r matches Some(c) && opt_str_view(c) == page_command_of(
            entry@.pages[n as int],
        )),
        n >= entry@.pages.len() ==> r is None,
{
    let pages = entry.pages.as_slice();
    if n >= pages.len() {
        return None;
    }
    assert(pages@.map_values(|m: MergedPage| m@)[n as int] == pages@[n as int]@);
    Some(pages[n].page_command())
}

/// The written form of page `n` of `entry`: that of the page, or of the start and the
/// end of the range; `None` where the entry has fewer pages.
pub fn merged_pages_raw_n(entry: &MergedEntry, n: usize) -> (r: Option<(&str, Option<&str>)>)
    ensures
        n >= entry@.pages.len() ==> r is None,
        n < entry@.pages.len() ==> (r matches Some((a, b)) && match entry@.pages[n as int] {
            MergedPageView::Single { page, .. } => a@ == page.1 && b is None,
            MergedPageView::Range { start, end, .. } => a@ == start.1 && (b matches Some(e)
                && e@ == end.1),
        }),
{
    let pages = entry.pages.as_slice();
    if n >= pages.len() {
        return None;
    }
    assert(pages@.map_values(|m: MergedPage| m@)[n as int] == pages@[n as int]@);
    match &pages[n] {
        MergedPage::Single { page, .. } => Some((page.1.as_str(), None)),
        MergedPage::Range { start, end, .. } => Some((start.1.as_str(), Some(end.1.as_str()))),
    }
}

// ---------------------------------------------------------------------------
// Runs of consecutive pages

/// The records are plain pages with the command `cmd`, the `i`th on the arabic page
/// `base + i`.
pub open spec fn consecutive_pages(recs: Seq<RecordView>, cmd: Option<Seq<char>>, base: int) -> bool {
    forall|i: int|
        #![trigger recs[i]]
        0 <= i < recs.len() ==> recs[i].cmd == cmd && recs[i].kind == RangeKind::Plain && recs[i].pages
            == seq![IndexPage { kind: IndexPageKind::Arabic, value: (base + i) as u64 }]
}

proof fn lemma_pair_plain(recs: Seq<RecordView>, strict: bool, cmd: Option<Seq<char>>, base: int, n: int)
    requires
        consecutive_pages(recs, cmd, base),
        0 <= n <= recs.len(),
        recs.len() <= usize::MAX,
    ensures
        pair_upto(recs, strict, n).stack.len() == 0,
        pair_upto(recs, strict, n).items == Seq::new(n as nat, |i: int| single(i as usize)),
    decreases n,
{
    if n > 0 {
        lemma_pair_plain(recs, strict, cmd, base, n - 1);
        assert(recs[n - 1].kind == RangeKind::Plain);
        assert(pair_upto(recs, strict, n).items =~= Seq::new(n as nat, |i: int| single(i as usize)));
    }
}

proof fn lemma_sort_sorted(s: Seq<Span>, before: spec_fn(Span, Span) -> bool)
    requires
        sorted_by(s, before),
    ensures
        sort_spans(s, before) == s,
    decreases s.len(),
{
    if s.len() > 0 {
        let init = s.drop_last();
        assert(sorted_by(init, before));
        lemma_sort_sorted(init, before);
        lemma_insert_pos_props(init, s.last(), before, 0);
        let k = insert_pos(init, s.last(), before, 0);
        if k < init.len() {
            assert(before(s.last(), init[k]));
            assert(!before(s[s.len() - 1], s[k]));
        }
        assert(init.insert(init.len() as int, s.last()) =~= s);
    }
}

proof fn lemma_arabic_order(t: Seq<u8>, a: u64, b: u64)
    ensures
        page_order(
            t,
            seq![IndexPage { kind: IndexPageKind::Arabic, value: a }],
            seq![IndexPage { kind: IndexPageKind::Arabic, value: b }],
        ) == if a < b {
            PageOrder::LessSame
        } else if a == b {
            PageOrder::Equal
        } else {
            PageOrder::GreaterSame
        },
{
}

proof fn lemma_run_end_all(recs: Seq<RecordView>, t: Seq<u8>, red: Seq<Span>, cmd: Option<Seq<char>>, base: int, j: int)
    requires
        consecutive_pages(recs, cmd, base),
        0 <= base,
        base + recs.len() <= u64::MAX,
        red == Seq::new(recs.len(), |i: int| single(i as usize)),
        recs.len() <= usize::MAX,
        1 <= j <= red.len(),
    ensures
        run_end(recs, t, red, j) == red.len(),
    decreases red.len() - j,
{
    if j < red.len() {
        assert(red[j] == single(j as usize));
        assert(red[j - 1] == single((j - 1) as usize));
        assert(recs[j - 1].pages == seq![IndexPage { kind: IndexPageKind::Arabic, value: (base + j - 1) as u64 }]);
        assert(recs[j].pages == seq![IndexPage { kind: IndexPageKind::Arabic, value: (base + j) as u64 }]);
        lemma_arabic_order(t, (base + j - 1) as u64, (base + j) as u64);
        lemma_run_end_all(recs, t, red, cmd, base, j + 1);
    }
}

proof fn lemma_reduce_run(
    recs: Seq<RecordView>,
    t: Seq<u8>,
    items: Seq<Span>,
    cmd: Option<Seq<char>>,
    base: int,
    auto: bool,
    k: int,
)
    requires
        consecutive_pages(recs, cmd, base),
        0 <= base,
        base + recs.len() <= u64::MAX,
        recs.len() >= 1,
        recs.len() <= usize::MAX,
        items == Seq::new(recs.len(), |i: int| single(i as usize)),
        0 <= k < items.len(),
    ensures
        reduce_from(recs, t, auto, items, k, items.take(k), Seq::empty()) == collapse_runs(
            recs,
            t,
            auto,
            items,
            0,
        ),
    decreases items.len() - k,
{
    let red = items.take(k).push(items[k]);
    assert(red =~= items.take(k + 1));
    if k >= 1 {
        let prev = red[red.len() - 2];
        let last = red[red.len() - 1];
        assert(prev == single((k - 1) as usize));
        assert(last == single(k as usize));
        assert(recs[k - 1].pages == seq![IndexPage { kind: IndexPageKind::Arabic, value: (base + k - 1) as u64 }]);
        assert(recs[k].pages == seq![IndexPage { kind: IndexPageKind::Arabic, value: (base + k) as u64 }]);
        lemma_arabic_order(t, (base + k - 1) as u64, (base + k) as u64);
        assert(!should_merge(recs, t, auto, prev, last));
    }
    assert(collapse(recs, t, auto, red) == red);
    let red1 = collapse(recs, t, auto, items.take(k).push(items[k]));
    assert(red1 == items.take(k + 1));
    if k + 1 < items.len() {
        assert(items[k + 1] == single((k + 1) as usize));
        assert(recs[k + 1].cmd == cmd);
        assert(red1[0] == single(0usize));
        assert(recs[0].cmd == cmd);
        assert(reduce_from(recs, t, auto, items, k, items.take(k), Seq::empty()) == reduce_from(
            recs,
            t,
            auto,
            items,
            k + 1,
            red1,
            Seq::empty(),
        ));
        lemma_reduce_run(recs, t, items, cmd, base, auto, k + 1);
    } else {
        assert(items.take(k + 1) =~= items);
        assert(red1 == items);
        assert(reduce_from(recs, t, auto, items, k, items.take(k), Seq::empty()) == reduce_from(
            recs,
            t,
            auto,
            items,
            k + 1,
            Seq::empty(),
            Seq::<Span>::empty() + collapse_runs(recs, t, auto, red1, 0),
        ));
        assert(Seq::<Span>::empty() + collapse_runs(recs, t, auto, items, 0) =~= collapse_runs(
            recs,
            t,
            auto,
            items,
            0,
        ));
    }
}

/// With merging on, a run of three or more consecutive arabic pages with one command, and
/// nothing else, becomes one range from its first page to its last.
pub proof fn law_consecutive_pages_make_a_range(
    recs: Seq<RecordView>,
    t: Seq<u8>,
    strict: bool,
    cmd: Option<Seq<char>>,
    base: int,
)
    requires
        consecutive_pages(recs, cmd, base),
        recs.len() >= 3,
        0 <= base,
        base + recs.len() <= u64::MAX,
        recs.len() <= usize::MAX,
    ensures
        merged_pages(recs, t, true, strict) == seq![
            MergedPageView::Range {
                page_command: cmd,
                start: page_tuple(recs[0]),
                end: page_tuple(recs[recs.len() - 1]),
            },
        ],
{
    let n = recs.len() as int;
    let items = Seq::new(recs.len(), |i: int| single(i as usize));
    lemma_pair_plain(recs, strict, cmd, base, n);
    assert(pair_upto(recs, strict, n).stack.map_values(|o: usize| single(o)) =~= Seq::<Span>::empty());
    assert(paired(recs, strict) =~= items);
    let grel = order_rel(recs, t, true);
    assert(sorted_by(items, grel)) by {
        assert forall|i: int, j: int| 0 <= i < j < items.len() implies !grel(items[j], items[i]) by {
            assert(items[i] == single(i as usize));
            assert(items[j] == single(j as usize));
            assert(recs[i].cmd == cmd && recs[j].cmd == cmd);
            lemma_cmd_order_equal(cmd);
            assert(recs[i].pages == seq![IndexPage { kind: IndexPageKind::Arabic, value: (base + i) as u64 }]);
            assert(recs[j].pages == seq![IndexPage { kind: IndexPageKind::Arabic, value: (base + j) as u64 }]);
            lemma_arabic_order(t, (base + j) as u64, (base + i) as u64);
        }
    }
    lemma_sort_sorted(items, grel);
    assert(items.take(0) =~= Seq::<Span>::empty());
    lemma_reduce_run(recs, t, items, cmd, base, true, 0);
    lemma_run_end_all(recs, t, items, cmd, base, 1);
    let range = Span { start: 0usize, end: (n - 1) as usize, is_range: true };
    let r1 = items.take(0).push(range) + items.skip(n);
    assert(r1 =~= seq![range]);
    assert(collapse_runs(recs, t, true, items, 0) == collapse_runs(recs, t, true, r1, 1));
    assert(collapse_runs(recs, t, true, r1, 1) == r1);
    let reduced = seq![range];
    assert(sorted_by(reduced, order_rel(recs, t, false)));
    lemma_sort_sorted(reduced, order_rel(recs, t, false));
    assert(final_spans(recs, t, true, strict) == reduced);
    assert(merged_pages(recs, t, true, strict) =~= seq![span_page(recs, range)]);
}

proof fn lemma_lex_equal(a: Seq<char>, i: int)
    requires
        0 <= i,
    ensures
        lex_order(a, a, i) == 0,
    decreases a.len() - i,
{
    if i < a.len() {
        lemma_lex_equal(a, i + 1);
    }
}

proof fn lemma_cmd_order_equal(c: Option<Seq<char>>)
    ensures
        cmd_order(c, c) == 0,
{
    if let Some(x) = c {
        lemma_lex_equal(x, 0);
    }
}

proof fn lemma_runs_off(recs: Seq<RecordView>, t: Seq<u8>, red: Seq<Span>, i: int)
    requires
        0 <= i,
    ensures
        collapse_runs(recs, t, false, red, i) == red,
    decreases red.len() - i,
{
    if i < red.len() {
        if red[i].is_range {
            lemma_runs_off(recs, t, red, i + 1);
        } else {
            lemma_run_end_range(recs, t, red, i + 1);
            lemma_runs_off(recs, t, red, run_end(recs, t, red, i + 1));
        }
    }
}

/// With merging off, consecutive arabic pages with one command stay single pages, in order.
pub proof fn law_no_implicit_ranges(recs: Seq<RecordView>, t: Seq<u8>, strict: bool, cmd: Option<Seq<char>>, base: int)
    requires
        consecutive_pages(recs, cmd, base),
        recs.len() >= 1,
        0 <= base,
        base + recs.len() <= u64::MAX,
        recs.len() <= usize::MAX,
    ensures
        merged_pages(recs, t, false, strict) == Seq::new(
            recs.len(),
            |i: int| MergedPageView::Single { page_command: cmd, page: page_tuple(recs[i]) },
        ),
{
    let n = recs.len() as int;
    let items = Seq::new(recs.len(), |i: int| single(i as usize));
    lemma_pair_plain(recs, strict, cmd, base, n);
    assert(pair_upto(recs, strict, n).stack.map_values(|o: usize| single(o)) =~= Seq::<Span>::empty());
    assert(paired(recs, strict) =~= items);
    let grel = order_rel(recs, t, true);
    let prel = order_rel(recs, t, false);
    assert(sorted_by(items, grel) && sorted_by(items, prel)) by {
        assert forall|i: int, j: int| 0 <= i < j < items.len() implies !grel(items[j], items[i]) && !prel(
            items[j],
            items[i],
        ) by {
            assert(items[i] == single(i as usize));
            assert(items[j] == single(j as usize));
            assert(recs[i].cmd == cmd && recs[j].cmd == cmd);
            lemma_cmd_order_equal(cmd);
            assert(recs[i].pages == seq![IndexPage { kind: IndexPageKind::Arabic, value: (base + i) as u64 }]);
            assert(recs[j].pages == seq![IndexPage { kind: IndexPageKind::Arabic, value: (base + j) as u64 }]);
            lemma_arabic_order(t, (base + j) as u64, (base + i) as u64);
        }
    }
    lemma_sort_sorted(items, grel);
    assert(items.take(0) =~= Seq::<Span>::empty());
    lemma_reduce_run(recs, t, items, cmd, base, false, 0);
    lemma_runs_off(recs, t, items, 0);
    lemma_sort_sorted(items, prel);
    assert(final_spans(recs, t, false, strict) == items);
    assert forall|i: int| 0 <= i < n implies #[trigger] merged_pages(recs, t, false, strict)[i]
        == MergedPageView::Single { page_command: cmd, page: page_tuple(recs[i]) } by {
        assert(items[i] == single(i as usize));
        assert(recs[i].cmd == cmd);
    }
    assert(merged_pages(recs, t, false, strict) =~= Seq::new(
        recs.len(),
        |i: int| MergedPageView::Single { page_command: cmd, page: page_tuple(recs[i]) },
    ));
}

proof fn lemma_last_with_cmd_matches(recs: Seq<RecordView>, stack: Seq<usize>, cmd: Option<Seq<char>>, n: int)
    ensures
        last_with_cmd(recs, stack, cmd, n) matches Some(i) ==> recs[stack[i] as int].cmd == cmd,
    decreases n,
{
    if n > 0 {
        lemma_last_with_cmd_matches(recs, stack, cmd, n - 1);
    }
}

proof fn lemma_strict_pairs(recs: Seq<RecordView>, n: int)
    requires
        0 <= n <= recs.len(),
        recs.len() <= usize::MAX,
    ensures
        forall|i: int|
            0 <= i < pair_upto(recs, true, n).items.len() && (#[trigger] pair_upto(recs, true, n).items[i]).is_range
                ==> recs[pair_upto(recs, true, n).items[i].start as int].cmd == recs[pair_upto(
                recs,
                true,
                n,
            ).items[i].end as int].cmd,
    decreases n,
{
    if n > 0 {
        lemma_strict_pairs(recs, n - 1);
        let st = pair_upto(recs, true, n - 1);
        lemma_last_with_cmd_matches(recs, st.stack, recs[n - 1].cmd, st.stack.len() as int);
        let st2 = pair_upto(recs, true, n);
        assert forall|i: int| 0 <= i < st2.items.len() && (#[trigger] st2.items[i]).is_range implies recs[st2.items[i].start as int].cmd
            == recs[st2.items[i].end as int].cmd by {
            assert(st2 == pair_step(recs, true, st, n - 1));
            if i < st.items.len() {
                assert(st2.items[i] == st.items[i]);
            } else {
                match recs[n - 1].kind {
                    RangeKind::Close => {
                        match close_match(recs, true, st.stack, recs[n - 1].cmd) {
                            Some(j) => {
                                assert(last_with_cmd(recs, st.stack, recs[n - 1].cmd, st.stack.len() as int)
                                    == Some(j));
                                assert(st2.items[i] == Span {
                                    start: st.stack[j],
                                    end: (n - 1) as usize,
                                    is_range: true,
                                });
                            },
                            None => {},
                        }
                    },
                    _ => {},
                }
            }
        }
    }
}

/// In strict matching, a closing record only closes an open record with the same page
/// command: every range that matching makes starts and ends with the same command.
pub proof fn law_strict_ranges_keep_their_command(recs: Seq<RecordView>)
    requires
        recs.len() <= usize::MAX,
    ensures
        forall|i: int|
            0 <= i < paired(recs, true).len() && (#[trigger] paired(recs, true)[i]).is_range ==> recs[paired(
                recs,
                true,
            )[i].start as int].cmd == recs[paired(recs, true)[i].end as int].cmd,
{
    let st = pair_upto(recs, true, recs.len() as int);
    lemma_strict_pairs(recs, recs.len() as int);
    let p = paired(recs, true);
    assert forall|i: int| 0 <= i < p.len() && (#[trigger] p[i]).is_range implies recs[p[i].start as int].cmd
        == recs[p[i].end as int].cmd by {
        if i < st.items.len() {
            assert(p[i] == st.items[i]);
        } else {
            assert(p[i] == single(st.stack[i - st.items.len()]));
        }
    }
}

/// Without strict matching, a closing record closes an open record whenever one is
/// waiting, whatever their page commands: it makes a range that ends at it.
pub proof fn law_loose_close_always_matches(recs: Seq<RecordView>, k: int)
    requires
        0 <= k < recs.len(),
        recs.len() <= usize::MAX,
        recs[k].kind == RangeKind::Close,
        pair_upto(recs, false, k).stack.len() > 0,
    ensures
        pair_upto(recs, false, k + 1).items.last().is_range,
        pair_upto(recs, false, k + 1).items.last().end == k,
{
    let st = pair_upto(recs, false, k);
    assert(close_match(recs, false, st.stack, recs[k].cmd) is Some);
}

// ---------------------------------------------------------------------------
// No plain page is lost

proof fn lemma_lex_flip(a: Seq<char>, b: Seq<char>, i: int)
    requires
        0 <= i,
    ensures
        lex_order(b, a, i) == -lex_order(a, b, i),
    decreases a.len() + b.len() - 2 * i,
{
    if i < a.len() && i < b.len() && (a[i] as u32) == (b[i] as u32) {
        lemma_lex_flip(a, b, i + 1);
    }
}

proof fn lemma_lex_transitive(a: Seq<char>, b: Seq<char>, c: Seq<char>, i: int)
    requires
        0 <= i,
        lex_order(a, b, i) <= 0,
        lex_order(b, c, i) <= 0,
    ensures
        lex_order(a, c, i) <= 0,
        lex_order(a, b, i) < 0 ==> lex_order(a, c, i) < 0,
        lex_order(b, c, i) < 0 ==> lex_order(a, c, i) < 0,
    decreases a.len() - i,
{
    if i < a.len() && i < b.len() && i < c.len() && (a[i] as u32) == (b[i] as u32) && (b[i] as u32) == (c[i] as u32) {
        lemma_lex_transitive(a, b, c, i + 1);
    }
}

proof fn lemma_cmd_order_laws(a: Option<Seq<char>>, b: Option<Seq<char>>, c: Option<Seq<char>>)
    ensures
        cmd_order(b, a) == -cmd_order(a, b),
        cmd_order(a, b) <= 0 && cmd_order(b, c) <= 0 ==> cmd_order(a, c) <= 0,
        cmd_order(a, b) <= 0 && cmd_order(b, c) < 0 ==> cmd_order(a, c) < 0,
        cmd_order(a, b) < 0 && cmd_order(b, c) <= 0 ==> cmd_order(a, c) < 0,
{
    if let (Some(x), Some(y)) = (a, b) {
        lemma_lex_flip(x, y, 0);
    }
    if let (Some(x), Some(y), Some(z)) = (a, b, c) {
        if lex_order(x, y, 0) <= 0 && lex_order(y, z, 0) <= 0 {
            lemma_lex_transitive(x, y, z, 0);
        }
    }
}

proof fn lemma_group_before_strict(recs: Seq<RecordView>, t: Seq<u8>)
    ensures
        strict_order(order_rel(recs, t, true)),
{
    let rel = order_rel(recs, t, true);
    let prel = order_rel(recs, t, false);
    lemma_page_before_strict(recs, t);
    assert forall|a: Span, b: Span| #[trigger] rel(a, b) implies !rel(b, a) by {
        let ca = recs[a.start as int].cmd;
        let cb = recs[b.start as int].cmd;
        lemma_cmd_order_laws(ca, cb, ca);
        if cmd_order(ca, cb) == 0 {
            assert(prel(a, b));
        }
    }
    assert forall|a: Span, b: Span, c: Span| #[trigger] rel(a, b) && #[trigger] rel(b, c) implies rel(a, c) by {
        let ca = recs[a.start as int].cmd;
        let cb = recs[b.start as int].cmd;
        let cc = recs[c.start as int].cmd;
        lemma_cmd_order_laws(ca, cb, cc);
        lemma_cmd_order_laws(cc, cb, ca);
        if cmd_order(ca, cb) == 0 && cmd_order(cb, cc) == 0 {
            assert(prel(a, b) && prel(b, c));
        }
    }
}

/// Every single page of `s` starts and ends on the same record.
pub open spec fn singles_ok(s: Seq<Span>) -> bool {
    forall|i: int| 0 <= i < s.len() && !(#[trigger] s[i]).is_range ==> s[i].start == s[i].end
}

proof fn lemma_pair_keeps_plain(recs: Seq<RecordView>, strict: bool, n: int)
    requires
        0 <= n <= recs.len(),
        recs.len() <= usize::MAX,
    ensures
        singles_ok(pair_upto(recs, strict, n).items),
        forall|k: int|
            0 <= k < n && recs[k].kind == RangeKind::Plain ==> pair_upto(recs, strict, n).items.contains(
                #[trigger] single(k as usize),
            ),
    decreases n,
{
    if n > 0 {
        lemma_pair_keeps_plain(recs, strict, n - 1);
        let prev = pair_upto(recs, strict, n - 1).items;
        let cur = pair_upto(recs, strict, n).items;
        assert(cur.len() >= prev.len());
        assert forall|i: int| 0 <= i < prev.len() implies cur[i] == prev[i] by {}
        assert forall|k: int| 0 <= k < n && recs[k].kind == RangeKind::Plain implies cur.contains(
            #[trigger] single(k as usize),
        ) by {
            if k < n - 1 {
                let w = choose|w: int| 0 <= w < prev.len() && prev[w] == single(k as usize);
                assert(cur[w] == single(k as usize));
            } else {
                assert(cur[cur.len() - 1] == single(k as usize));
            }
        }
    }
}

proof fn lemma_paired_keeps_plain(recs: Seq<RecordView>, strict: bool, k: int)
    requires
        0 <= k < recs.len(),
        recs.len() <= usize::MAX,
        recs[k].kind == RangeKind::Plain,
    ensures
        singles_ok(paired(recs, strict)),
        paired(recs, strict).contains(single(k as usize)),
{
    let st = pair_upto(recs, strict, recs.len() as int);
    lemma_pair_keeps_plain(recs, strict, recs.len() as int);
    let p = paired(recs, strict);
    assert forall|i: int| 0 <= i < p.len() && !(#[trigger] p[i]).is_range implies p[i].start == p[i].end by {
        if i < st.items.len() {
            assert(p[i] == st.items[i]);
        }
    }
    let w = choose|w: int| 0 <= w < st.items.len() && st.items[w] == single(k as usize);
    assert(p[w] == single(k as usize));
}

proof fn lemma_sort_members(s: Seq<Span>, before: spec_fn(Span, Span) -> bool)
    ensures
        sort_spans(s, before).len() == s.len(),
        forall|x: Span| #[trigger] sort_spans(s, before).contains(x) <==> s.contains(x),
    decreases s.len(),
{
    if s.len() > 0 {
        let init = s.drop_last();
        lemma_sort_members(init, before);
        let sorted = sort_spans(init, before);
        lemma_insert_pos_props(sorted, s.last(), before, 0);
        let p = insert_pos(sorted, s.last(), before, 0);
        let r = sorted.insert(p, s.last());
        assert forall|x: Span| #[trigger] r.contains(x) <==> s.contains(x) by {
            if r.contains(x) {
                let w = choose|w: int| 0 <= w < r.len() && r[w] == x;
                if w < p {
                    assert(sorted[w] == x);
                    assert(sorted.contains(x));
                    assert(init.contains(x));
                    let v = choose|v: int| 0 <= v < init.len() && init[v] == x;
                    assert(s[v] == x);
                } else if w == p {
                    assert(s[s.len() - 1] == x);
                } else {
                    assert(sorted[w - 1] == x);
                    assert(sorted.contains(x));
                    assert(init.contains(x));
                    let v = choose|v: int| 0 <= v < init.len() && init[v] == x;
                    assert(s[v] == x);
                }
            }
            if s.contains(x) {
                let w = choose|w: int| 0 <= w < s.len() && s[w] == x;
                if w == s.len() - 1 {
                    assert(r[p] == x);
                } else {
                    assert(init[w] == x);
                    assert(sorted.contains(x));
                    let v = choose|v: int| 0 <= v < sorted.len() && sorted[v] == x;
                    if v < p {
                        assert(r[v] == x);
                    } else {
                        assert(r[v + 1] == x);
                    }
                }
            }
        }
    }
}

/// The span `s` holds the page of record `q`: it has the page command of `q`, and the page
/// of `q` lies between its first and its last page.
pub open spec fn span_holds(recs: Seq<RecordView>, t: Seq<u8>, s: Span, q: int) -> bool {
    &&& recs[s.start as int].cmd == recs[q].cmd
    &&& is_le(page_order(t, start_pages(recs, s), recs[q].pages))
    &&& is_le(page_order(t, recs[q].pages, end_pages(recs, s)))
}

/// Some span of `s` holds the page of record `q`.
pub open spec fn held_in(recs: Seq<RecordView>, t: Seq<u8>, s: Seq<Span>, q: int) -> bool {
    exists|i: int| 0 <= i < s.len() && #[trigger] span_holds(recs, t, s[i], q)
}

/// Every page that a span of `a` holds, a span of `b` holds too.
pub open spec fn all_held(recs: Seq<RecordView>, t: Seq<u8>, a: Seq<Span>, b: Seq<Span>) -> bool {
    forall|i: int, q: int| 0 <= i < a.len() && #[trigger] span_holds(recs, t, a[i], q) ==> held_in(recs, t, b, q)
}

/// The items of one page command being reduced: single pages well formed, all with the
/// command `c`, and their first pages in order.
pub open spec fn red_ok(recs: Seq<RecordView>, t: Seq<u8>, red: Seq<Span>, c: Option<Seq<char>>) -> bool {
    &&& singles_ok(red)
    &&& forall|i: int| 0 <= i < red.len() ==> recs[(#[trigger] red[i]).start as int].cmd == c
    &&& forall|i: int, j: int|
        0 <= i < j < red.len() ==> is_le(
            page_order(t, start_pages(recs, #[trigger] red[i]), start_pages(recs, #[trigger] red[j])),
        )
}

proof fn lemma_held_concat(recs: Seq<RecordView>, t: Seq<u8>, a: Seq<Span>, b: Seq<Span>, q: int)
    ensures
        held_in(recs, t, a, q) ==> held_in(recs, t, a + b, q),
        held_in(recs, t, b, q) ==> held_in(recs, t, a + b, q),
        held_in(recs, t, a + b, q) ==> held_in(recs, t, a, q) || held_in(recs, t, b, q),
{
    let ab = a + b;
    if held_in(recs, t, a, q) {
        let w = choose|w: int| 0 <= w < a.len() && #[trigger] span_holds(recs, t, a[w], q);
        assert(ab[w] == a[w]);
    }
    if held_in(recs, t, b, q) {
        let w = choose|w: int| 0 <= w < b.len() && #[trigger] span_holds(recs, t, b[w], q);
        assert(ab[a.len() + w] == b[w]);
    }
    if held_in(recs, t, ab, q) {
        let w = choose|w: int| 0 <= w < ab.len() && #[trigger] span_holds(recs, t, ab[w], q);
        if w < a.len() {
            assert(ab[w] == a[w]);
        } else {
            assert(ab[w] == b[w - a.len()]);
        }
    }
}

proof fn lemma_all_held_trans(recs: Seq<RecordView>, t: Seq<u8>, a: Seq<Span>, b: Seq<Span>, c: Seq<Span>)
    requires
        all_held(recs, t, a, b),
        all_held(recs, t, b, c),
    ensures
        all_held(recs, t, a, c),
{
    assert forall|i: int, q: int| 0 <= i < a.len() && #[trigger] span_holds(recs, t, a[i], q) implies held_in(
        recs,
        t,
        c,
        q,
    ) by {
        let w = choose|w: int| 0 <= w < b.len() && #[trigger] span_holds(recs, t, b[w], q);
    }
}

proof fn lemma_merged_holds(recs: Seq<RecordView>, t: Seq<u8>, prev: Span, last: Span)
    requires
        recs[prev.start as int].cmd == recs[last.start as int].cmd,
        !prev.is_range ==> prev.start == prev.end,
        !last.is_range ==> last.start == last.end,
        is_le(page_order(t, start_pages(recs, prev), start_pages(recs, last))),
    ensures
        merged(recs, t, prev, last).start == prev.start,
        !merged(recs, t, prev, last).is_range ==> merged(recs, t, prev, last).start == merged(
            recs,
            t,
            prev,
            last,
        ).end,
        forall|q: int| #[trigger]
            span_holds(recs, t, prev, q) ==> span_holds(recs, t, merged(recs, t, prev, last), q),
        forall|q: int| #[trigger]
            span_holds(recs, t, last, q) ==> span_holds(recs, t, merged(recs, t, prev, last), q),
{
    let m = merged(recs, t, prev, last);
    let ps = start_pages(recs, prev);
    let pe = end_pages(recs, prev);
    let ls = start_pages(recs, last);
    let le = end_pages(recs, last);
    crate::compare::law_page_order_flip(t, pe, le);
    assert forall|q: int| #[trigger] span_holds(recs, t, prev, q) implies span_holds(recs, t, m, q) by {
        let pq = recs[q].pages;
        if m != prev {
            crate::compare::law_page_order_transitive(t, pq, pe, le);
        }
    }
    assert forall|q: int| #[trigger] span_holds(recs, t, last, q) implies span_holds(recs, t, m, q) by {
        let pq = recs[q].pages;
        crate::compare::law_page_order_transitive(t, ps, ls, pq);
        if m == prev {
            crate::compare::law_page_order_transitive(t, pq, le, pe);
        }
    }
}

proof fn lemma_collapse_holds(recs: Seq<RecordView>, t: Seq<u8>, auto: bool, red: Seq<Span>, c: Option<Seq<char>>)
    requires
        red_ok(recs, t, red, c),
        red.len() >= 1,
    ensures
        red_ok(recs, t, collapse(recs, t, auto, red), c),
        1 <= collapse(recs, t, auto, red).len() <= red.len(),
        forall|m: int|
            0 <= m < collapse(recs, t, auto, red).len() ==> (#[trigger] collapse(recs, t, auto, red)[m]).start
                == red[m].start,
        all_held(recs, t, red, collapse(recs, t, auto, red)),
    decreases red.len(),
{
    if red.len() >= 2 {
        let n = red.len();
        let prev = red[n - 2];
        let last = red[n - 1];
        if should_merge(recs, t, auto, prev, last) {
            let mg = merged(recs, t, prev, last);
            lemma_merged_holds(recs, t, prev, last);
            let red2 = red.take(n - 2).push(mg);
            assert forall|m: int| 0 <= m < red2.len() implies (#[trigger] red2[m]).start == red[m].start by {
                if m < n - 2 {
                    assert(red2[m] == red[m]);
                }
            }
            assert(red_ok(recs, t, red2, c)) by {
                assert forall|i: int| 0 <= i < red2.len() && !(#[trigger] red2[i]).is_range implies red2[i].start
                    == red2[i].end by {
                    if i < n - 2 {
                        assert(red2[i] == red[i]);
                    }
                }
                assert forall|i: int| 0 <= i < red2.len() implies recs[(#[trigger] red2[i]).start as int].cmd == c by {
                    assert(red2[i].start == red[i].start);
                    assert(recs[red[i].start as int].cmd == c);
                }
                assert forall|i: int, j: int| 0 <= i < j < red2.len() implies is_le(
                    page_order(t, start_pages(recs, #[trigger] red2[i]), start_pages(recs, #[trigger] red2[j])),
                ) by {
                    assert(red2[i].start == red[i].start);
                    assert(red2[j].start == red[j].start);
                    assert(is_le(page_order(t, start_pages(recs, red[i]), start_pages(recs, red[j]))));
                }
            }
            assert(all_held(recs, t, red, red2)) by {
                assert forall|i: int, q: int| 0 <= i < red.len() && #[trigger] span_holds(recs, t, red[i], q) implies held_in(
                    recs,
                    t,
                    red2,
                    q,
                ) by {
                    if i < n - 2 {
                        assert(red2[i] == red[i]);
                    } else {
                        assert(span_holds(recs, t, red2[n - 2], q));
                    }
                }
            }
            lemma_collapse_holds(recs, t, auto, red2, c);
            lemma_all_held_trans(recs, t, red, red2, collapse(recs, t, auto, red2));
        } else {
            assert(all_held(recs, t, red, red)) by {
                assert forall|i: int, q: int| 0 <= i < red.len() && #[trigger] span_holds(recs, t, red[i], q) implies held_in(
                    recs,
                    t,
                    red,
                    q,
                ) by {}
            }
        }
    } else {
        assert(all_held(recs, t, red, red)) by {
            assert forall|i: int, q: int| 0 <= i < red.len() && #[trigger] span_holds(recs, t, red[i], q) implies held_in(
                recs,
                t,
                red,
                q,
            ) by {}
        }
    }
}

proof fn lemma_run_end_singles(recs: Seq<RecordView>, t: Seq<u8>, red: Seq<Span>, j: int)
    requires
        1 <= j <= red.len(),
    ensures
        forall|m: int| j <= m < run_end(recs, t, red, j) ==> !(#[trigger] red[m]).is_range,
    decreases red.len() - j,
{
    if j < red.len() && !red[j].is_range && adjacent(t, end_pages(recs, red[j - 1]), start_pages(recs, red[j])) {
        lemma_run_end_singles(recs, t, red, j + 1);
    }
}

proof fn lemma_all_held_self(recs: Seq<RecordView>, t: Seq<u8>, a: Seq<Span>)
    ensures
        all_held(recs, t, a, a),
{
    assert forall|i: int, q: int| 0 <= i < a.len() && #[trigger] span_holds(recs, t, a[i], q) implies held_in(
        recs,
        t,
        a,
        q,
    ) by {}
}

proof fn lemma_collapse_runs_holds(
    recs: Seq<RecordView>,
    t: Seq<u8>,
    auto: bool,
    red: Seq<Span>,
    i: int,
    c: Option<Seq<char>>,
)
    requires
        red_ok(recs, t, red, c),
        0 <= i,
    ensures
        singles_ok(collapse_runs(recs, t, auto, red, i)),
        all_held(recs, t, red, collapse_runs(recs, t, auto, red, i)),
    decreases red.len() - i,
{
    if i >= red.len() {
        lemma_all_held_self(recs, t, red);
    } else if red[i].is_range {
        lemma_collapse_runs_holds(recs, t, auto, red, i + 1, c);
    } else {
        let j = run_end(recs, t, red, i + 1);
        lemma_run_end_range(recs, t, red, i + 1);
        if auto && j - i >= 3 {
            lemma_run_end_singles(recs, t, red, i + 1);
            let range = Span { start: red[i].start, end: red[j - 1].end, is_range: true };
            let red2 = red.take(i).push(range) + red.skip(j);
            assert forall|m: int| 0 <= m < red2.len() implies (#[trigger] red2[m]) == if m < i {
                red[m]
            } else if m == i {
                range
            } else {
                red[m - i - 1 + j]
            } by {}
            assert(red_ok(recs, t, red2, c)) by {
                assert forall|a: int| 0 <= a < red2.len() && !(#[trigger] red2[a]).is_range implies red2[a].start
                    == red2[a].end by {
                    if a < i {
                        assert(red2[a] == red[a]);
                    } else if a > i {
                        assert(red2[a] == red[a - i - 1 + j]);
                    }
                }
                assert forall|a: int| 0 <= a < red2.len() implies recs[(#[trigger] red2[a]).start as int].cmd == c by {
                    if a < i {
                        assert(red2[a] == red[a]);
                    } else if a == i {
                        assert(red2[a].start == red[i].start);
                    } else {
                        assert(red2[a] == red[a - i - 1 + j]);
                    }
                }
                assert forall|a: int, b: int| 0 <= a < b < red2.len() implies is_le(
                    page_order(t, start_pages(recs, #[trigger] red2[a]), start_pages(recs, #[trigger] red2[b])),
                ) by {
                    let ia = if a <= i { a } else { a - i - 1 + j };
                    let ib = if b <= i { b } else { b - i - 1 + j };
                    assert(red2[a].start == red[ia].start);
                    assert(red2[b].start == red[ib].start);
                    assert(is_le(page_order(t, start_pages(recs, red[ia]), start_pages(recs, red[ib]))));
                }
            }
            assert(all_held(recs, t, red, red2)) by {
                assert forall|a: int, q: int| 0 <= a < red.len() && #[trigger] span_holds(recs, t, red[a], q) implies held_in(
                    recs,
                    t,
                    red2,
                    q,
                ) by {
                    if a < i {
                        assert(red2[a] == red[a]);
                    } else if a >= j {
                        assert(red2[a + i + 1 - j] == red[a]);
                    } else {
                        let pq = recs[q].pages;
                        let pi = start_pages(recs, red[i]);
                        let pa = start_pages(recs, red[a]);
                        let pl = start_pages(recs, red[j - 1]);
                        assert(!red[a].is_range);
                        assert(!red[j - 1].is_range);
                        assert(red[a].start == red[a].end);
                        assert(red[j - 1].start == red[j - 1].end);
                        assert(recs[red[a].start as int].cmd == c);
                        if a > i {
                            assert(is_le(page_order(t, pi, pa)));
                            crate::compare::law_page_order_transitive(t, pi, pa, pq);
                        }
                        if a < j - 1 {
                            assert(is_le(page_order(t, pa, pl)));
                            crate::compare::law_page_order_transitive(t, pq, pa, pl);
                        }
                        assert(span_holds(recs, t, red2[i], q));
                    }
                }
            }
            lemma_collapse_runs_holds(recs, t, auto, red2, i + 1, c);
            lemma_all_held_trans(recs, t, red, red2, collapse_runs(recs, t, auto, red2, i + 1));
        } else {
            lemma_collapse_runs_holds(recs, t, auto, red, j, c);
        }
    }
}

proof fn lemma_reduce_holds(
    recs: Seq<RecordView>,
    t: Seq<u8>,
    auto: bool,
    items: Seq<Span>,
    k: int,
    red: Seq<Span>,
    fin: Seq<Span>,
    c: Option<Seq<char>>,
)
    requires
        0 <= k <= items.len(),
        singles_ok(items),
        singles_ok(fin),
        sorted_by(items, order_rel(recs, t, true)),
        red_ok(recs, t, red, c),
        red.len() > 0 ==> k < items.len() && recs[items[k].start as int].cmd == c,
        forall|m: int, j: int|
            0 <= m < red.len() && k <= j < items.len() && recs[items[j].start as int].cmd == c ==> is_le(
                page_order(t, start_pages(recs, #[trigger] red[m]), start_pages(recs, #[trigger] items[j])),
            ),
        all_held(recs, t, items.take(k), fin + red),
    ensures
        singles_ok(reduce_from(recs, t, auto, items, k, red, fin)),
        all_held(recs, t, items, reduce_from(recs, t, auto, items, k, red, fin)),
    decreases items.len() - k,
{
    if k >= items.len() {
        assert(items.take(k) =~= items);
        assert(fin + red =~= fin);
    } else {
        let x = items[k];
        let c2 = recs[x.start as int].cmd;
        let pushed = red.push(x);
        assert(red_ok(recs, t, pushed, c2)) by {
            assert forall|i: int| 0 <= i < pushed.len() && !(#[trigger] pushed[i]).is_range implies pushed[i].start
                == pushed[i].end by {
                if i < red.len() {
                    assert(pushed[i] == red[i]);
                }
            }
            assert forall|i: int| 0 <= i < pushed.len() implies recs[(#[trigger] pushed[i]).start as int].cmd == c2 by {
                if i < red.len() {
                    assert(pushed[i] == red[i]);
                }
            }
            assert forall|i: int, j: int| 0 <= i < j < pushed.len() implies is_le(
                page_order(t, start_pages(recs, #[trigger] pushed[i]), start_pages(recs, #[trigger] pushed[j])),
            ) by {
                assert(pushed[i] == red[i]);
                if j < red.len() {
                    assert(pushed[j] == red[j]);
                } else {
                    assert(is_le(page_order(t, start_pages(recs, red[i]), start_pages(recs, items[k]))));
                }
            }
        }
        lemma_collapse_holds(recs, t, auto, pushed, c2);
        let red1 = collapse(recs, t, auto, pushed);
        // everything held so far is still held, with the new item too
        assert forall|i: int, q: int| 0 <= i < items.take(k + 1).len() && #[trigger] span_holds(
            recs,
            t,
            items.take(k + 1)[i],
            q,
        ) implies held_in(recs, t, fin, q) || held_in(recs, t, red1, q) by {
            if i < k {
                assert(items.take(k)[i] == items[i]);
                lemma_held_concat(recs, t, fin, red, q);
                if held_in(recs, t, red, q) {
                    let w = choose|w: int| 0 <= w < red.len() && #[trigger] span_holds(recs, t, red[w], q);
                    assert(pushed[w] == red[w]);
                }
            } else {
                assert(pushed[red.len() as int] == x);
            }
        }
        let flush = k + 1 >= items.len() || recs[items[k + 1].start as int].cmd != recs[red1[0].start as int].cmd;
        assert(recs[red1[0].start as int].cmd == c2);
        if flush {
            let runs = collapse_runs(recs, t, auto, red1, 0);
            lemma_collapse_runs_holds(recs, t, auto, red1, 0, c2);
            let fin2 = fin + runs;
            let e: Seq<Span> = Seq::empty();
            assert(fin2 + e =~= fin2);
            assert forall|i: int| 0 <= i < fin2.len() && !(#[trigger] fin2[i]).is_range implies fin2[i].start
                == fin2[i].end by {
                if i < fin.len() {
                    assert(fin2[i] == fin[i]);
                } else {
                    assert(fin2[i] == runs[i - fin.len()]);
                }
            }
            assert forall|i: int, q: int| 0 <= i < items.take(k + 1).len() && #[trigger] span_holds(
                recs,
                t,
                items.take(k + 1)[i],
                q,
            ) implies held_in(recs, t, fin2 + e, q) by {
                lemma_held_concat(recs, t, fin, runs, q);
                if held_in(recs, t, red1, q) {
                    let w = choose|w: int| 0 <= w < red1.len() && #[trigger] span_holds(recs, t, red1[w], q);
                }
            }
            lemma_reduce_holds(recs, t, auto, items, k + 1, e, fin2, c2);
        } else {
            assert forall|m: int, j: int|
                0 <= m < red1.len() && k + 1 <= j < items.len() && recs[items[j].start as int].cmd == c2 implies is_le(
                page_order(t, start_pages(recs, #[trigger] red1[m]), start_pages(recs, #[trigger] items[j])),
            ) by {
                assert(red1[m].start == pushed[m].start);
                if m < red.len() {
                    assert(pushed[m] == red[m]);
                } else {
                    assert(pushed[m] == x);
                    let rel = order_rel(recs, t, true);
                    assert(!rel(items[j], items[k]));
                    lemma_cmd_order_equal(c2);
                    crate::compare::law_page_order_flip(t, start_pages(recs, items[k]), start_pages(recs, items[j]));
                }
            }
            assert forall|i: int, q: int| 0 <= i < items.take(k + 1).len() && #[trigger] span_holds(
                recs,
                t,
                items.take(k + 1)[i],
                q,
            ) implies held_in(recs, t, fin + red1, q) by {
                lemma_held_concat(recs, t, fin, red1, q);
            }
            lemma_reduce_holds(recs, t, auto, items, k + 1, red1, fin, c2);
        }
    }
}

/// The last page of a merged page: its page, or the end of its range.
pub open spec fn last_pages(m: MergedPageView) -> Seq<IndexPage> {
    match m {
        MergedPageView::Single { page, .. } => page.0,
        MergedPageView::Range { end, .. } => end.0,
    }
}

/// No plain page is lost in merging: the page of every record that is a plain page lies
/// within some merged page that has its page command, from that merged page's first page
/// to its last.
pub proof fn law_plain_pages_are_kept(recs: Seq<RecordView>, t: Seq<u8>, auto: bool, strict: bool, k: int)
    requires
        0 <= k < recs.len(),
        recs.len() <= usize::MAX,
        recs[k].kind == RangeKind::Plain,
    ensures
        exists|i: int|
            0 <= i < merged_pages(recs, t, auto, strict).len() && page_command_of(
                #[trigger] merged_pages(recs, t, auto, strict)[i],
            ) == recs[k].cmd && is_le(
                page_order(t, first_pages(merged_pages(recs, t, auto, strict)[i]), recs[k].pages),
            ) && is_le(page_order(t, recs[k].pages, last_pages(merged_pages(recs, t, auto, strict)[i]))),
{
    let p = paired(recs, strict);
    let grel = order_rel(recs, t, true);
    let grouped = sort_spans(p, grel);
    let e: Seq<Span> = Seq::empty();
    let reduced = reduce_from(recs, t, auto, grouped, 0, e, e);
    let f = final_spans(recs, t, auto, strict);
    let m = merged_pages(recs, t, auto, strict);
    lemma_paired_keeps_plain(recs, strict, k);
    lemma_sort_members(p, grel);
    lemma_group_before_strict(recs, t);
    lemma_sort_spans_sorted(p, grel);
    assert(singles_ok(grouped)) by {
        assert forall|i: int| 0 <= i < grouped.len() && !(#[trigger] grouped[i]).is_range implies grouped[i].start
            == grouped[i].end by {
            assert(grouped.contains(grouped[i]));
            assert(p.contains(grouped[i]));
            let w = choose|w: int| 0 <= w < p.len() && p[w] == grouped[i];
        }
    }
    assert(grouped.take(0) =~= e);
    assert(red_ok(recs, t, e, None));
    lemma_reduce_holds(recs, t, auto, grouped, 0, e, e, None);
    // the single page of record `k` is among the sorted items, and holds its own page
    let sk = single(k as usize);
    assert(grouped.contains(sk));
    let g = choose|g: int| 0 <= g < grouped.len() && grouped[g] == sk;
    crate::compare::law_page_order_reflexive(t, recs[k].pages);
    assert(span_holds(recs, t, grouped[g], k));
    let r = choose|r: int| 0 <= r < reduced.len() && #[trigger] span_holds(recs, t, reduced[r], k);
    lemma_sort_members(reduced, order_rel(recs, t, false));
    assert(f.contains(reduced[r]));
    let i = choose|i: int| 0 <= i < f.len() && f[i] == reduced[r];
    assert(!f[i].is_range ==> f[i].start == f[i].end);
    assert(m[i] == span_page(recs, f[i]));
}

/// With merging on, a single page directly before a range joins it: a plain page `p`, then
/// an open record on page `p + 1` and its close on page `q`, all with one page command, make
/// the one range from `p` to `q`, whatever the matching mode.
pub proof fn law_page_before_a_range_joins_it(
    recs: Seq<RecordView>,
    t: Seq<u8>,
    strict: bool,
    cmd: Option<Seq<char>>,
    p: u64,
    q: u64,
)
    requires
        recs.len() == 3,
        p < q,
        recs[0].cmd == cmd && recs[1].cmd == cmd && recs[2].cmd == cmd,
        recs[0].kind == RangeKind::Plain,
        recs[1].kind == RangeKind::Open,
        recs[2].kind == RangeKind::Close,
        recs[0].pages == seq![IndexPage { kind: IndexPageKind::Arabic, value: p }],
        recs[1].pages == seq![IndexPage { kind: IndexPageKind::Arabic, value: (p + 1) as u64 }],
        recs[2].pages == seq![IndexPage { kind: IndexPageKind::Arabic, value: q }],
    ensures
        merged_pages(recs, t, true, strict) == seq![
            MergedPageView::Range { page_command: cmd, start: page_tuple(recs[0]), end: page_tuple(recs[2]) },
        ],
{
    let s0 = single(0usize);
    let r12 = Span { start: 1usize, end: 2usize, is_range: true };
    let r02 = Span { start: 0usize, end: 2usize, is_range: true };
    // matching: the plain page, then the range that the close makes with the open
    let st0 = pair_upto(recs, strict, 0);
    let st1 = pair_upto(recs, strict, 1);
    let st2 = pair_upto(recs, strict, 2);
    let st3 = pair_upto(recs, strict, 3);
    assert(st1.items =~= seq![s0] && st1.stack =~= Seq::<usize>::empty());
    assert(st2.items =~= seq![s0] && st2.stack =~= seq![1usize]);
    assert(last_with_cmd(recs, st2.stack, cmd, 1) == Some(0int));
    assert(st3.items =~= seq![s0, r12] && st3.stack =~= Seq::<usize>::empty());
    let items = seq![s0, r12];
    assert(paired(recs, strict) =~= items);
    // sorting by command and page keeps them in this order
    let grel = order_rel(recs, t, true);
    lemma_cmd_order_equal(cmd);
    lemma_arabic_order(t, (p + 1) as u64, p);
    lemma_arabic_order(t, p, (p + 1) as u64);
    lemma_arabic_order(t, p, q);
    assert(sorted_by(items, grel)) by {
        assert(!grel(items[1], items[0]));
    }
    lemma_sort_sorted(items, grel);
    // reducing: the single page and the range are adjacent, so they merge
    let e: Seq<Span> = Seq::empty();
    assert(collapse(recs, t, true, e.push(s0)) == seq![s0]);
    assert(seq![s0].push(r12) =~= items);
    assert(should_merge(recs, t, true, s0, r12));
    assert(merged(recs, t, s0, r12) == r02);
    assert(items.take(0).push(r02) =~= seq![r02]);
    assert(collapse(recs, t, true, seq![r02]) == seq![r02]);
    assert(collapse(recs, t, true, items) == seq![r02]);
    assert(collapse_runs(recs, t, true, seq![r02], 1) == seq![r02]);
    assert(collapse_runs(recs, t, true, seq![r02], 0) == seq![r02]);
    assert(reduce_from(recs, t, true, items, 2, e, seq![r02]) == seq![r02]);
    assert(e + seq![r02] =~= seq![r02]);
    assert(reduce_from(recs, t, true, items, 1, seq![s0], e) == seq![r02]);
    assert(reduce_from(recs, t, true, items, 0, e, e) == seq![r02]);
    let reduced = seq![r02];
    assert(sorted_by(reduced, order_rel(recs, t, false)));
    lemma_sort_sorted(reduced, order_rel(recs, t, false));
    assert(final_spans(recs, t, true, strict) == reduced);
    assert(merged_pages(recs, t, true, strict) =~= seq![span_page(recs, r02)]);
}

/// With merging on, a single page directly after a range joins it: an open record on page
/// `p` and its close on page `q`, then a plain page `q + 1`, all with one page command, make
/// the one range from `p` to `q + 1`, whatever the matching mode.
pub proof fn law_page_after_a_range_joins_it(
    recs: Seq<RecordView>,
    t: Seq<u8>,
    strict: bool,
    cmd: Option<Seq<char>>,
    p: u64,
    q: u64,
)
    requires
        recs.len() == 3,
        p <= q < u64::MAX,
        recs[0].cmd == cmd && recs[1].cmd == cmd && recs[2].cmd == cmd,
        recs[0].kind == RangeKind::Open,
        recs[1].kind == RangeKind::Close,
        recs[2].kind == RangeKind::Plain,
        recs[0].pages == seq![IndexPage { kind: IndexPageKind::Arabic, value: p }],
        recs[1].pages == seq![IndexPage { kind: IndexPageKind::Arabic, value: q }],
        recs[2].pages == seq![IndexPage { kind: IndexPageKind::Arabic, value: (q + 1) as u64 }],
    ensures
        merged_pages(recs, t, true, strict) == seq![
            MergedPageView::Range { page_command: cmd, start: page_tuple(recs[0]), end: page_tuple(recs[2]) },
        ],
{
    let r01 = Span { start: 0usize, end: 1usize, is_range: true };
    let s2 = single(2usize);
    let r02 = Span { start: 0usize, end: 2usize, is_range: true };
    let st1 = pair_upto(recs, strict, 1);
    let st2 = pair_upto(recs, strict, 2);
    let st3 = pair_upto(recs, strict, 3);
    let st0 = pair_upto(recs, strict, 0);
    assert(st0.items =~= Seq::<Span>::empty() && st0.stack =~= Seq::<usize>::empty());
    assert(st1 == pair_step(recs, strict, st0, 0));
    assert(st1.items =~= Seq::<Span>::empty() && st1.stack =~= seq![0usize]);
    assert(last_with_cmd(recs, st1.stack, cmd, 1) == Some(0int));
    assert(st2.items =~= seq![r01] && st2.stack =~= Seq::<usize>::empty());
    assert(st3.items =~= seq![r01, s2] && st3.stack =~= Seq::<usize>::empty());
    let items = seq![r01, s2];
    assert(paired(recs, strict) =~= items);
    let grel = order_rel(recs, t, true);
    lemma_cmd_order_equal(cmd);
    lemma_arabic_order(t, (q + 1) as u64, p);
    lemma_arabic_order(t, q, (q + 1) as u64);
    assert(sorted_by(items, grel)) by {
        assert(!grel(items[1], items[0]));
    }
    lemma_sort_sorted(items, grel);
    let e: Seq<Span> = Seq::empty();
    assert(collapse(recs, t, true, e.push(r01)) == seq![r01]);
    assert(seq![r01].push(s2) =~= items);
    assert(should_merge(recs, t, true, r01, s2));
    assert(merged(recs, t, r01, s2) == r02);
    assert(items.take(0).push(r02) =~= seq![r02]);
    assert(collapse(recs, t, true, seq![r02]) == seq![r02]);
    assert(collapse(recs, t, true, items) == seq![r02]);
    assert(collapse_runs(recs, t, true, seq![r02], 1) == seq![r02]);
    assert(collapse_runs(recs, t, true, seq![r02], 0) == seq![r02]);
    assert(reduce_from(recs, t, true, items, 2, e, seq![r02]) == seq![r02]);
    assert(e + seq![r02] =~= seq![r02]);
    assert(reduce_from(recs, t, true, items, 1, seq![r01], e) == seq![r02]);
    assert(reduce_from(recs, t, true, items, 0, e, e) == seq![r02]);
    let reduced = seq![r02];
    assert(sorted_by(reduced, order_rel(recs, t, false)));
    lemma_sort_sorted(reduced, order_rel(recs, t, false));
    assert(final_spans(recs, t, true, strict) == reduced);
    assert(merged_pages(recs, t, true, strict) =~= seq![span_page(recs, r02)]);
}

} // verus!
