use cindex::merge::{
    merged_key_n, merged_level_n, merged_levels_count, merged_max_same_key, merged_page_command_n,
    merged_page_span_n, merged_pages_count, merged_pages_raw_n,
};
use cindex::{
    get_page_cmp, merge_entries, IndexEntry, IndexPage, IstFile, MergedEntry, MergedPage,
    MergedPagesBuilder, PageOrder, PagePrecedenceProvider, RangeKind,
};

type Record = (Option<String>, RangeKind, String, Vec<IndexPage>);

fn rec(cmd: Option<&str>, kind: RangeKind, page: u64) -> Record {
    (cmd.map(String::from), kind, page.to_string(), vec![IndexPage::Arabic(page)])
}

fn shape(p: &MergedPage) -> (Option<String>, u64, u64, bool) {
    match p {
        MergedPage::Single { page_command, page } => {
            let v = page.0.last().unwrap().value;
            (page_command.clone(), v, v, false)
        }
        MergedPage::Range { page_command, start, end } => (
            page_command.clone(),
            start.0.last().unwrap().value,
            end.0.last().unwrap().value,
            true,
        ),
    }
}

fn build(records: Vec<Record>, auto_merge: bool, strict: bool) -> Vec<(Option<String>, u64, u64, bool)> {
    let (input, output) = IstFile::default().split();
    let mut builder =
        MergedPagesBuilder::new(get_page_cmp("rnaRA".to_precedence()), auto_merge, strict, (&input, &output));
    let pages = builder.build_from_vec(records);
    pages.as_slice().iter().map(shape).collect()
}

#[test]
fn run_of_three_pages_becomes_range() {
    let r = build(
        vec![rec(None, RangeKind::Plain, 1), rec(None, RangeKind::Plain, 2), rec(None, RangeKind::Plain, 3)],
        true,
        false,
    );
    assert_eq!(r, vec![(None, 1, 3, true)]);
}

#[test]
fn run_stays_single_pages_without_merging() {
    let r = build(
        vec![rec(None, RangeKind::Plain, 1), rec(None, RangeKind::Plain, 2), rec(None, RangeKind::Plain, 3)],
        false,
        false,
    );
    assert_eq!(r, vec![(None, 1, 1, false), (None, 2, 2, false), (None, 3, 3, false)]);
}

#[test]
fn two_adjacent_pages_stay_single() {
    let r = build(vec![rec(None, RangeKind::Plain, 1), rec(None, RangeKind::Plain, 2)], true, false);
    assert_eq!(r, vec![(None, 1, 1, false), (None, 2, 2, false)]);
}

#[test]
fn repeated_page_is_kept_once() {
    let r = build(vec![rec(None, RangeKind::Plain, 5), rec(None, RangeKind::Plain, 5)], true, false);
    assert_eq!(r, vec![(None, 5, 5, false)]);
}

#[test]
fn open_and_close_make_a_range() {
    let r = build(vec![rec(None, RangeKind::Open, 2), rec(None, RangeKind::Close, 6)], true, false);
    assert_eq!(r, vec![(None, 2, 6, true)]);
}

#[test]
fn page_inside_a_range_is_absorbed() {
    let r = build(
        vec![rec(None, RangeKind::Open, 2), rec(None, RangeKind::Plain, 4), rec(None, RangeKind::Close, 6)],
        true,
        false,
    );
    assert_eq!(r, vec![(None, 2, 6, true)]);
}

#[test]
fn adjacent_page_extends_a_range() {
    let r = build(
        vec![rec(None, RangeKind::Open, 2), rec(None, RangeKind::Close, 6), rec(None, RangeKind::Plain, 7)],
        true,
        false,
    );
    assert_eq!(r, vec![(None, 2, 7, true)]);
}

#[test]
fn strict_matching_needs_the_same_command() {
    let records = vec![rec(Some("a"), RangeKind::Open, 2), rec(Some("b"), RangeKind::Close, 6)];
    let strict = build(records.clone(), true, true);
    assert_eq!(strict, vec![(Some(String::from("a")), 2, 2, false), (Some(String::from("b")), 6, 6, false)]);
    let loose = build(records, true, false);
    assert_eq!(loose, vec![(Some(String::from("a")), 2, 6, true)]);
}

#[test]
fn unmatched_close_is_a_single_page() {
    let r = build(vec![rec(None, RangeKind::Close, 4)], true, false);
    assert_eq!(r, vec![(None, 4, 4, false)]);
}

#[test]
fn merged_pages_come_in_page_order() {
    let r = build(
        vec![rec(None, RangeKind::Plain, 9), rec(None, RangeKind::Plain, 3), rec(Some("b"), RangeKind::Plain, 6)],
        true,
        false,
    );
    assert_eq!(r, vec![(None, 3, 3, false), (Some(String::from("b")), 6, 6, false), (None, 9, 9, false)]);
    for w in r.windows(2) {
        assert!(w[0].1 <= w[1].1);
    }
}

#[test]
fn commands_are_merged_separately() {
    let r = build(
        vec![
            rec(Some("bold"), RangeKind::Plain, 1),
            rec(Some("bold"), RangeKind::Plain, 2),
            rec(Some("bold"), RangeKind::Plain, 3),
            rec(None, RangeKind::Plain, 2),
        ],
        true,
        false,
    );
    assert_eq!(r, vec![(Some(String::from("bold")), 1, 3, true), (None, 2, 2, false)]);
}

#[test]
fn merged_pages_are_no_more_than_records() {
    let records: Vec<Record> = (1..=10).map(|p| rec(None, RangeKind::Plain, p % 4)).collect();
    let n = records.len();
    let r = build(records, true, false);
    assert!(r.len() <= n);
}

#[test]
fn page_comparison() {
    let cmp = get_page_cmp("rnaRA".to_precedence());
    assert_eq!(cmp.compare(&[IndexPage::roman(5)], &[IndexPage::Arabic(1)]), PageOrder::LessOther);
    assert_eq!(cmp.compare(&[IndexPage::Arabic(1)], &[IndexPage::Arabic(2)]), PageOrder::LessSame);
    assert_eq!(cmp.compare(&[IndexPage::Arabic(2)], &[IndexPage::Arabic(2)]), PageOrder::Equal);
    assert_eq!(cmp.compare(&[IndexPage::Arabic(3)], &[IndexPage::Arabic(2)]), PageOrder::GreaterSame);
    assert_eq!(cmp.compare(&[], &[IndexPage::Arabic(2)]), PageOrder::LessOther);
    assert_eq!(
        cmp.compare(&[IndexPage::Arabic(1), IndexPage::Arabic(9)], &[IndexPage::Arabic(2), IndexPage::Arabic(1)]),
        PageOrder::LessOther
    );
    assert_eq!(cmp.compare(&[IndexPage::Arabic(1)], &[IndexPage::Arabic(1), IndexPage::Arabic(1)]), PageOrder::LessOther);
}

fn entry(levels: Vec<(Option<&str>, &str)>, page: u64) -> IndexEntry {
    IndexEntry {
        levels: levels.into_iter().map(|(k, d)| (k.map(String::from), String::from(d))).collect(),
        range: RangeKind::Plain,
        page_commands: None,
        pages: vec![IndexPage::Arabic(page)],
        pages_raw: page.to_string(),
    }
}

#[test]
fn entries_with_the_same_levels_are_merged() {
    let (input, output) = IstFile::default().split();
    let entries = vec![
        entry(vec![(None, "apple")], 3),
        entry(vec![(None, "banana")], 1),
        entry(vec![(Some("apple"), "apple")], 1),
    ];
    let merged = merge_entries(entries, (&input, &output), get_page_cmp("rnaRA".to_precedence()), true, false).0;
    assert_eq!(merged.len(), 2);
    assert_eq!(merged[0].levels, vec![(None, String::from("apple"))]);
    assert_eq!(merged[0].pages.len(), 2);
    assert_eq!(merged[1].levels, vec![(None, String::from("banana"))]);
    assert_eq!(merged[1].pages.len(), 1);
}

#[test]
fn is_same_compares_keys_and_displays() {
    let a = entry(vec![(Some("x"), "x")], 1);
    let b = entry(vec![(None, "x")], 2);
    let c = entry(vec![(Some("a"), "x")], 1);
    let d = entry(vec![(None, "x"), (None, "y")], 1);
    assert!(a.is_same(&b));
    assert!(!a.is_same(&c));
    assert!(!b.is_same(&d));
}

#[test]
fn merged_entries_have_distinct_levels() {
    let (input, output) = IstFile::default().split();
    let entries = vec![
        entry(vec![(None, "x")], 1),
        entry(vec![(Some("x"), "x")], 2),
        entry(vec![(Some("k"), "x")], 3),
        entry(vec![(None, "x")], 4),
    ];
    let merged = merge_entries(entries.clone(), (&input, &output), get_page_cmp("rnaRA".to_precedence()), true, false).0;
    assert_eq!(merged.len(), 2);
    for e in &entries {
        assert!(merged.iter().any(|m| {
            let probe = IndexEntry { levels: m.levels.clone(), ..e.clone() };
            probe.is_same(e)
        }));
    }
}

#[test]
fn shared_sort_keys_and_spans() {
    let (input, output) = IstFile::default().split();
    let entries = vec![
        entry(vec![(None, "a"), (Some("b"), "B")], 1),
        entry(vec![(Some("a"), "A"), (None, "b"), (None, "x")], 2),
        entry(vec![(None, "z")], 3),
    ];
    let merged = merge_entries(entries, (&input, &output), get_page_cmp("rnaRA".to_precedence()), true, false).0;
    assert_eq!(merged.len(), 3);
    assert_eq!(merged_max_same_key(&merged[0], &merged[1]), 2);
    assert_eq!(merged_max_same_key(&merged[1], &merged[0]), 2);
    assert_eq!(merged_max_same_key(&merged[0], &merged[2]), 0);

    let mut builder = MergedPagesBuilder::new(get_page_cmp("rnaRA".to_precedence()), true, false, (&input, &output));
    let pages = builder.build_from_vec(vec![
        rec(None, RangeKind::Open, 2),
        rec(None, RangeKind::Close, 6),
        rec(Some("i"), RangeKind::Plain, 9),
    ]);
    assert_eq!(pages.as_slice()[1].page_command(), Some("i"));
    assert_eq!(pages.as_slice()[0].page_command(), None);
    let m = MergedEntry { levels: vec![(Some("k".to_string()), "K".to_string())], pages };
    let spans: Vec<usize> = (0..3).map(|n| merged_page_span_n(&m, n)).collect();
    assert_eq!(spans, vec![5, 1, 0]);
    assert_eq!(merged_pages_count(&m), 2);
    assert_eq!(merged_page_command_n(&m, 0), Some(None));
    assert_eq!(merged_page_command_n(&m, 1), Some(Some("i")));
    assert_eq!(merged_page_command_n(&m, 2), None);
    assert_eq!(merged_pages_raw_n(&m, 0), Some(("2", Some("6"))));
    assert_eq!(merged_pages_raw_n(&m, 1), Some(("9", None)));
    assert_eq!(merged_pages_raw_n(&m, 2), None);
    assert_eq!(merged_levels_count(&m), 1);
    assert_eq!(merged_key_n(&m, 0), Some("k"));
    assert_eq!(merged_level_n(&m, 0), Some("K"));
    assert_eq!(merged_key_n(&m, 1), None);
    assert_eq!(merged_level_n(&m, 1), None);
}

#[test]
fn unpaired_ranges_are_reported() {
    let (input, output) = IstFile::default().split();
    let mut open = entry(vec![(None, "a")], 2);
    open.range = RangeKind::Open;
    open.page_commands = Some(String::from("it"));
    let mut close = entry(vec![(None, "b")], 5);
    close.range = RangeKind::Close;
    let mut pair_open = entry(vec![(None, "c")], 1);
    pair_open.range = RangeKind::Open;
    let mut pair_close = entry(vec![(None, "c")], 3);
    pair_close.range = RangeKind::Close;
    let entries = vec![open, close, pair_open, pair_close];
    let (merged, reports) =
        merge_entries(entries, (&input, &output), get_page_cmp("rnaRA".to_precedence()), true, false);
    assert_eq!(merged.len(), 3);
    assert_eq!(
        reports,
        vec![(RangeKind::Open, String::from("{..|(it}{2}")), (RangeKind::Close, String::from("{..|)}{5}"))]
    );
    let builder = MergedPagesBuilder::new(get_page_cmp("rnaRA".to_precedence()), true, true, (&input, &output));
    let records = vec![
        rec(Some("a"), RangeKind::Open, 2),
        rec(Some("b"), RangeKind::Close, 6),
        rec(None, RangeKind::Plain, 7),
        rec(None, RangeKind::Open, 8),
    ];
    assert_eq!(builder.unmatched_ranges(&records), vec![1, 0, 3]);
}

#[test]
fn merged_entries_are_written_as_index_lines() {
    let (input, mut output) = IstFile::default().split();
    output.item_0 = String::from("* ");
    output.delim_0 = String::from(": ");
    output.delim_n = String::from(", ");
    output.delim_r = String::from("--");
    let mut builder = MergedPagesBuilder::new(get_page_cmp("rnaRA".to_precedence()), true, false, (&input, &output));
    let pages = builder.build_from_vec(vec![
        rec(None, RangeKind::Open, 2),
        rec(None, RangeKind::Close, 6),
        rec(Some("i"), RangeKind::Plain, 9),
    ]);
    let m = MergedEntry { levels: vec![(Some(String::from("k")), String::from("A")), (None, String::from("b"))], pages };
    assert_eq!(cindex::render::render_entry(&m, &output), "* A, b: 2--6, \\i{9}\n");
}

#[test]
fn every_plain_page_is_kept_under_its_command() {
    let records = vec![
        rec(Some("b"), RangeKind::Open, 3),
        rec(None, RangeKind::Plain, 9),
        rec(Some("b"), RangeKind::Plain, 5),
        rec(None, RangeKind::Plain, 10),
        rec(Some("b"), RangeKind::Close, 8),
        rec(None, RangeKind::Plain, 11),
        rec(Some("b"), RangeKind::Plain, 12),
        rec(None, RangeKind::Plain, 4),
    ];
    for auto_merge in [true, false] {
        let merged = build(records.clone(), auto_merge, false);
        for (cmd, _, raw, pages) in records.iter().filter(|r| r.1 == RangeKind::Plain) {
            let v = pages[0].value;
            assert!(
                merged.iter().any(|(c, lo, hi, _)| c == cmd && *lo <= v && v <= *hi),
                "page {} is lost in {:?}",
                raw,
                merged
            );
        }
    }
    assert_eq!(
        build(records, true, false),
        vec![(Some("b".to_string()), 3, 8, true), (None, 4, 4, false), (None, 9, 11, true), (Some("b".to_string()), 12, 12, false)]
    );
}
