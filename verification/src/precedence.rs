use vstd::prelude::*;

use crate::page::IndexPageKind;
use crate::text::{byte_len, lemma_byte_len_push, utf8_char_len};

verus! {

/// The position of each kind of page number in a precedence table:
/// roman, Arabic, alpha, Roman, Alpha, ZhDigits, ZhNumber.
pub open spec fn kind_slot(k: IndexPageKind) -> int {
    match k {
        IndexPageKind::roman => 0,
        IndexPageKind::Arabic => 1,
        IndexPageKind::alpha => 2,
        IndexPageKind::Roman => 3,
        IndexPageKind::Alpha => 4,
        IndexPageKind::ZhDigits => 5,
        IndexPageKind::ZhNumber => 6,
    }
}

/// The kind at a position of a precedence table.
pub open spec fn slot_kind(p: int) -> IndexPageKind {
    if p == 0 {
        IndexPageKind::roman
    } else if p == 1 {
        IndexPageKind::Arabic
    } else if p == 2 {
        IndexPageKind::alpha
    } else if p == 3 {
        IndexPageKind::Roman
    } else if p == 4 {
        IndexPageKind::Alpha
    } else if p == 5 {
        IndexPageKind::ZhDigits
    } else {
        IndexPageKind::ZhNumber
    }
}

/// The name shown for the kind at position `p`.
pub open spec fn slot_name(p: int) -> Seq<char> {
    if p == 0 {
        "roman"@
    } else if p == 1 {
        "Arabic"@
    } else if p == 2 {
        "alpha"@
    } else if p == 3 {
        "Roman"@
    } else if p == 4 {
        "Alpha"@
    } else if p == 5 {
        "ZhDigits"@
    } else {
        "ZhNumber"@
    }
}

/// The rank of each kind of page number, by position (see `kind_slot`):
/// kinds of lower rank sort first.
#[derive(Debug, Clone, Copy, PartialEq, Eq)]
pub struct Precedence(pub(crate) [u8; 7]);

impl View for Precedence {
    type V = Seq<u8>;

    closed spec fn view(&self) -> Seq<u8> {
        self.0@
    }
}

/// Every rank names one of the seven kinds.
pub open spec fn ranks_in_range(t: Seq<u8>) -> bool {
    t.len() == 7 && forall|i: int| 0 <= i < 7 ==> #[trigger] t[i] < 7
}

/// The items `0..n` of the display of a table, separated by `", "`.
pub open spec fn display_items(t: Seq<u8>, n: int) -> Seq<char>
    decreases n,
{
    if n <= 0 {
        Seq::empty()
    } else if n == 1 {
        slot_name(t[0] as int)
    } else {
        display_items(t, n - 1) + ", "@ + slot_name(t[n - 1] as int)
    }
}

/// The display of a table: the names its ranks point to, in brackets.
pub open spec fn display_table(t: Seq<u8>) -> Seq<char> {
    "["@ + display_items(t, 7) + "]"@
}

fn slot_name_str(p: u8) -> (s: &'static str)
    requires
        p < 7,
    ensures
        s@ == slot_name(p as int),
{
    if p == 0 {
        "roman"
    } else if p == 1 {
        "Arabic"
    } else if p == 2 {
        "alpha"
    } else if p == 3 {
        "Roman"
    } else if p == 4 {
        "Alpha"
    } else if p == 5 {
        "ZhDigits"
    } else {
        "ZhNumber"
    }
}

impl Precedence {
    /// The ranks, by position.
    pub fn table(&self) -> (t: [u8; 7])
        ensures
            t@ == self@,
    {
        self.0
    }

    /// Shows the table, such as `[roman, Arabic, alpha, Roman, Alpha, ZhDigits, ZhNumber]`.
    pub fn display(&self) -> (s: String)
        requires
            ranks_in_range(self@),
        ensures
            s@ == display_table(self@),
    {
        let mut res = String::new();
        res.append("[");
        let mut i: usize = 0;
        while i < 7
            invariant
                i <= 7,
                ranks_in_range(self@),
                res@ == "["@ + display_items(self@, i as int),
            decreases 7 - i,
        {
            if i > 0 {
                res.append(", ");
            }
            let p = self.0[i];
            assert(self@[i as int] < 7);
            res.append(slot_name_str(p));
            i = i + 1;
            proof {
                if i == 1 {
                    assert(display_items(self@, 0) =~= Seq::<char>::empty());
                    assert(res@ =~= "["@ + display_items(self@, i as int));
                } else {
                    assert(res@ =~= "["@ + display_items(self@, i as int));
                }
            }
        }
        res.append("]");
        res
    }
}

// ---------------------------------------------------------------------------
// From the position of each kind to a precedence table

/// Whether the kind at `q` ranks before the present kind at `p`: it is present too and
/// comes earlier, or at the same place and at an earlier position.
pub open spec fn ranks_before(idx: Seq<Option<usize>>, p: int, q: int) -> bool {
    &&& idx[q] is Some
    &&& {
        ||| idx[q]->0 < idx[p]->0
        ||| (idx[q]->0 == idx[p]->0 && q < p)
    }
}

/// How many of the positions `0..n` rank before `p`.
pub open spec fn count_before(idx: Seq<Option<usize>>, p: int, n: int) -> nat
    decreases n,
{
    if n <= 0 {
        0
    } else {
        count_before(idx, p, n - 1) + if ranks_before(idx, p, n - 1) {
            1nat
        } else {
            0nat
        }
    }
}

/// How many of the positions `0..n` are present.
pub open spec fn count_present(idx: Seq<Option<usize>>, n: int) -> nat
    decreases n,
{
    if n <= 0 {
        0
    } else {
        count_present(idx, n - 1) + if idx[n - 1] is Some {
            1nat
        } else {
            0nat
        }
    }
}

/// How many of the positions `0..n` are absent.
pub open spec fn count_absent(idx: Seq<Option<usize>>, n: int) -> nat
    decreases n,
{
    if n <= 0 {
        0
    } else {
        count_absent(idx, n - 1) + if idx[n - 1] is None {
            1nat
        } else {
            0nat
        }
    }
}

/// The rank of position `p`: present kinds come first, by their place and then by position;
/// absent kinds follow, by position.
pub open spec fn rank(idx: Seq<Option<usize>>, p: int) -> nat {
    if idx[p] is Some {
        count_before(idx, p, 7)
    } else {
        count_present(idx, 7) + count_absent(idx, p)
    }
}

/// The precedence table for the places `idx` (by position) of the kinds.
pub open spec fn ranking(idx: Seq<Option<usize>>) -> Seq<u8> {
    Seq::new(7, |p: int| rank(idx, p) as u8)
}

proof fn lemma_counts_bounded(idx: Seq<Option<usize>>, p: int, n: int)
    requires
        0 <= n <= 7,
        idx.len() == 7,
    ensures
        count_before(idx, p, n) <= n,
        count_present(idx, n) + count_absent(idx, n) == n,
        count_before(idx, p, n) <= count_present(idx, n),
        0 <= p < n && idx[p] is Some ==> count_before(idx, p, n) < count_present(idx, n),
    decreases n,
{
    if n > 0 {
        lemma_counts_bounded(idx, p, n - 1);
    }
}

/// The rank of position `p` among the places `idx`.
fn rank_exec(idx: &Vec<Option<usize>>, p: usize) -> (r: u8)
    requires
        idx@.len() == 7,
        p < 7,
    ensures
        r == rank(idx@, p as int),
        r < 7,
{
    let mut before: u8 = 0;
    let mut present: u8 = 0;
    let mut absent_before: u8 = 0;
    let mut q: usize = 0;
    while q < 7
        invariant
            idx@.len() == 7,
            p < 7,
            q <= 7,
            idx[p as int] is Some ==> before == count_before(idx@, p as int, q as int),
            present == count_present(idx@, q as int),
            absent_before == count_absent(idx@, if q < p {
                q as int
            } else {
                p as int
            }),
        decreases 7 - q,
    {
        proof {
            lemma_counts_bounded(idx@, p as int, q as int);
            lemma_counts_bounded(idx@, p as int, if q < p {
                q as int
            } else {
                p as int
            });
        }
        match idx[q] {
            Some(iq) => {
                present = present + 1;
                match idx[p] {
                    Some(ip) => {
                        if iq < ip || (iq == ip && q < p) {
                            before = before + 1;
                        }
                    },
                    None => {},
                }
            },
            None => {
                if q < p {
                    absent_before = absent_before + 1;
                }
            },
        }
        q = q + 1;
    }
    proof {
        lemma_counts_bounded(idx@, p as int, 7);
        lemma_counts_bounded(idx@, p as int, p as int);
        if idx@[p as int] is None {
            assert(count_absent(idx@, p as int + 1) == count_absent(idx@, p as int) + 1);
            lemma_counts_bounded(idx@, p as int, p as int + 1);
            lemma_absent_monotone(idx@, p as int + 1, 7);
        }
    }
    match idx[p] {
        Some(_) => before,
        None => present + absent_before,
    }
}

proof fn lemma_absent_monotone(idx: Seq<Option<usize>>, a: int, b: int)
    requires
        0 <= a <= b <= 7,
        idx.len() == 7,
    ensures
        count_absent(idx, a) <= count_absent(idx, b),
    decreases b - a,
{
    if a < b {
        lemma_absent_monotone(idx, a, b - 1);
    }
}

proof fn lemma_before_grows(idx: Seq<Option<usize>>, p: int, q: int, n: int)
    requires
        idx.len() == 7,
        0 <= p < 7,
        0 <= q < 7,
        0 <= n <= 7,
        idx[p] is Some,
        ranks_before(idx, p, q),
    ensures
        count_before(idx, p, n) >= count_before(idx, q, n) + if q < n {
            1int
        } else {
            0int
        },
    decreases n,
{
    if n > 0 {
        lemma_before_grows(idx, p, q, n - 1);
        let r = n - 1;
        if ranks_before(idx, q, r) {
            assert(ranks_before(idx, p, r));
        }
        if r == q {
            assert(!ranks_before(idx, q, q));
        }
    }
}

proof fn lemma_absent_step(idx: Seq<Option<usize>>, a: int, b: int)
    requires
        idx.len() == 7,
        0 <= a < b <= 7,
        idx[a] is None,
    ensures
        count_absent(idx, b) >= count_absent(idx, a) + 1,
    decreases b - a,
{
    if b - 1 > a {
        lemma_absent_step(idx, a, b - 1);
    }
}

/// Different kinds always get different ranks: with the ranks below seven, a precedence
/// table orders the seven kinds without ties.
pub proof fn law_ranking_distinct(idx: Seq<Option<usize>>)
    requires
        idx.len() == 7,
    ensures
        forall|p: int, q: int| 0 <= p < q < 7 ==> #[trigger] ranking(idx)[p] != #[trigger] ranking(idx)[q],
        forall|p: int| 0 <= p < 7 ==> #[trigger] ranking(idx)[p] < 7,
{
    assert forall|p: int, q: int| 0 <= p < q < 7 implies #[trigger] ranking(idx)[p] != #[trigger] ranking(idx)[q] by {
        lemma_counts_bounded(idx, p, 7);
        lemma_counts_bounded(idx, q, 7);
        lemma_counts_bounded(idx, p, p);
        lemma_counts_bounded(idx, q, q);
        lemma_absent_monotone(idx, p, 7);
        lemma_absent_monotone(idx, q, 7);
        if idx[p] is Some && idx[q] is Some {
            if ranks_before(idx, p, q) {
                lemma_before_grows(idx, p, q, 7);
            } else {
                assert(ranks_before(idx, q, p));
                lemma_before_grows(idx, q, p, 7);
            }
        } else if idx[p] is None && idx[q] is None {
            lemma_absent_step(idx, p, q);
        }
    }
    assert forall|p: int| 0 <= p < 7 implies #[trigger] ranking(idx)[p] < 7 by {
        lemma_counts_bounded(idx, p, 7);
        lemma_counts_bounded(idx, p, p);
        lemma_absent_monotone(idx, p, 7);
        if idx[p] is None {
            lemma_counts_bounded(idx, p, p + 1);
            lemma_absent_monotone(idx, p + 1, 7);
        }
    }
}

/// Two placements of the kinds that present the same kinds in the same relative order.
pub open spec fn same_order(a: Seq<Option<usize>>, b: Seq<Option<usize>>) -> bool {
    &&& a.len() == 7
    &&& b.len() == 7
    &&& forall|p: int| 0 <= p < 7 ==> (#[trigger] a[p] is Some <==> b[p] is Some)
    &&& forall|p: int, q: int|
        0 <= p < 7 && 0 <= q < 7 && a[p] is Some && a[q] is Some ==> ((#[trigger] a[p]->0 < #[trigger] a[q]->0
            <==> b[p]->0 < b[q]->0) && (a[p]->0 == a[q]->0 <==> b[p]->0 == b[q]->0))
}

proof fn lemma_same_order_counts(a: Seq<Option<usize>>, b: Seq<Option<usize>>, p: int, n: int)
    requires
        same_order(a, b),
        0 <= p < 7,
        0 <= n <= 7,
    ensures
        a[p] is Some ==> count_before(a, p, n) == count_before(b, p, n),
        count_present(a, n) == count_present(b, n),
        count_absent(a, n) == count_absent(b, n),
    decreases n,
{
    if n > 0 {
        lemma_same_order_counts(a, b, p, n - 1);
        let r = n - 1;
        assert(a[r] is Some <==> b[r] is Some);
        if a[p] is Some && a[r] is Some {
            assert(a[r]->0 < a[p]->0 <==> b[r]->0 < b[p]->0);
            assert(a[r]->0 == a[p]->0 <==> b[r]->0 == b[p]->0);
            assert(ranks_before(a, p, r) == ranks_before(b, p, r));
        }
    }
}

/// A precedence table depends only on which kinds are placed and in what order: the
/// places themselves do not matter. So a list of kind names and a string of kind letters
/// in the same order give the same table.
pub proof fn law_ranking_by_order_only(a: Seq<Option<usize>>, b: Seq<Option<usize>>)
    requires
        same_order(a, b),
    ensures
        ranking(a) == ranking(b),
{
    assert forall|p: int| 0 <= p < 7 implies ranking(a)[p] == ranking(b)[p] by {
        lemma_same_order_counts(a, b, p, 7);
        lemma_same_order_counts(a, b, p, p);
        assert(a[p] is Some <==> b[p] is Some);
    }
    assert(ranking(a) =~= ranking(b));
}

/// The precedence table for the places `idx` (by position) of the kinds.
pub fn precedence_from_places(idx: &Vec<Option<usize>>) -> (p: Precedence)
    requires
        idx@.len() == 7,
    ensures
        p@ == ranking(idx@),
        ranks_in_range(p@),
{
    let t = [
        rank_exec(idx, 0),
        rank_exec(idx, 1),
        rank_exec(idx, 2),
        rank_exec(idx, 3),
        rank_exec(idx, 4),
        rank_exec(idx, 5),
        rank_exec(idx, 6),
    ];
    let p = Precedence(t);
    assert(p@ =~= ranking(idx@));
    p
}

// ---------------------------------------------------------------------------
// Providers

/// A source of the order of the kinds of page numbers.
pub trait PrecedenceProvider {
    /// Where the kind is placed by this provider, if at all.
    spec fn spec_precedence_index(&self, page_kind: IndexPageKind) -> Option<usize>;

    fn precedence_index(&self, page_kind: IndexPageKind) -> (r: Option<usize>)
        ensures
            r == self.spec_precedence_index(page_kind),
    ;

    /// The precedence table: the kinds that the provider places come first, in the order of
    /// their places, and the others follow in the fixed order of the kinds (see `ranking`).
    fn to_precedence(&self) -> (p: Precedence)
        default_ensures
            p@ == ranking(Seq::new(7, |q: int| self.spec_precedence_index(slot_kind(q)))),
    {
        let mut idx: Vec<Option<usize>> = Vec::new();
        idx.push(self.precedence_index(IndexPageKind::roman));
        idx.push(self.precedence_index(IndexPageKind::Arabic));
        idx.push(self.precedence_index(IndexPageKind::alpha));
        idx.push(self.precedence_index(IndexPageKind::Roman));
        idx.push(self.precedence_index(IndexPageKind::Alpha));
        idx.push(self.precedence_index(IndexPageKind::ZhDigits));
        idx.push(self.precedence_index(IndexPageKind::ZhNumber));
        assert(idx@ =~= Seq::new(7, |q: int| self.spec_precedence_index(slot_kind(q))));
        precedence_from_places(&idx)
    }
}

/// The letter that stands for a kind in a precedence string: r n a R A 串 数.
pub open spec fn kind_letter(k: IndexPageKind) -> char {
    match k {
        IndexPageKind::roman => 'r',
        IndexPageKind::Arabic => 'n',
        IndexPageKind::alpha => 'a',
        IndexPageKind::Roman => 'R',
        IndexPageKind::Alpha => 'A',
        IndexPageKind::ZhDigits => '\u{4e32}',
        IndexPageKind::ZhNumber => '\u{6570}',
    }
}

fn kind_letter_exec(k: IndexPageKind) -> (c: char)
    ensures
        c == kind_letter(k),
{
    match k {
        IndexPageKind::roman => 'r',
        IndexPageKind::Arabic => 'n',
        IndexPageKind::alpha => 'a',
        IndexPageKind::Roman => 'R',
        IndexPageKind::Alpha => 'A',
        IndexPageKind::ZhDigits => '\u{4e32}',
        IndexPageKind::ZhNumber => '\u{6570}',
    }
}

/// `i` is the first position of `c` in `s`.
pub open spec fn first_at(s: Seq<char>, c: char, i: int) -> bool {
    0 <= i < s.len() && s[i] == c && forall|j: int| 0 <= j < i ==> s[j] != c
}

/// The byte offset (in UTF-8) of the first `c` in `s`, if any.
pub open spec fn find_char(s: Seq<char>, c: char) -> Option<usize> {
    if exists|i: int| first_at(s, c, i) {
        Some(byte_len(s.take(choose|i: int| first_at(s, c, i))) as usize)
    } else {
        None
    }
}

/// Finds the byte offset of the first `c` in `s`.
pub fn find_char_exec(s: &str, c: char) -> (r: Option<usize>)
    ensures
        r == find_char(s@, c),
{
    let cs = s;
    let bytes = cs.as_bytes();
    let total = bytes.len();
    assert(cs@ == s@);
    assert(total == vstd::utf8::encode_utf8(cs@).len());
    let mut offset: usize = 0;
    let ghost chars = s@;
    proof {
        crate::text::lemma_byte_len_prefix_le(chars, 0);
        assert(chars.take(0) =~= Seq::<char>::empty());
    }
    for ch in it: cs.chars()
        invariant
            it.seq() == chars,
            chars == s@,
            total == byte_len(chars),
            offset == byte_len(chars.take(it.index() as int)),
            forall|j: int| 0 <= j < it.index() ==> chars[j] != c,
    {
        let ghost i: int = it.index() as int;
        assert(chars[i] == ch);
        if ch == c {
            proof {
                assert(first_at(chars, c, i));
                assert forall|k: int| first_at(chars, c, k) implies k == i by {
                    if k < i {
                        assert(chars[k] != c);
                    }
                    if k > i {
                        assert(chars[i] != c);
                    }
                }
            }
            return Some(offset);
        }
        proof {
            lemma_byte_len_push(chars, i);
            crate::text::lemma_byte_len_prefix_le(chars, i + 1);
        }
        offset = offset + utf8_char_len(ch);
    }
    proof {
        assert forall|k: int| !first_at(chars, c, k) by {
            if 0 <= k < chars.len() {
                assert(chars[k] != c);
            }
        }
    }
    None
}

/// A precedence string, such as `"rnaRA"`: each kind is placed where its letter
/// (r n a R A 串 数) first occurs.
pub struct StringPrecedence(pub String);

impl PrecedenceProvider for StringPrecedence {
    open spec fn spec_precedence_index(&self, page_kind: IndexPageKind) -> Option<usize> {
        find_char(self.0@, kind_letter(page_kind))
    }

    fn precedence_index(&self, page_kind: IndexPageKind) -> (r: Option<usize>) {
        find_char_exec(self.0.as_str(), kind_letter_exec(page_kind))
    }
}

/// The position of the first name in `names` equal to `n`, if any.
pub open spec fn find_name(names: Seq<Seq<char>>, n: Seq<char>) -> Option<usize> {
    if exists|i: int| 0 <= i < names.len() && names[i] == n {
        Some(
            (choose|i: int|
                0 <= i < names.len() && names[i] == n && forall|j: int|
                    0 <= j < i ==> names[j] != n) as usize,
        )
    } else {
        None
    }
}

fn kind_name_string(k: IndexPageKind) -> (s: String)
    ensures
        s@ == crate::page::kind_name(k),
{
    let lit: &str = match k {
        IndexPageKind::Arabic => "Arabic",
        IndexPageKind::roman => "roman",
        IndexPageKind::Roman => "Roman",
        IndexPageKind::alpha => "alpha",
        IndexPageKind::Alpha => "Alpha",
        IndexPageKind::ZhDigits => "ZhDigits",
        IndexPageKind::ZhNumber => "ZhNumber",
    };
    lit.to_owned()
}

/// A list of kind names, such as `["roman", "Arabic", "alpha", "Roman", "Alpha"]`:
/// each kind is placed where its name first occurs.
pub struct IteratorPrecedence(pub Vec<String>);

/// Finds the position of the first name equal to `n`.
fn find_name_exec(names: &Vec<String>, n: &String) -> (r: Option<usize>)
    ensures
        r == find_name(names.deep_view(), n@),
{
    let ghost dv = names.deep_view();
    let mut i: usize = 0;
    while i < names.len()
        invariant
            i <= names@.len(),
            dv == names.deep_view(),
            dv.len() == names@.len(),
            forall|j: int| 0 <= j < i ==> dv[j] != n@,
        decreases names@.len() - i,
    {
        assert(dv[i as int] == names@[i as int]@);
        if names[i] == *n {
            proof {
                let w = choose|k: int|
                    0 <= k < dv.len() && dv[k] == n@ && forall|j: int| 0 <= j < k ==> dv[j] != n@;
                assert(0 <= i < dv.len() && dv[i as int] == n@ && forall|j: int|
                    0 <= j < i ==> dv[j] != n@);
                if w < i {
                    assert(dv[w] != n@);
                }
                if w > i {
                    assert(dv[i as int] != n@);
                }
            }
            return Some(i);
        }
        i = i + 1;
    }
    None
}

impl PrecedenceProvider for IteratorPrecedence {
    open spec fn spec_precedence_index(&self, page_kind: IndexPageKind) -> Option<usize> {
        find_name(self.0.deep_view(), crate::page::kind_name(page_kind))
    }

    fn precedence_index(&self, page_kind: IndexPageKind) -> (r: Option<usize>) {
        let n = kind_name_string(page_kind);
        find_name_exec(&self.0, &n)
    }
}

/// A precedence table given directly, by position (see `kind_slot`).
pub struct TablePrecedence(pub [u8; 7]);

impl PrecedenceProvider for TablePrecedence {
    open spec fn spec_precedence_index(&self, page_kind: IndexPageKind) -> Option<usize> {
        Some(self.0@[kind_slot(page_kind)] as usize)
    }

    fn precedence_index(&self, page_kind: IndexPageKind) -> (r: Option<usize>) {
        let prec = match page_kind {
            IndexPageKind::roman => self.0[0],
            IndexPageKind::Arabic => self.0[1],
            IndexPageKind::alpha => self.0[2],
            IndexPageKind::Roman => self.0[3],
            IndexPageKind::Alpha => self.0[4],
            IndexPageKind::ZhDigits => self.0[5],
            IndexPageKind::ZhNumber => self.0[6],
        };
        Some(prec as usize)
    }

    fn to_precedence(&self) -> (p: Precedence)
        ensures
            p@ == self.0@,
    {
        Precedence(self.0)
    }
}

/// A precedence string given directly, such as `"rnaRA"`.
impl PrecedenceProvider for str {
    open spec fn spec_precedence_index(&self, page_kind: IndexPageKind) -> Option<usize> {
        find_char(self@, kind_letter(page_kind))
    }

    fn precedence_index(&self, page_kind: IndexPageKind) -> (r: Option<usize>) {
        find_char_exec(self, kind_letter_exec(page_kind))
    }
}

/// A precedence string held as a `String`.
impl PrecedenceProvider for String {
    open spec fn spec_precedence_index(&self, page_kind: IndexPageKind) -> Option<usize> {
        find_char(self@, kind_letter(page_kind))
    }

    fn precedence_index(&self, page_kind: IndexPageKind) -> (r: Option<usize>) {
        find_char_exec(self.as_str(), kind_letter_exec(page_kind))
    }
}

} // verus!
