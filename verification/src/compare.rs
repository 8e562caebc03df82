use vstd::prelude::*;

use crate::page::{IndexPage, IndexPageKind};
use crate::precedence::{kind_slot, Precedence};

verus! {

/// How two composite page numbers compare. `*Same` means that their last components
/// are of kinds of the same rank; `*Other` covers every other case of unequal pages.
#[derive(Debug, Clone, Copy, PartialEq, Eq, Structural)]
pub enum PageOrder {
    LessOther,
    LessSame,
    Equal,
    GreaterSame,
    GreaterOther,
}

/// The same relation seen from the other side.
pub open spec fn flip(o: PageOrder) -> PageOrder {
    match o {
        PageOrder::LessOther => PageOrder::GreaterOther,
        PageOrder::LessSame => PageOrder::GreaterSame,
        PageOrder::Equal => PageOrder::Equal,
        PageOrder::GreaterSame => PageOrder::LessSame,
        PageOrder::GreaterOther => PageOrder::LessOther,
    }
}

/// Less or equal.
pub open spec fn is_le(o: PageOrder) -> bool {
    o == PageOrder::LessOther || o == PageOrder::LessSame || o == PageOrder::Equal
}

/// Strictly less.
pub open spec fn is_lt(o: PageOrder) -> bool {
    o == PageOrder::LessOther || o == PageOrder::LessSame
}

/// The rank that the table `t` gives to the kind of `p`.
pub open spec fn page_rank(t: Seq<u8>, p: IndexPage) -> int {
    t[kind_slot(p.kind)] as int
}

/// Compares two components by (rank, value): -1, 0 or 1.
pub open spec fn key_order(t: Seq<u8>, a: IndexPage, b: IndexPage) -> int {
    let ra = page_rank(t, a);
    let rb = page_rank(t, b);
    if ra < rb {
        -1
    } else if ra > rb {
        1
    } else if a.value < b.value {
        -1
    } else if a.value > b.value {
        1
    } else {
        0
    }
}

/// Compares two non-empty composite pages when all components before the last ones agree:
/// the shorter comes first; at equal length, the last components decide.
pub open spec fn tail_order(t: Seq<u8>, l: Seq<IndexPage>, r: Seq<IndexPage>) -> PageOrder {
    if l.len() < r.len() {
        PageOrder::LessOther
    } else if l.len() > r.len() {
        PageOrder::GreaterOther
    } else {
        let a = l.last();
        let b = r.last();
        let same = page_rank(t, a) == page_rank(t, b);
        let k = key_order(t, a, b);
        if k < 0 {
            if same {
                PageOrder::LessSame
            } else {
                PageOrder::LessOther
            }
        } else if k == 0 {
            PageOrder::Equal
        } else {
            if same {
                PageOrder::GreaterSame
            } else {
                PageOrder::GreaterOther
            }
        }
    }
}

/// Compares the components at `i` and on that both pages have before their last ones.
pub open spec fn prefix_order(t: Seq<u8>, l: Seq<IndexPage>, r: Seq<IndexPage>, i: int) -> PageOrder
    decreases l.len() - i,
{
    if 0 <= i && i < l.len() - 1 && i < r.len() - 1 {
        let k = key_order(t, l[i], r[i]);
        if k < 0 {
            PageOrder::LessOther
        } else if k > 0 {
            PageOrder::GreaterOther
        } else {
            prefix_order(t, l, r, i + 1)
        }
    } else {
        tail_order(t, l, r)
    }
}

/// How the composite page `l` compares to `r` under the precedence table `t`:
/// an empty page comes first; otherwise the components before the last ones are
/// compared in turn, then the lengths, then the last components.
pub open spec fn page_order(t: Seq<u8>, l: Seq<IndexPage>, r: Seq<IndexPage>) -> PageOrder {
    if l.len() == 0 && r.len() == 0 {
        PageOrder::Equal
    } else if l.len() == 0 {
        PageOrder::LessOther
    } else if r.len() == 0 {
        PageOrder::GreaterOther
    } else {
        prefix_order(t, l, r, 0)
    }
}

/// Compares composite page numbers under a precedence table.
#[derive(Debug, Clone, Copy)]
pub struct PageComparator {
    table: [u8; 7],
}

impl View for PageComparator {
    type V = Seq<u8>;

    closed spec fn view(&self) -> Seq<u8> {
        self.table@
    }
}

/// The comparator for a precedence table.
pub fn get_page_cmp(prec_table: Precedence) -> (c: PageComparator)
    ensures
        c@ == prec_table@,
{
    PageComparator { table: prec_table.table() }
}

impl PageComparator {
    fn rank_of(&self, p: &IndexPage) -> (r: u8)
        ensures
            r == page_rank(self@, *p),
    {
        match p.kind {
            IndexPageKind::roman => self.table[0],
            IndexPageKind::Arabic => self.table[1],
            IndexPageKind::alpha => self.table[2],
            IndexPageKind::Roman => self.table[3],
            IndexPageKind::Alpha => self.table[4],
            IndexPageKind::ZhDigits => self.table[5],
            IndexPageKind::ZhNumber => self.table[6],
        }
    }

    fn key(&self, a: &IndexPage, b: &IndexPage) -> (k: i8)
        ensures
            k == key_order(self@, *a, *b),
    {
        let ra = self.rank_of(a);
        let rb = self.rank_of(b);
        if ra < rb {
            -1
        } else if ra > rb {
            1
        } else if a.value < b.value {
            -1
        } else if a.value > b.value {
            1
        } else {
            0
        }
    }

    /// Compares the composite pages `lhs` and `rhs`.
    pub fn compare(&self, lhs: &[IndexPage], rhs: &[IndexPage]) -> (o: PageOrder)
        ensures
            o == page_order(self@, lhs@, rhs@),
    {
        if lhs.len() == 0 && rhs.len() == 0 {
            return PageOrder::Equal;
        }
        if lhs.len() == 0 {
            return PageOrder::LessOther;
        }
        if rhs.len() == 0 {
            return PageOrder::GreaterOther;
        }
        let mut i: usize = 0;
        while i < lhs.len() - 1 && i < rhs.len() - 1
            invariant
                lhs@.len() > 0,
                rhs@.len() > 0,
                i <= lhs@.len(),
                prefix_order(self@, lhs@, rhs@, 0) == prefix_order(self@, lhs@, rhs@, i as int),
            decreases lhs@.len() - i,
        {
            let k = self.key(&lhs[i], &rhs[i]);
            if k < 0 {
                return PageOrder::LessOther;
            } else if k > 0 {
                return PageOrder::GreaterOther;
            }
            i = i + 1;
        }
        if lhs.len() < rhs.len() {
            return PageOrder::LessOther;
        }
        if lhs.len() > rhs.len() {
            return PageOrder::GreaterOther;
        }
        let a = &lhs[lhs.len() - 1];
        let b = &rhs[rhs.len() - 1];
        let same = self.rank_of(a) == self.rank_of(b);
        let k = self.key(a, b);
        if k < 0 {
            if same {
                PageOrder::LessSame
            } else {
                PageOrder::LessOther
            }
        } else if k == 0 {
            PageOrder::Equal
        } else {
            if same {
                PageOrder::GreaterSame
            } else {
                PageOrder::GreaterOther
            }
        }
    }
}

// ---------------------------------------------------------------------------
// Laws of the page order

proof fn lemma_prefix_reflexive(t: Seq<u8>, l: Seq<IndexPage>, i: int)
    requires
        l.len() > 0,
        0 <= i,
    ensures
        prefix_order(t, l, l, i) == PageOrder::Equal,
    decreases l.len() - i,
{
    if i < l.len() - 1 {
        lemma_prefix_reflexive(t, l, i + 1);
    }
}

/// Every composite page is equal to itself.
pub proof fn law_page_order_reflexive(t: Seq<u8>, l: Seq<IndexPage>)
    ensures
        page_order(t, l, l) == PageOrder::Equal,
{
    if l.len() > 0 {
        lemma_prefix_reflexive(t, l, 0);
    }
}

proof fn lemma_prefix_flip(t: Seq<u8>, l: Seq<IndexPage>, r: Seq<IndexPage>, i: int)
    requires
        l.len() > 0,
        r.len() > 0,
        0 <= i,
    ensures
        prefix_order(t, r, l, i) == flip(prefix_order(t, l, r, i)),
    decreases l.len() - i,
{
    if i < l.len() - 1 && i < r.len() - 1 {
        lemma_prefix_flip(t, l, r, i + 1);
    }
}

/// Comparing the other way round gives the flipped result.
pub proof fn law_page_order_flip(t: Seq<u8>, l: Seq<IndexPage>, r: Seq<IndexPage>)
    ensures
        page_order(t, r, l) == flip(page_order(t, l, r)),
{
    if l.len() > 0 && r.len() > 0 {
        lemma_prefix_flip(t, l, r, 0);
    }
}

proof fn lemma_prefix_transitive(
    t: Seq<u8>,
    a: Seq<IndexPage>,
    b: Seq<IndexPage>,
    c: Seq<IndexPage>,
    i: int,
)
    requires
        a.len() > 0,
        b.len() > 0,
        c.len() > 0,
        0 <= i,
        is_le(prefix_order(t, a, b, i)),
        is_le(prefix_order(t, b, c, i)),
    ensures
        is_le(prefix_order(t, a, c, i)),
        is_lt(prefix_order(t, a, b, i)) ==> is_lt(prefix_order(t, a, c, i)),
        is_lt(prefix_order(t, b, c, i)) ==> is_lt(prefix_order(t, a, c, i)),
    decreases a.len() - i,
{
    if i < a.len() - 1 && i < b.len() - 1 && i < c.len() - 1 {
        if key_order(t, a[i], b[i]) == 0 && key_order(t, b[i], c[i]) == 0 {
            lemma_prefix_transitive(t, a, b, c, i + 1);
        }
    }
}

/// The page order is transitive: it is a total preorder, together with the
/// reflexivity and the flip laws.
pub proof fn law_page_order_transitive(
    t: Seq<u8>,
    a: Seq<IndexPage>,
    b: Seq<IndexPage>,
    c: Seq<IndexPage>,
)
    requires
        is_le(page_order(t, a, b)),
        is_le(page_order(t, b, c)),
    ensures
        is_le(page_order(t, a, c)),
        is_lt(page_order(t, a, b)) ==> is_lt(page_order(t, a, c)),
        is_lt(page_order(t, b, c)) ==> is_lt(page_order(t, a, c)),
{
    if a.len() > 0 && b.len() > 0 && c.len() > 0 {
        lemma_prefix_transitive(t, a, b, c, 0);
    }
}

proof fn lemma_prefix_equal_heads(t: Seq<u8>, l: Seq<IndexPage>, r: Seq<IndexPage>, i: int)
    requires
        l.len() == r.len(),
        l.len() >= 1,
        0 <= i,
        forall|j: int| 0 <= j < l.len() - 1 ==> #[trigger] l[j] == r[j],
    ensures
        prefix_order(t, l, r, i) == tail_order(t, l, r),
    decreases l.len() - i,
{
    if i < l.len() - 1 {
        assert(l[i] == r[i]);
        lemma_prefix_equal_heads(t, l, r, i + 1);
    }
}

/// Two composite pages of the same length that agree before their last components compare
/// by their last components: equal where those are of equal rank and value; otherwise less
/// or greater by (rank, value), marked `Same` exactly where the two ranks are the same,
/// whatever the length.
pub proof fn law_last_components_decide(t: Seq<u8>, l: Seq<IndexPage>, r: Seq<IndexPage>)
    requires
        l.len() == r.len(),
        l.len() >= 1,
        forall|j: int| 0 <= j < l.len() - 1 ==> #[trigger] l[j] == r[j],
    ensures
        ({
            let a = l.last();
            let b = r.last();
            let same = page_rank(t, a) == page_rank(t, b);
            let less = page_rank(t, a) < page_rank(t, b) || (same && a.value < b.value);
            let greater = page_rank(t, a) > page_rank(t, b) || (same && a.value > b.value);
            page_order(t, l, r) == if less {
                if same {
                    PageOrder::LessSame
                } else {
                    PageOrder::LessOther
                }
            } else if greater {
                if same {
                    PageOrder::GreaterSame
                } else {
                    PageOrder::GreaterOther
                }
            } else {
                PageOrder::Equal
            }
        }),
{
    lemma_prefix_equal_heads(t, l, r, 0);
}

} // verus!
