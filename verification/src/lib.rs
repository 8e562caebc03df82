use vstd::prelude::*;

pub mod compare;
pub mod entry;
pub mod escape;
pub mod ikv;
pub mod merge;
pub mod page;
pub mod precedence;
pub mod reader;
pub mod render;
pub mod scan;
pub mod strokes;
pub mod strref;
pub mod style;
pub mod text;

pub use compare::{get_page_cmp, PageComparator, PageOrder};
pub use entry::{EntryError, IndexEntry, RangeKind};
pub use merge::{merge_entries, MergedEntry, MergedPage, MergedPages, MergedPagesBuilder};
pub use page::{IndexPage, IndexPageKind, PageError};
pub use precedence::{
    IteratorPrecedence, Precedence, PrecedenceProvider as PagePrecedenceProvider, StringPrecedence,
    TablePrecedence,
};
pub use style::{IstFile, IstInputStyle, IstOutputStyle};

verus! {
} // verus!
