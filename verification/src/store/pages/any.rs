//! A page of any type, as a read of an unknown page gives it.

use vstd::prelude::*;
use crate::store::pages::page::{PageId, PageType};
use crate::store::pages::leaf::LeafPage;
use crate::store::pages::branch::BranchPage;
use crate::store::pages::data::DataPage;
use crate::store::pages::overflow::OverflowPage;
use crate::store::pages::free::FreePage;

verus! {

/// A page, whichever type it is.
pub enum AnyPage {
    Leaf(LeafPage),
    Branch(BranchPage),
    Data(DataPage),
    OverFlow(OverflowPage),
    Free(FreePage),
}

impl AnyPage {
    /// The page's type.
    pub fn pagetype(&self) -> (r: PageType)
        ensures
            r == match self {
                AnyPage::Leaf(_) => PageType::Leaf,
                AnyPage::Branch(_) => PageType::Branch,
                AnyPage::Data(_) => PageType::Data,
                AnyPage::OverFlow(_) => PageType::Overflow,
                AnyPage::Free(_) => PageType::Free,
            },
    {
        match self {
            AnyPage::Leaf(_) => PageType::Leaf,
            AnyPage::Branch(_) => PageType::Branch,
            AnyPage::Data(_) => PageType::Data,
            AnyPage::OverFlow(_) => PageType::Overflow,
            AnyPage::Free(_) => PageType::Free,
        }
    }

    /// The page's number, from its header.
    pub fn id(&self) -> (r: PageId)
        ensures
            r == match self {
                AnyPage::Leaf(l) => l.header.id,
                AnyPage::Branch(b) => b.header.id,
                AnyPage::Data(d) => d.header.id,
                AnyPage::OverFlow(o) => o.header.id,
                AnyPage::Free(f) => f.0.id,
            },
    {
        match self {
            AnyPage::Leaf(l) => l.header.id,
            AnyPage::Branch(b) => b.header.id,
            AnyPage::Data(d) => d.header.id,
            AnyPage::OverFlow(o) => o.header.id,
            AnyPage::Free(f) => f.0.id,
        }
    }
}

} // verus!
