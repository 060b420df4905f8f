//! Free pages: pages on the free list, holding only a header that names
//! the next free page.

use vstd::prelude::*;
use crate::store::pages::page::{PageId, PageType, PageHeader};

verus! {

/// A page that holds nothing and waits on the free list.
#[derive(Debug, PartialEq)]
pub struct FreePage(pub PageHeader);

impl FreePage {
    /// A free page with no successor on the free list.
    pub fn new(id: PageId) -> (r: FreePage)
        ensures
            r.0 == (PageHeader { id, pagetype: PageType::Free, next: None, slots: 0, lower: 0, upper: 0 }),
    {
        FreePage(PageHeader { id, pagetype: PageType::Free, next: None, slots: 0, lower: 0, upper: 0 })
    }

    /// Cuts the page off the rest of the free list.
    pub fn sever(&mut self)
        ensures
            final(self).0 == (PageHeader { next: None, ..old(self).0 }),
    {
        self.0.next = None;
    }
}

} // verus!
