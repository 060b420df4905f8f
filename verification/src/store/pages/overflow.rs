//! Overflow pages: the part of a row that did not fit on its data page.

use vstd::prelude::*;
use crate::store::pages::page::{PageId, PageHeader};

verus! {

/// A page holding the continuation of a row, and the page it goes on to.
#[derive(Debug, PartialEq)]
pub struct OverflowPage {
    pub header: PageHeader,
    pub next: Option<PageId>,
    pub data: Vec<u8>,
}

} // verus!
