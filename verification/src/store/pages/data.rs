//! Data pages: the rows themselves, each in a slot of its own.

use vstd::prelude::*;
use crate::store::pages::page::{PageId, PageType, PageHeader, PAGE_SIZE, PAGEHEADER_SIZE};

verus! {

/// A page of rows, with the page its rows continue on, if any.
#[derive(Debug, PartialEq)]
pub struct DataPage {
    pub header: PageHeader,
    pub data: Vec<Vec<u8>>,
    pub overflow: Option<PageId>,
}

impl DataPage {
    /// An empty data page: no slots, its directory ending right after the
    /// header and its contents starting at the end of the page.
    pub fn new(id: PageId) -> (r: DataPage)
        ensures
            r.header == (PageHeader {
                id,
                pagetype: PageType::Data,
                next: None,
                slots: 0,
                lower: PAGEHEADER_SIZE as u16,
                upper: PAGE_SIZE as u16,
            }),
            r.data@.len() == 0,
            r.overflow is None,
    {
        let header = PageHeader {
            id,
            pagetype: PageType::Data,
            next: None,
            slots: 0,
            lower: PAGEHEADER_SIZE as u16,
            upper: PAGE_SIZE as u16,
        };
        DataPage { header, data: Vec::new(), overflow: None }
    }
}

} // verus!
