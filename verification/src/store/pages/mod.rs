//! Slotted pages: each page holds a header, a directory of slots growing
//! from the front, and the slots' contents growing from the back.

pub mod page;
pub mod leaf;
pub mod branch;
pub mod free;
pub mod data;
pub mod dbheader;
pub mod overflow;
pub mod any;
pub mod file_header;
pub mod read;

pub use file_header::DbHeader;

