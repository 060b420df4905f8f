pub mod keys;
pub mod value;
pub mod pager;
pub mod bptree;
pub mod removal;
pub mod pages;
pub mod schema;
pub mod db;
pub mod catalog;
pub mod validate;
