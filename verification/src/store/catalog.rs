//! The catalog: the tables of the database, with the two tables that
//! describe all tables built in.

use vstd::prelude::*;
use std::collections::HashMap;
use crate::store::bptree::BpTree;
use crate::store::schema::{Schema, Type};

verus! {

/// Root page of the table of tables.
pub const CLASS_ROOT: usize = 1;
/// Id of the table of tables.
pub const CLASS_TID: usize = 1;
/// Root page of the table of columns.
pub const ATTRIBUTE_ROOT: usize = 2;
/// Id of the table of columns.
pub const ATTRIBUTE_TID: usize = 2;
/// Id of the first table a user creates.
pub const FIRST_TID: usize = 3;

/// The tables of the database by id, and the id the next table gets.
pub struct Catalog {
    pub tables: HashMap<usize, BpTree>,
    pub next_oid: usize,
}

/// The layout of the table of tables: its id, root page and active data page.
pub fn class_schema() -> (r: Schema)
    ensures
        r.types() == seq![Type::Uint, Type::Uint, Type::Uint],
        r.0@[0].name@ == "tid"@,
        r.0@[1].name@ == "root_page"@,
        r.0@[2].name@ == "active_data"@,
{
    let cols: [(&str, Type); 3] = [("tid", Type::Uint), ("root_page", Type::Uint), ("active_data", Type::Uint)];
    let r = Schema::from_static(cols.as_slice());
    assert(r.types() =~= seq![Type::Uint, Type::Uint, Type::Uint]);
    r
}

/// The layout of the table of columns: the table's id, the column's number,
/// name and type, and whether it is a key, may not be null, or was dropped.
pub fn attribute_schema() -> (r: Schema)
    ensures
        r.types() == seq![Type::Uint, Type::Uint, Type::Text, Type::Uint, Type::Bool, Type::Bool, Type::Bool],
        r.0@[0].name@ == "tid"@,
        r.0@[1].name@ == "attnum"@,
        r.0@[2].name@ == "name"@,
        r.0@[3].name@ == "ty"@,
        r.0@[4].name@ == "is_key"@,
        r.0@[5].name@ == "not_null"@,
        r.0@[6].name@ == "is_dead"@,
{
    let cols: [(&str, Type); 7] = [
        ("tid", Type::Uint),
        ("attnum", Type::Uint),
        ("name", Type::Text),
        ("ty", Type::Uint),
        ("is_key", Type::Bool),
        ("not_null", Type::Bool),
        ("is_dead", Type::Bool),
    ];
    let r = Schema::from_static(cols.as_slice());
    assert(r.types() =~= seq![Type::Uint, Type::Uint, Type::Text, Type::Uint, Type::Bool, Type::Bool, Type::Bool]);
    r
}

} // verus!
