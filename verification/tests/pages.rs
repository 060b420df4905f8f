use database::errors::{StoreErr, UserErr};
use database::store::pages::page::{PageId, PageType, PageHeader, PageCursor, Rid};
use database::store::pages::leaf::LeafPage;
use database::store::pages::branch::BranchPage;
use database::store::pages::free::FreePage;
use database::store::pages::data::DataPage;
use database::store::pages::dbheader::DbHeader;
use database::store::pages::DbHeader as FileHeader;
use database::store::pages::overflow::OverflowPage;
use database::store::pages::any::AnyPage;
use database::store::pages::read::read_str;

fn pid(n: usize) -> PageId {
    PageId::new(n).unwrap()
}

#[test]
fn insert() {
    let mut leaf = LeafPage::new(pid(1),
        vec!["akey".into()],
        vec![Rid { page: pid(3), slot: 1 }],
        None);

    leaf.insert("anotherkey", Rid { page: pid(4), slot: 2 });

    let new_leaf = LeafPage::new(pid(1),
        vec!["akey".into(), "anotherkey".into()],
        vec![Rid { page: pid(3), slot: 1 },
            Rid { page: pid(4), slot: 2 }],
        None);

    assert_eq!(leaf, new_leaf);
}

#[test]
fn get_slot() {
}

#[test]
fn page_id_zero_is_none() {
    assert_eq!(PageId::new(0), None);
    assert_eq!(pid(7).get(), 7);
}

#[test]
fn leaf_header_is_sized_for_its_keys() {
    let leaf = LeafPage::new(pid(1), vec!["ab".into(), "cde".into()],
        vec![Rid { page: pid(2), slot: 0 }, Rid { page: pid(3), slot: 0 }], Some(pid(9)));
    assert_eq!(leaf.header().slots, 3);
    assert_eq!(leaf.header().lower, 30 + 3 * 4);
    assert_eq!(leaf.header().upper, (4096 - (2 + 10) - (3 + 10) - 8) as u16);
    assert_eq!(leaf.header().pagetype, PageType::Leaf);
    assert_eq!(leaf.next_leaf, Some(pid(9)));
}

#[test]
fn leaf_insert_existing_key_replaces_its_rid() {
    let mut leaf = LeafPage::new(pid(1), vec!["a".into(), "c".into()],
        vec![Rid { page: pid(2), slot: 0 }, Rid { page: pid(3), slot: 0 }], None);
    let before = leaf.header;
    let old = leaf.insert("c", Rid { page: pid(5), slot: 7 });
    assert_eq!(old, Some(Rid { page: pid(3), slot: 0 }));
    assert_eq!(leaf.rids[1], Rid { page: pid(5), slot: 7 });
    assert_eq!(leaf.header, before);
}

#[test]
fn leaf_insert_keeps_keys_sorted() {
    let mut leaf = LeafPage::new(pid(1), vec!["a".into(), "c".into()],
        vec![Rid { page: pid(2), slot: 0 }, Rid { page: pid(3), slot: 0 }], None);
    assert_eq!(leaf.insert("b", Rid { page: pid(4), slot: 0 }), None);
    assert_eq!(leaf.keys, vec!["a".to_string(), "b".to_string(), "c".to_string()]);
    assert_eq!(leaf.rids[1], Rid { page: pid(4), slot: 0 });
}

#[test]
fn leaf_delete_gives_back_the_rid() {
    let mut leaf = LeafPage::new(pid(1), vec!["a".into(), "b".into()],
        vec![Rid { page: pid(2), slot: 0 }, Rid { page: pid(3), slot: 1 }], None);
    assert_eq!(leaf.delete("b"), Ok(Rid { page: pid(3), slot: 1 }));
    let expected = LeafPage::new(pid(1), vec!["a".into()], vec![Rid { page: pid(2), slot: 0 }], None);
    assert_eq!(leaf, expected);
    assert_eq!(leaf.delete("zz"), Err(UserErr::NoRID("zz".to_string())));
}

#[test]
fn leaf_borrow_from_left_takes_the_last_key() {
    let mut leaf = LeafPage::new(pid(2), vec!["m".into()], vec![Rid { page: pid(9), slot: 0 }], None);
    let mut left = LeafPage::new(pid(1), vec!["a".into(), "b".into()],
        vec![Rid { page: pid(5), slot: 0 }, Rid { page: pid(6), slot: 0 }], Some(pid(2)));
    let key = leaf.borrow_from(&mut left, true);
    assert_eq!(key, "b".to_string());
    assert_eq!(leaf.keys, vec!["b".to_string(), "m".to_string()]);
    assert_eq!(left.keys, vec!["a".to_string()]);
    assert_eq!(leaf.header.slots, 3);
    assert_eq!(left.header.slots, 2);
}

#[test]
fn leaf_borrow_from_right_moves_the_first_key() {
    let mut leaf = LeafPage::new(pid(1), vec!["a".into()], vec![Rid { page: pid(5), slot: 0 }], None);
    let mut right = LeafPage::new(pid(2), vec!["m".into(), "n".into(), "o".into()],
        vec![Rid { page: pid(6), slot: 0 }, Rid { page: pid(7), slot: 0 }, Rid { page: pid(8), slot: 0 }], None);
    let key = leaf.borrow_from(&mut right, false);
    assert_eq!(key, "n".to_string());
    assert_eq!(leaf.keys, vec!["a".to_string(), "m".to_string()]);
    assert_eq!(leaf.rids, vec![Rid { page: pid(5), slot: 0 }, Rid { page: pid(6), slot: 0 }]);
    assert_eq!(right.keys, vec!["n".to_string(), "o".to_string()]);
    assert_eq!(right.rids, vec![Rid { page: pid(7), slot: 0 }, Rid { page: pid(8), slot: 0 }]);
}

#[test]
fn leaf_merge_appends_and_takes_next() {
    let mut leaf = LeafPage::new(pid(1), vec!["a".into()], vec![Rid { page: pid(5), slot: 0 }], Some(pid(2)));
    let other = LeafPage::new(pid(2), vec!["b".into()], vec![Rid { page: pid(6), slot: 0 }], Some(pid(3)));
    leaf.merge(other);
    let expected = LeafPage::new(pid(1), vec!["a".into(), "b".into()],
        vec![Rid { page: pid(5), slot: 0 }, Rid { page: pid(6), slot: 0 }], Some(pid(3)));
    assert_eq!(leaf, expected);
}

#[test]
fn leaf_refresh_header_matches_new() {
    let mut leaf = LeafPage::new(pid(1), vec![], vec![], None);
    leaf.keys.push("abc".to_string());
    leaf.rids.push(Rid { page: pid(2), slot: 0 });
    leaf.refresh_header();
    let expected = LeafPage::new(pid(1), vec!["abc".into()], vec![Rid { page: pid(2), slot: 0 }], None);
    assert_eq!(leaf.header, expected.header);
}

#[test]
fn branch_header_is_sized_for_its_keys() {
    let branch = BranchPage::new(pid(1), vec!["akey".into()], vec![pid(2), pid(3)]);
    assert_eq!(branch.header.slots, 2);
    assert_eq!(branch.header.lower, 8);
    assert_eq!(branch.header.upper, (4096 - (4 + 8) - 8) as u16);
    assert_eq!(branch.header.pagetype, PageType::Branch);
}

#[test]
fn branch_borrow_rotates_through_the_separator() {
    let mut b = BranchPage::new(pid(1), vec!["m".into()], vec![pid(2), pid(3)]);
    let mut right = BranchPage::new(pid(4), vec!["x".into(), "y".into()], vec![pid(5), pid(6), pid(7)]);
    let key = b.borrow_from(&mut right, false, "pq".to_string());
    assert_eq!(key, "x".to_string());
    assert_eq!(b.keys, vec!["m".to_string(), "pq".to_string()]);
    assert_eq!(b.children, vec![pid(2), pid(3), pid(5)]);
    assert_eq!(right.keys, vec!["y".to_string()]);
    assert_eq!(right.children, vec![pid(6), pid(7)]);
    assert_eq!(b.header.slots, 3);
    assert_eq!(right.header.slots, 2);
    assert_eq!(b.header.upper, (4096 - (1 + 8) - 8 - (8 + 2)) as u16);
}

#[test]
fn branch_borrow_from_left_puts_the_separator_first() {
    let mut b = BranchPage::new(pid(1), vec!["x".into()], vec![pid(5), pid(6)]);
    let mut left = BranchPage::new(pid(4), vec!["a".into(), "c".into()], vec![pid(2), pid(3), pid(7)]);
    let key = b.borrow_from(&mut left, true, "m".to_string());
    assert_eq!(key, "c".to_string());
    assert_eq!(b.keys, vec!["m".to_string(), "x".to_string()]);
    assert_eq!(b.children, vec![pid(7), pid(5), pid(6)]);
    assert_eq!(left.keys, vec!["a".to_string()]);
    assert_eq!(left.children, vec![pid(2), pid(3)]);
}

#[test]
fn branch_merge_of_keyless_branches() {
    let mut b = BranchPage::new(pid(1), vec![], vec![pid(2)]);
    let other = BranchPage::new(pid(3), vec![], vec![pid(4)]);
    b.merge(other);
    assert_eq!(b.children, vec![pid(2), pid(4)]);
    assert_eq!(b.header.slots, 3);
    assert_eq!(b.header.lower, 12);
    assert_eq!(b.header.upper, 0);
}

#[test]
fn free_page_sever_cuts_the_list() {
    let mut f = FreePage::new(pid(4));
    assert_eq!(f.0.pagetype, PageType::Free);
    f.0.next = Some(pid(5));
    f.sever();
    assert_eq!(f.0.next, None);
    assert_eq!(f.0.id, pid(4));
}

#[test]
fn data_page_starts_empty() {
    let d = DataPage::new(pid(6));
    assert_eq!(d.header.lower, 30);
    assert_eq!(d.header.upper, 4096);
    assert_eq!(d.header.slots, 0);
    assert!(d.data.is_empty());
    assert_eq!(d.overflow, None);
}

#[test]
fn page_header_roundtrip() {
    let h = PageHeader { id: pid(3), pagetype: PageType::Leaf, next: Some(pid(8)), slots: 4, lower: 46, upper: 4000 };
    let bytes = h.serialize();
    assert_eq!(bytes.len(), 30);
    assert_eq!(PageHeader::deserialize(&bytes), Ok(h));
}

#[test]
fn page_header_errors() {
    let h = PageHeader { id: pid(3), pagetype: PageType::Data, next: None, slots: 0, lower: 30, upper: 4096 };
    let mut bytes = h.serialize();
    assert_eq!(PageHeader::deserialize(&bytes[0..10]), Err(StoreErr::IOErr));
    bytes[8] = 9;
    assert_eq!(PageHeader::deserialize(&bytes), Err(StoreErr::UnknownPagetype(9)));
}

#[test]
fn page_type_bytes() {
    assert_eq!(PageType::Overflow.serialize(), 4);
    assert_eq!(PageType::deserialize(2), Ok(PageType::Leaf));
    assert_eq!(PageType::deserialize(5), Err(StoreErr::UnknownPagetype(5)));
}

#[test]
fn cursor_reads_slots() {
    let mut page = vec![0u8; 64];
    page[30] = 40;
    page[31] = 0;
    page[32] = 3;
    page[33] = 0;
    page[34] = 60;
    page[35] = 0;
    page[36] = 10;
    page[37] = 0;
    page[40] = 7;
    page[41] = 8;
    page[42] = 9;
    let mut cursor = PageCursor::new(&page);
    assert_eq!(cursor.next(), Ok(&[7u8, 8, 9][..]));
    assert_eq!(cursor.next(), Err(StoreErr::SlotOOB { offset: 60, len: 10 }));
    assert_eq!(cursor.pos, 38);
}

#[test]
fn db_header_roundtrip() {
    let h = DbHeader {
        magic: *b"KAWIKADB",
        version: 65536,
        page_size: 4096,
        root_page: Some(pid(2)),
        order: 150,
        num_pages: 9,
        free_list_head: None,
        active_data: Some(pid(5)),
    };
    let bytes = h.serialize();
    assert_eq!(bytes.len(), 60);
    assert_eq!(DbHeader::deserialize(&bytes), Ok(h));
    assert_eq!(DbHeader::deserialize(&bytes[0..59]), Err(StoreErr::IOErr));
}

fn put16(page: &mut [u8], at: usize, x: u16) {
    page[at..at + 2].copy_from_slice(&x.to_le_bytes());
}

fn put64(page: &mut [u8], at: usize, x: u64) {
    page[at..at + 8].copy_from_slice(&x.to_le_bytes());
}

#[test]
fn leaf_deserialize_reads_entries() {
    let mut page = vec![0u8; 256];
    put16(&mut page, 30, 100);
    put16(&mut page, 32, 14);
    put16(&mut page, 34, 200);
    put16(&mut page, 36, 8);
    put64(&mut page, 100, 3);
    put16(&mut page, 108, 1);
    put16(&mut page, 110, 2);
    page[112] = b'a';
    page[113] = b'b';
    put64(&mut page, 200, 9);
    let header = PageHeader { id: pid(1), pagetype: PageType::Leaf, next: None, slots: 2, lower: 38, upper: 100 };
    let mut cursor = PageCursor::new(&page);
    let leaf = LeafPage::deserialize(header, &mut cursor).unwrap();
    assert_eq!(leaf.keys, vec!["ab".to_string()]);
    assert_eq!(leaf.rids, vec![Rid { page: pid(3), slot: 1 }]);
    assert_eq!(leaf.next_leaf, Some(pid(9)));
    assert_eq!(leaf.header, header);
}

#[test]
fn leaf_deserialize_errors() {
    let mut page = vec![0u8; 64];
    put16(&mut page, 30, 60);
    put16(&mut page, 32, 10);
    let header = PageHeader { id: pid(1), pagetype: PageType::Leaf, next: None, slots: 2, lower: 38, upper: 60 };
    let mut cursor = PageCursor::new(&page);
    assert_eq!(LeafPage::deserialize(header, &mut cursor), Err(StoreErr::SlotOOB { offset: 60, len: 10 }));
}

#[test]
fn branch_deserialize_reads_children() {
    let mut page = vec![0u8; 256];
    put16(&mut page, 30, 100);
    put16(&mut page, 32, 12);
    put16(&mut page, 34, 200);
    put16(&mut page, 36, 8);
    put64(&mut page, 100, 4);
    put16(&mut page, 108, 2);
    page[110] = b'k';
    page[111] = b'y';
    put64(&mut page, 200, 5);
    let header = PageHeader { id: pid(1), pagetype: PageType::Branch, next: None, slots: 2, lower: 38, upper: 100 };
    let mut cursor = PageCursor::new(&page);
    let branch = BranchPage::deserialize(header, &mut cursor).unwrap();
    assert_eq!(branch.keys, vec!["ky".to_string()]);
    assert_eq!(branch.children, vec![pid(4), pid(5)]);
}

#[test]
fn data_and_overflow_deserialize() {
    let mut page = vec![0u8; 256];
    put16(&mut page, 30, 100);
    put16(&mut page, 32, 3);
    put16(&mut page, 34, 200);
    put16(&mut page, 36, 8);
    page[100] = 7;
    page[101] = 8;
    page[102] = 9;
    let header = PageHeader { id: pid(2), pagetype: PageType::Data, next: None, slots: 2, lower: 38, upper: 100 };
    let mut cursor = PageCursor::new(&page);
    let data = DataPage::deserialize(header, &mut cursor).unwrap();
    assert_eq!(data.data, vec![vec![7u8, 8, 9]]);
    assert_eq!(data.overflow, None);

    let mut page = vec![0u8; 256];
    put16(&mut page, 30, 200);
    put16(&mut page, 32, 8);
    put16(&mut page, 34, 100);
    put16(&mut page, 36, 2);
    put64(&mut page, 200, 6);
    page[100] = 1;
    page[101] = 2;
    let header = PageHeader { id: pid(3), pagetype: PageType::Overflow, next: None, slots: 2, lower: 38, upper: 100 };
    let mut cursor = PageCursor::new(&page);
    let over = OverflowPage::deserialize(header, &mut cursor).unwrap();
    assert_eq!(over.next, Some(pid(6)));
    assert_eq!(over.data, vec![1u8, 2]);
}

#[test]
fn read_str_reads_length_prefixed_text() {
    let bytes = [9u8, 3, 0, b'a', b'b', b'c', 1];
    assert_eq!(read_str(&bytes, 1), Ok(("abc".to_string(), 6)));
    assert_eq!(read_str(&bytes, 5), Err(StoreErr::IOErr));
    assert_eq!(read_str(&[1, 0, 0xff], 0), Err(StoreErr::DecodeErr));
}

#[test]
fn leaf_split_moves_upper_keys() {
    let keys: Vec<String> = (0..6).map(|i| format!("key{}", i)).collect();
    let rids: Vec<Rid> = (0..6).map(|i| Rid { page: pid(10 + i), slot: 0 }).collect();
    let mut leaf = LeafPage::new(pid(1), keys.clone(), rids.clone(), Some(pid(99)));
    let right = leaf.split(pid(2));
    // 6 keys of 14 bytes fill 84 bytes: the split comes where 42 are reached.
    assert_eq!(leaf.keys, keys[0..2].to_vec());
    assert_eq!(right.keys, keys[2..6].to_vec());
    assert_eq!(right.rids, rids[2..6].to_vec());
    assert_eq!(right.next_leaf, Some(pid(99)));
    assert_eq!(leaf.next_leaf, Some(pid(2)));
    assert_eq!(leaf.header.slots, 3);
    assert_eq!(right.header.slots, 5);
}

#[test]
fn branch_split_promotes_a_key() {
    let keys: Vec<String> = (0..5).map(|i| format!("k{}", i)).collect();
    let children: Vec<PageId> = (0..6).map(|i| pid(20 + i)).collect();
    let mut b = BranchPage::new(pid(1), keys.clone(), children.clone());
    let (promoted, right) = b.split(pid(2));
    // keys of 10 bytes each fill 50: the split comes at the third key.
    assert_eq!(promoted, "k1".to_string());
    assert_eq!(b.keys, vec!["k0".to_string()]);
    assert_eq!(b.children, children[0..2].to_vec());
    assert_eq!(right.keys, keys[2..5].to_vec());
    assert_eq!(right.children, children[2..6].to_vec());
    assert_eq!(b.header.slots, 2);
}

#[test]
fn any_page_type_and_id() {
    let p = AnyPage::Free(FreePage::new(pid(8)));
    assert_eq!(p.pagetype(), PageType::Free);
    assert_eq!(p.id(), pid(8));
    let p = AnyPage::Data(DataPage::new(pid(3)));
    assert_eq!(p.pagetype(), PageType::Data);
}

#[test]
fn file_header_roundtrip() {
    let h = FileHeader { magic: *b"KAWIKADB", version: 7, page_size: 4096, num_pages: 3, free_list_head: Some(pid(2)) };
    let bytes = h.write();
    assert_eq!(bytes.len(), 36);
    assert!(h.is_database());
    assert_eq!(FileHeader::read(&bytes), Ok(h));
}

#[test]
fn leaf_insert_then_delete_gives_the_leaf_back() {
    let original = LeafPage::new(pid(1), vec!["a".into(), "c".into()],
        vec![Rid { page: pid(5), slot: 0 }, Rid { page: pid(6), slot: 1 }], Some(pid(2)));
    let mut leaf = LeafPage::new(pid(1), vec!["a".into(), "c".into()],
        vec![Rid { page: pid(5), slot: 0 }, Rid { page: pid(6), slot: 1 }], Some(pid(2)));
    let rid = Rid { page: pid(9), slot: 3 };
    assert_eq!(leaf.insert("b", rid), None);
    assert_eq!(leaf.keys, vec!["a".to_string(), "b".to_string(), "c".to_string()]);
    assert_eq!(leaf.delete("b"), Ok(rid));
    assert_eq!(leaf, original);
}

#[test]
fn page_numbers_are_never_zero() {
    assert_eq!(PageId::new(7).map(|p| p.get()), Some(7));
    assert_eq!(PageId::new(0), None);
}
