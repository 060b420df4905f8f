use database::errors::{StoreErr, UserErr};
use database::store::value::Value;
use database::store::schema::{Schema, Type, bm_is_null, bm_set_null};
use database::store::pager::{Pager, PageId, Slot, IndexPage, NodeType};
use database::store::bptree::BpTree;
use database::store::db::{Store, TreeErr, DEFAULT_ORDER, SERVER_VERSION, new_header, check_header};

#[test]
fn encode_decode_schema_roundtrip() {
    let schema = Schema::from_static(&[
        ("bool", Type::Bool),
        ("int", Type::Int),
        ("uint", Type::Uint),
        ("float", Type::Float),
        ("text", Type::Text),
        ("blob", Type::Blob),
        ("null", Type::Text),
    ]);

    let vals: Vec<Option<Value>> = vec![
        Some(Value::Bool(true)),
        Some(Value::Int(-4)),
        Some(Value::Uint(4)),
        Some(Value::Float(5.5f64.to_bits())),
        Some(Value::Text("this is text".into())),
        Some(Value::Blob(vec![b'h', b'i'])),
        None,
    ];

    let encoded = schema.encode(vals.clone()).unwrap();
    assert_eq!(vals, schema.decode(&encoded).unwrap());
}

#[test]
fn schema_encoding_bytes() {
    let schema = Schema::from_static(&[("a", Type::Bool), ("b", Type::Text), ("c", Type::Int)]);
    let encoded = schema.encode(vec![Some(Value::Bool(false)), None, Some(Value::Int(1))]).unwrap();
    assert_eq!(encoded, vec![0b010, 0, 1, 0, 0, 0, 0, 0, 0, 0]);
}

#[test]
fn schema_decode_errors() {
    let schema = Schema::from_static(&[("a", Type::Int), ("b", Type::Text)]);
    assert_eq!(schema.decode(&[]), Err(StoreErr::IOErr));
    assert_eq!(schema.decode(&[0, 1, 2]), Err(StoreErr::IOErr));
    let bad_text = vec![0u8, 1, 0, 0, 0, 0, 0, 0, 0, 2, 0, 0xff, 0xfe];
    assert_eq!(schema.decode(&bad_text), Err(StoreErr::DecodeErr));
}

#[test]
fn schema_from_static_keeps_names_and_types() {
    let schema = Schema::from_static(&[("tid", Type::Uint), ("name", Type::Text)]);
    assert_eq!(schema.0.len(), 2);
    assert_eq!(schema.0[1].name, "name".to_string());
    assert_eq!(schema.0[1].ty, Type::Text);
}

#[test]
fn null_bitmap_bits() {
    let mut map = vec![0u8, 0u8];
    bm_set_null(&mut map, 9);
    assert_eq!(map, vec![0, 2]);
    assert!(bm_is_null(&map, 9));
    assert!(!bm_is_null(&map, 8));
}

fn setup(order: usize) -> Store {
    Store::start(Pager::new_empty(), None, order)
}

fn build_tree(n: isize, order: usize) -> (BpTree, Pager) {
    let store = setup(order);
    let mut tree = store.datamap;
    let mut pager = store.pager;
    for i in 1..n {
        tree.insert(&format!("key{:03}", i), Value::Int(i), &mut pager).unwrap();
    }
    (tree, pager)
}

#[test]
fn insert_and_get() {
    let mut db = setup(DEFAULT_ORDER);
    let put = db.put("key", Value::Text("test".to_string()));
    assert_eq!(put.unwrap(), db.get("key").unwrap());
}

#[test]
fn insert_and_remove() {
    let mut db = setup(DEFAULT_ORDER);
    let put = db.put("key", Value::Text("test".to_string()));
    assert_eq!(put.unwrap(), db.get("key").unwrap());
}

#[test]
fn bptree_insert_and_get() {
    let store = setup(DEFAULT_ORDER);
    let mut tree = store.datamap;
    let mut pager = store.pager;
    let names = ["one", "two", "three", "four", "five", "six"];
    for (i, k) in names.iter().enumerate() {
        tree.insert(k, Value::Int(i as isize + 1), &mut pager).unwrap();
        assert!(tree.validate(&pager).is_ok(), "Error is: {:?}", tree.validate(&pager));
        for (j, k2) in names.iter().enumerate().take(i + 1) {
            assert_eq!(tree.get(k2, &pager), Ok(Value::Int(j as isize + 1)));
        }
    }
}

#[test]
fn bptree_stress_test() {
    for n in [10, 20, 50, 100] {
        let store = setup(DEFAULT_ORDER);
        let mut tree = store.datamap;
        let mut pager = store.pager;
        for i in 0..n {
            tree.insert(&format!("key{:03}", i), Value::Int(i), &mut pager).unwrap();
            assert!(tree.validate(&pager).is_ok(), "Error is: {:?}", tree.validate(&pager));
        }
        for i in 0..n {
            assert!(tree.get(&format!("key{:03}", i), &pager).is_ok());
        }
    }
}

#[test]
fn bptree_show_tree() {
    let (tree, pager) = build_tree(16, DEFAULT_ORDER);
    assert!(tree.validate(&pager).is_ok(), "Error is: {:?}", tree.validate(&pager));
    for i in 1..16 {
        assert_eq!(tree.get(&format!("key{:03}", i), &pager), Ok(Value::Int(i)));
    }
}

#[test]
fn bptree_remove_simple() {
    let (mut tree, mut pager) = build_tree(20, DEFAULT_ORDER);
    assert_eq!(tree.remove("key018", &mut pager), Ok(Value::Int(18)));
    assert!(tree.validate(&pager).is_ok(), "Error is: {:?}", tree.validate(&pager));
    assert_eq!(tree.get("key018", &pager), Err(UserErr::NoRID("key018".to_string())));
    assert_eq!(tree.get("key017", &pager), Ok(Value::Int(17)));
}

#[test]
fn bptree_remove_borrow() {
    let (mut tree, mut pager) = build_tree(20, DEFAULT_ORDER);
    tree.remove("key015", &mut pager).unwrap();
    tree.remove("key014", &mut pager).unwrap();
    assert!(tree.validate(&pager).is_ok(), "Error is: {:?}", tree.validate(&pager));
    for i in 1..20 {
        let got = tree.get(&format!("key{:03}", i), &pager);
        if i == 14 || i == 15 {
            assert_eq!(got, Err(UserErr::NoRID(format!("key{:03}", i))));
        } else {
            assert_eq!(got, Ok(Value::Int(i)));
        }
    }
}

#[test]
fn bptree_remove_merge() {
    let (mut tree, mut pager) = build_tree(21, DEFAULT_ORDER);
    tree.remove("key020", &mut pager).unwrap();
    assert!(tree.validate(&pager).is_ok(), "Error is: {:?}", tree.validate(&pager));
    tree.remove("key019", &mut pager).unwrap();
    assert!(tree.validate(&pager).is_ok(), "Error is: {:?}", tree.validate(&pager));
    for i in 1..19 {
        assert_eq!(tree.get(&format!("key{:03}", i), &pager), Ok(Value::Int(i)));
    }
}

#[test]
fn bptree_remove_cascade() {
    let (mut tree, mut pager) = build_tree(14, DEFAULT_ORDER);
    for k in ["key003", "key006", "key009", "key012"] {
        tree.remove(k, &mut pager).unwrap();
        assert!(tree.validate(&pager).is_ok(), "Error is: {:?}", tree.validate(&pager));
        assert_eq!(tree.get(k, &pager), Err(UserErr::NoRID(k.to_string())));
    }
    for i in [1, 2, 4, 5, 7, 8, 10, 11, 13] {
        assert_eq!(tree.get(&format!("key{:03}", i), &pager), Ok(Value::Int(i)));
    }
}

#[test]
fn remove_everything_empties_the_tree() {
    let (mut tree, mut pager) = build_tree(30, 4);
    for i in 1..30 {
        assert_eq!(tree.remove(&format!("key{:03}", i), &mut pager), Ok(Value::Int(i)));
    }
    assert_eq!(tree.root, None);
    assert_eq!(tree.get("key001", &pager), Err(UserErr::NoRoot));
}

#[test]
fn validate_reports_empty_and_underfull() {
    let db = setup(4);
    assert_eq!(db.validate(), Some(TreeErr::Empty));
    let (tree, pager) = build_tree(3, 8);
    assert!(tree.validate(&pager).is_ok());
    let (tree, pager) = build_tree(12, 8);
    assert!(tree.validate(&pager).is_ok());
    let db = Store { datamap: tree, pager };
    assert_eq!(db.validate(), None);
}

#[test]
fn store_put_returns_old_value() {
    let mut db = setup(4);
    assert_eq!(db.get("k"), Err(UserErr::NoRoot));
    assert_eq!(db.put("k", Value::Int(1)), Ok(Value::Int(1)));
    assert_eq!(db.put("k", Value::Int(2)), Ok(Value::Int(1)));
    assert_eq!(db.get("k"), Ok(Value::Int(2)));
    assert_eq!(db.get("other"), Err(UserErr::NoValue));
}

#[test]
fn store_refuses_long_keys() {
    let mut db = setup(4);
    assert_eq!(db.put("ninechars", Value::Int(1)), Err(UserErr::LongKey));
    assert_eq!(db.put("eightchr", Value::Int(1)), Ok(Value::Int(1)));
}

#[test]
fn store_del_removes_only_its_key() {
    let mut db = setup(4);
    db.put("a", Value::Bool(true)).unwrap();
    db.put("b", Value::Blob(vec![1, 2])).unwrap();
    assert_eq!(db.del("a"), Ok(Value::Bool(true)));
    assert_eq!(db.get("a"), Err(UserErr::NoValue));
    assert_eq!(db.get("b"), Ok(Value::Blob(vec![1, 2])));
    assert_eq!(db.del("a"), Err(UserErr::NoValue));
}

#[test]
fn store_exit_header() {
    let mut db = setup(7);
    db.put("a", Value::Int(3)).unwrap();
    let h = db.exit();
    assert_eq!(h.order, 7);
    assert_eq!(h.root_page, db.datamap.root);
    assert_eq!(h.num_pages, db.pager.num_pages);
    assert_eq!(h.version, SERVER_VERSION);
}

#[test]
fn new_header_and_magic_check() {
    let mut h = new_header();
    assert_eq!(h.order, DEFAULT_ORDER);
    assert_eq!(h.num_pages, 1);
    assert_eq!(check_header(&h), Ok(()));
    h.magic[0] = b'X';
    assert_eq!(check_header(&h), Err(StoreErr::BadFile));
}

#[test]
fn validate_finds_nodes_under_half_the_order() {
    let (mut tree, pager) = build_tree(12, 8);
    assert!(tree.validate(&pager).is_ok());
    tree.order = 100;
    match tree.validate(&pager) {
        Err(TreeErr::KeyCountErr(_)) => {}
        other => panic!("expected a key count error, got {:?}", other),
    }
}

#[test]
fn tree_error_messages() {
    assert_eq!(TreeErr::Empty.message(), "Tree is empy".to_string());
    assert_eq!(TreeErr::KeyCountErr(PageId(12)).message(),
        "Node 12 is outside min or max number of keys for order".to_string());
    assert_eq!(TreeErr::KeyOOB(PageId(3)).message(),
        "Node 3 has keys out of bounds defined by parent".to_string());
}

#[test]
fn allocate_hands_back_a_freed_page() {
    let mut pager = Pager::new_empty();
    let a = pager.allocate();
    let b = pager.allocate();
    assert_eq!(a, PageId(1));
    assert_eq!(b, PageId(2));
    pager.free(a);
    assert_eq!(pager.free_list, vec![PageId(1)]);
    assert_eq!(pager.allocate(), PageId(1));
    assert!(pager.free_list.is_empty());
    assert_eq!(pager.allocate(), PageId(3));
}

fn strings(keys: &[&str]) -> Vec<String> {
    keys.iter().map(|k| k.to_string()).collect()
}

fn leaf(id: usize, keys: &[&str], next: Option<usize>) -> Slot {
    let values: Vec<PageId> = (0..keys.len()).map(|i| PageId(100 + i)).collect();
    Slot::Index(IndexPage::new_leaf(PageId(id), strings(keys), values, next.map(PageId)))
}

fn branch(id: usize, keys: &[&str], children: &[usize]) -> Slot {
    Slot::Index(IndexPage::new_branch(PageId(id), strings(keys), children.iter().map(|&c| PageId(c)).collect()))
}

fn pager_of(slots: Vec<Slot>) -> Pager {
    let n = slots.len();
    Pager { slots, dirty: vec![false; n], free_list: Vec::new(), num_pages: n }
}

fn tree_of(order: usize) -> BpTree {
    BpTree::new(Some(PageId(1)), order)
}

#[test]
fn validate_accepts_a_leaf_starting_at_its_separator() {
    let pager = pager_of(vec![Slot::Empty, branch(1, &["m"], &[2, 3]),
        leaf(2, &["a", "b"], Some(3)), leaf(3, &["m", "n"], None)]);
    assert_eq!(tree_of(4).validate(&pager), Ok(()));
}

#[test]
fn validate_finds_unsorted_branch_keys() {
    let pager = pager_of(vec![Slot::Empty, branch(1, &["m", "c"], &[2, 3, 4]),
        leaf(2, &["a"], Some(3)), leaf(3, &["d"], Some(4)), leaf(4, &["n"], None)]);
    assert_eq!(tree_of(2).validate(&pager), Err(TreeErr::NodeKeySeqErr(PageId(1))));
}

#[test]
fn validate_finds_a_key_below_its_separator() {
    let pager = pager_of(vec![Slot::Empty, branch(1, &["m"], &[2, 3]),
        leaf(2, &["a", "b"], Some(3)), leaf(3, &["k", "n"], None)]);
    assert_eq!(tree_of(4).validate(&pager), Err(TreeErr::KeyOOB(PageId(3))));
}

#[test]
fn validate_finds_a_leaf_too_deep() {
    let pager = pager_of(vec![Slot::Empty, branch(1, &["m"], &[2, 4]),
        leaf(2, &["a"], Some(3)), leaf(3, &["m"], Some(5)), branch(4, &["p"], &[3, 5]), leaf(5, &["p"], None)]);
    assert_eq!(tree_of(2).validate(&pager), Err(TreeErr::LeafBadDepth(PageId(3))));
}

#[test]
fn validate_finds_keys_without_values() {
    let short = Slot::Index(IndexPage::new_leaf(PageId(3), strings(&["m", "n"]), vec![PageId(9)], None));
    let pager = pager_of(vec![Slot::Empty, branch(1, &["m"], &[2, 3]), leaf(2, &["a", "b"], Some(3)), short]);
    assert_eq!(tree_of(4).validate(&pager), Err(TreeErr::KeyValueDesync(PageId(3))));
}

#[test]
fn validate_finds_a_branch_with_a_child_too_many() {
    let pager = pager_of(vec![Slot::Empty, branch(1, &["m"], &[2, 3, 4]),
        leaf(2, &["a"], Some(3)), leaf(3, &["m"], Some(4)), leaf(4, &["p"], None)]);
    assert_eq!(tree_of(2).validate(&pager), Err(TreeErr::KeyChildDesync(PageId(1))));
}

#[test]
fn validate_finds_a_root_with_one_child_and_a_branch_in_the_chain() {
    let pager = pager_of(vec![Slot::Empty, branch(1, &[], &[2]), leaf(2, &["a"], None)]);
    assert_eq!(tree_of(2).validate(&pager), Err(TreeErr::RootTooFewChildren));
    let pager = pager_of(vec![Slot::Empty, branch(1, &["m"], &[2, 3]),
        leaf(2, &["a"], Some(1)), leaf(3, &["m"], None)]);
    assert_eq!(tree_of(2).validate(&pager), Err(TreeErr::BranchInLeafSeq));
}

#[test]
fn validate_checks_every_branch() {
    let (tree, pager) = build_tree(11, 4);
    match tree.validate(&pager) {
        Err(TreeErr::KeyCountErr(id)) => assert_ne!(Some(id), tree.root),
        other => panic!("expected a key count error, got {:?}", other),
    }
}

#[test]
fn remove_of_an_absent_key_changes_nothing() {
    let (mut tree, mut pager) = build_tree(12, 4);
    let root = tree.root;
    let before = format!("{:?}", pager);
    assert_eq!(tree.remove("nokey", &mut pager), Err(UserErr::NoRID("nokey".to_string())));
    assert_eq!(tree.root, root);
    assert_eq!(format!("{:?}", pager), before);
}

#[test]
fn an_emptied_root_leaf_is_freed() {
    let (mut tree, mut pager) = build_tree(4, 4);
    let root = tree.root.unwrap();
    for i in 1..4 {
        assert_eq!(tree.remove(&format!("key{:03}", i), &mut pager), Ok(Value::Int(i)));
    }
    assert_eq!(tree.root, None);
    assert!(pager.free_list.contains(&root));
    assert_eq!(tree.get("key001", &pager), Err(UserErr::NoRoot));
}

#[test]
fn insert_refuses_a_key_that_cannot_fit_a_page() {
    let (mut tree, mut pager) = build_tree(4, 4);
    let root = tree.root;
    let before = format!("{:?}", pager);
    let long = "k".repeat(4066 - 10 - 4 + 1);
    assert_eq!(tree.insert(&long, Value::Int(1), &mut pager), Err(UserErr::LongKey));
    assert_eq!(tree.root, root);
    assert_eq!(format!("{:?}", pager), before);
    let fits = "k".repeat(4066 - 10 - 4);
    assert_eq!(tree.insert(&fits, Value::Int(1), &mut pager), Ok(None));
}

#[test]
fn remove_frees_the_value_page() {
    let (mut tree, mut pager) = build_tree(4, 4);
    let before = pager.free_list.len();
    assert_eq!(tree.remove("key002", &mut pager), Ok(Value::Int(2)));
    assert_eq!(pager.free_list.len(), before + 1);
    let freed = pager.free_list[before];
    assert!(matches!(pager.slots[freed.0], Slot::Free(_)));
}

/// The keys along the chain of leaves, from the leftmost leaf.
fn chain_keys(tree: &BpTree, pager: &Pager) -> Vec<String> {
    let mut keys = Vec::new();
    let Some(mut current) = tree.root else { return keys };
    loop {
        match &pager.slots[current.0] {
            Slot::Index(p) => match &p.node_type {
                NodeType::Branch { children } => current = children[0],
                NodeType::Leaf { .. } => break,
            },
            _ => panic!("not a node"),
        }
    }
    loop {
        match &pager.slots[current.0] {
            Slot::Index(p) => {
                keys.extend(p.keys.iter().cloned());
                match &p.node_type {
                    NodeType::Leaf { next: Some(n), .. } => current = *n,
                    _ => break,
                }
            }
            _ => panic!("not a node"),
        }
    }
    keys
}

fn setup_keys(n: isize) -> (BpTree, Pager) {
    let store = setup(DEFAULT_ORDER);
    let mut tree = store.datamap;
    let mut pager = store.pager;
    for i in 1..=n {
        tree.insert(&format!("key{:05}", i), Value::Int(i), &mut pager).unwrap();
    }
    (tree, pager)
}

fn assert_tree_ok(tree: &BpTree, pager: &Pager, expected: &[String]) {
    assert_eq!(tree.validate(pager), Ok(()));
    assert_eq!(chain_keys(tree, pager), expected);
}

#[test]
fn insert_until_split() {
    let (tree, pager) = setup_keys(300);
    assert_eq!(tree.validate(&pager), Ok(()));
}

#[test]
fn delete_leaf_root() {
    let (mut tree, mut pager) = setup_keys(1);
    tree.remove("key00001", &mut pager).unwrap();
    assert!(tree.root.is_none());
}

#[test]
fn delete_root() {
    let n = 3000;
    let (mut tree, mut pager) = setup_keys(n);
    for i in 1..=n {
        assert_eq!(tree.remove(&format!("key{:05}", i), &mut pager), Ok(Value::Int(i)));
        if i % 50 == 0 && tree.root.is_some() {
            let expected: Vec<String> = (i + 1..=n).map(|j| format!("key{:05}", j)).collect();
            assert_tree_ok(&tree, &pager, &expected);
        }
    }
    assert!(tree.root.is_none());
}


#[test]
fn take_dirty_lists_changed_pages_once() {
    let mut db = setup(4);
    db.put("a", Value::Int(1)).unwrap();
    let changed = db.pager.take_dirty();
    assert!(!changed.is_empty());
    assert!(changed.windows(2).all(|w| w[0].0 < w[1].0));
    assert!(changed.iter().all(|p| p.0 > 0 && p.0 < db.pager.num_pages));
    assert!(db.pager.dirty.iter().all(|d| !d));
    assert!(db.pager.take_dirty().is_empty());
}

#[test]
fn delete_intensive() {
    let n = 50000;
    let (mut tree, mut pager) = setup_keys(n);
    let mut expected: Vec<String> = (1..=n).map(|i| format!("key{:05}", i)).collect();

    if let Some(root_id) = tree.root {
        let Slot::Index(root) = &pager.slots[root_id.0] else { panic!("root is no node") };
        let NodeType::Branch { children } = &root.node_type else { panic!("root is a leaf") };
        let Slot::Index(child) = &pager.slots[children[0].0] else { panic!("child is no node") };
        assert!(matches!(child.node_type, NodeType::Branch { .. }));
    }

    for i in 1..=n {
        tree.remove(&format!("key{:05}", i), &mut pager).unwrap();
        expected.remove(expected.binary_search(&format!("key{:05}", i)).unwrap_or(0));
        if i % 200 == 0 && tree.root.is_some() {
            assert_tree_ok(&tree, &pager, &expected);
        }
    }
}

#[test]
fn validate_passes_through_inserts_and_removals_at_an_odd_order() {
    let store = setup(5);
    let mut tree = store.datamap;
    let mut pager = store.pager;
    for i in 1..=60 {
        tree.insert(&format!("key{:03}", i), Value::Int(i), &mut pager).unwrap();
        assert_eq!(tree.validate(&pager), Ok(()));
    }
    for i in (1..=60).rev() {
        assert_eq!(tree.remove(&format!("key{:03}", i), &mut pager), Ok(Value::Int(i)));
        if tree.root.is_some() {
            assert_eq!(tree.validate(&pager), Ok(()));
        }
    }
    assert_eq!(tree.root, None);
}

#[test]
fn a_collapsed_root_is_freed() {
    let (mut tree, mut pager) = build_tree(5, 4);
    let old_root = tree.root.unwrap();
    assert!(matches!(&pager.slots[old_root.0], Slot::Index(p) if matches!(p.node_type, NodeType::Branch { .. })));
    tree.remove("key001", &mut pager).unwrap();
    tree.remove("key002", &mut pager).unwrap();
    let new_root = tree.root.unwrap();
    assert_ne!(new_root, old_root);
    assert!(pager.free_list.contains(&old_root));
    assert_eq!(tree.get("key003", &pager), Ok(Value::Int(3)));
    assert_eq!(tree.get("key004", &pager), Ok(Value::Int(4)));
}

#[test]
fn scan_rids_lists_the_value_pages_in_key_order() {
    let (tree, pager) = build_tree(11, 4);
    let pages = tree.scan_rids(&pager).unwrap();
    let values: Vec<Value> = pages.iter().map(|p| match &pager.slots[p.0] {
        Slot::Data(d) => d.value.clone(),
        _ => panic!("not a value page"),
    }).collect();
    let expected: Vec<Value> = (1..11).map(Value::Int).collect();
    assert_eq!(values, expected);
    let empty = setup(4);
    assert_eq!(empty.datamap.scan_rids(&empty.pager), Ok(vec![]));
}

#[test]
fn contains_tells_whether_a_key_is_held() {
    let (tree, pager) = build_tree(6, 4);
    assert_eq!(tree.contains("key003", &pager), Ok(true));
    assert_eq!(tree.contains("key009", &pager), Ok(false));
    let empty = setup(4);
    assert_eq!(empty.datamap.contains("key001", &empty.pager), Err(UserErr::NoRoot));
}
