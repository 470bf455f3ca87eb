use btree_db::btree::BTree;
use btree_db::node_type::NodeType;
use btree_db::pager::{Offset, Pager};
use btree_db::{DbError, ExecuteResult, Row, Statement, StatementType, Table};

fn user(i: u32) -> Row {
    Row {
        id: i,
        username: format!("user{i}"),
        email: format!("user{i}@example.com"),
    }
}

fn insert(table: &mut Table, row: Row) -> ExecuteResult {
    table
        .execute_statement(Statement {
            statement_type: StatementType::Insert,
            row_to_insert: Some(row),
        })
        .expect("insert runs")
}

fn select(table: &mut Table) -> Vec<Row> {
    match table
        .execute_statement(Statement {
            statement_type: StatementType::Select,
            row_to_insert: None,
        })
        .expect("select runs")
    {
        ExecuteResult::SelectSuccess(rows) => rows,
        other => panic!("select gave {:?}", other),
    }
}

fn tree_of(count: u32) -> BTree {
    let pager = Pager::open(Vec::new()).expect("empty image");
    let mut tree = BTree::new(pager).expect("fresh tree");
    for i in 0..count {
        assert_eq!(tree.insert(i, user(i)), Ok(true));
    }
    tree
}

fn scan(tree: &mut BTree) -> Vec<u32> {
    let mut ids = Vec::new();
    let mut cursor = tree.cursor_start().expect("first leaf");
    while !cursor.is_at_end_of_table() {
        ids.push(cursor.value(tree).expect("leaf").expect("cell").id);
        tree.advance_cursor(&mut cursor).expect("leaf");
    }
    ids
}

#[test]
fn single_insert_is_selected_and_fills_one_page() {
    let mut table = Table::open(Vec::new()).expect("empty image");
    let row = Row {
        id: 0,
        username: String::from("bbuford"),
        email: String::from("bbuford@example.com"),
    };
    assert_eq!(insert(&mut table, row.clone()), ExecuteResult::InsertSuccess);
    assert_eq!(select(&mut table), vec![row]);
    table.close();
    assert_eq!(table.image_bytes().len(), 4096);
}

#[test]
fn duplicate_insert_changes_nothing() {
    let mut table = Table::open(Vec::new()).expect("empty image");
    let row = Row {
        id: 0,
        username: String::from("bbuford"),
        email: String::from("bbuford@example.com"),
    };
    assert_eq!(insert(&mut table, row.clone()), ExecuteResult::InsertSuccess);
    table.close();
    let before = table.image_bytes().clone();
    assert_eq!(insert(&mut table, row.clone()), ExecuteResult::DuplicateKey);
    assert_eq!(select(&mut table).len(), 1);
    table.close();
    assert_eq!(table.image_bytes(), &before);
}

#[test]
fn thirteenth_insert_splits_the_root_leaf() {
    let mut table = Table::open(Vec::new()).expect("empty image");
    for i in 0..12 {
        assert_eq!(insert(&mut table, user(i)), ExecuteResult::InsertSuccess);
    }
    table.close();
    assert_eq!(table.image_bytes().len(), 4096);
    assert_eq!(insert(&mut table, user(12)), ExecuteResult::InsertSuccess);
    let ids: Vec<u32> = select(&mut table).iter().map(|r| r.id).collect();
    assert_eq!(ids, (0..13).collect::<Vec<u32>>());
    table.close();
    assert_eq!(table.image_bytes().len(), 3 * 4096);

    let mut pager = Pager::open(table.image_bytes().clone()).expect("whole pages");
    let (separators, children) = match &pager.get(&Offset(0)).expect("root").node_type {
        NodeType::Internal(inner) => (inner.separators.clone(), inner.children.clone()),
        NodeType::Leaf(_) => panic!("the root is still a leaf"),
    };
    assert!(pager.get(&Offset(0)).expect("root").is_root);
    assert_eq!(separators, vec![7]);
    assert_eq!(children.len(), 2);
    let mut counts = Vec::new();
    let mut links = Vec::new();
    for child in &children {
        let node = pager.get(child).expect("leaf");
        assert!(!node.is_root);
        assert_eq!(node.parent_offset, Some(Offset(0)));
        match &node.node_type {
            NodeType::Leaf(leaf) => {
                counts.push(leaf.children.len());
                links.push((leaf.last_leaf, leaf.next_leaf));
            }
            NodeType::Internal(_) => panic!("a child of the root is internal"),
        }
    }
    assert_eq!(counts, vec![7, 6]);
    assert_eq!(links[0], (None, Some(children[1])));
    assert_eq!(links[1], (Some(children[0]), None));
}

#[test]
fn sixty_rows_are_scanned_in_order() {
    let mut tree = tree_of(60);
    let mut cursor = tree.cursor_start().expect("first leaf");
    for i in 0..60u32 {
        assert!(!cursor.is_at_end_of_table());
        assert_eq!(cursor.value(&mut tree).expect("leaf").expect("cell").id, i);
        tree.advance_cursor(&mut cursor).expect("leaf");
    }
    assert!(cursor.is_at_end_of_table());
}

#[test]
fn ten_thousand_rows_make_three_levels() {
    let mut tree = tree_of(10_000);
    assert!(tree.tree_height().expect("tree") >= 3);
    assert!(matches!(tree.find(5000), Ok(Ok(_))));
    assert!(matches!(tree.find(100_000), Ok(Err(_))));
    assert_eq!(scan(&mut tree), (0..10_000).collect::<Vec<u32>>());
}

#[test]
fn ten_thousand_rows_survive_a_reopen() {
    let mut tree = tree_of(10_000);
    let height = tree.tree_height().expect("tree");
    tree.close();
    let image = tree.image_bytes().clone();
    assert_eq!(image.len() % 4096, 0);
    let pager = Pager::open(image).expect("whole pages");
    let mut again = BTree::new(pager).expect("root");
    assert_eq!(again.tree_height(), Ok(height));
    assert_eq!(scan(&mut again), (0..10_000).collect::<Vec<u32>>());
    let rows = again.select().expect("rows");
    assert_eq!(rows[9_999], user(9_999));
}

#[test]
fn rows_inserted_out_of_order_are_selected_in_order() {
    let mut table = Table::open(Vec::new()).expect("empty image");
    let mut ids: Vec<u32> = Vec::new();
    let mut x: u32 = 17;
    for _ in 0..400 {
        x = (x * 73 + 11) % 1009;
        match insert(&mut table, user(x)) {
            ExecuteResult::InsertSuccess => {
                assert!(!ids.contains(&x));
                ids.push(x);
            }
            ExecuteResult::DuplicateKey => assert!(ids.contains(&x)),
            other => panic!("insert gave {:?}", other),
        }
    }
    ids.sort();
    let rows = select(&mut table);
    assert_eq!(rows.iter().map(|r| r.id).collect::<Vec<u32>>(), ids);
    for row in &rows {
        assert_eq!(row, &user(row.id));
    }
    table.close();
    let mut again = Table::open(table.image_bytes().clone()).expect("reopen");
    assert_eq!(select(&mut again), rows);
}

#[test]
fn height_grows_by_one_when_the_root_splits() {
    let pager = Pager::open(Vec::new()).expect("empty image");
    let mut tree = BTree::new(pager).expect("fresh tree");
    assert_eq!(tree.tree_height(), Ok(1));
    for i in 0..12 {
        assert_eq!(tree.pages_needed(i), Ok(0));
        assert_eq!(tree.insert(i, user(i)), Ok(true));
        assert_eq!(tree.tree_height(), Ok(1));
    }
    assert_eq!(tree.pages_needed(5), Ok(0));
    assert_eq!(tree.pages_needed(12), Ok(2));
    assert_eq!(tree.insert(12, user(12)), Ok(true));
    assert_eq!(tree.tree_height(), Ok(2));
    assert_eq!(tree.pages_needed(13), Ok(0));
}

#[test]
fn close_twice_writes_the_same_image() {
    let mut tree = tree_of(100);
    tree.close();
    let first = tree.image_bytes().clone();
    tree.close();
    assert_eq!(tree.image_bytes(), &first);

    let pager = Pager::open(first.clone()).expect("whole pages");
    let mut again = BTree::new(pager).expect("root");
    assert_eq!(scan(&mut again).len(), 100);
    again.close();
    assert_eq!(again.image_bytes(), &first);
}

#[test]
fn table_is_full_when_its_pages_are_used_up() {
    let mut table = Table::open(Vec::new()).expect("empty image");
    let mut inserted: u32 = 0;
    loop {
        match insert(&mut table, user(inserted)) {
            ExecuteResult::InsertSuccess => inserted += 1,
            ExecuteResult::TableFull => break,
            other => panic!("insert gave {:?}", other),
        }
        assert!(inserted < 2000);
    }
    assert!(inserted > 12 * 40);
    assert_eq!(insert(&mut table, user(inserted)), ExecuteResult::TableFull);
    assert_eq!(insert(&mut table, user(0)), ExecuteResult::DuplicateKey);
    assert_eq!(select(&mut table).len(), inserted as usize);
    table.close();
    assert!(table.image_bytes().len() <= 100 * 4096);
}

#[test]
fn image_of_broken_length_is_corrupt() {
    assert!(matches!(Table::open(vec![0u8; 100]), Err(DbError::CorruptFile)));
    assert!(matches!(Pager::open(vec![0u8; 4097]), Err(DbError::CorruptFile)));
    assert!(Pager::open(vec![0u8; 8192]).is_ok());
}

#[test]
fn image_of_a_page_that_stores_no_node_is_corrupt() {
    let mut image = vec![0u8; 4096];
    image[0] = 2;
    assert!(matches!(Table::open(image), Err(DbError::CorruptFile)));
}

#[test]
fn tree_with_a_missing_child_is_refused() {
    let mut tree = tree_of(13);
    tree.close();
    let mut image = tree.image_bytes().clone();
    image.truncate(2 * 4096);
    let pager = Pager::open(image).expect("whole pages");
    let mut broken = BTree::new(pager).expect("root");
    assert!(matches!(broken.find(3), Err(DbError::InvariantViolation)));
    assert!(matches!(broken.find(12), Ok(Ok(_))));
    assert!(broken.select().is_err());
}

/// Walks the subtree at `offset`, checks each node's bounds, and returns the
/// depth of its leaves; `leaves` collects the leaf offsets from left to right.
fn walk(
    pager: &mut Pager,
    offset: Offset,
    lo: Option<usize>,
    hi: Option<usize>,
    leaves: &mut Vec<Offset>,
) -> usize {
    let node = pager.get(&offset).expect("node").clone();
    assert_eq!(node.offset, offset);
    assert_eq!(node.is_root, offset == Offset(0));
    match node.node_type {
        NodeType::Leaf(leaf) => {
            assert!(leaf.children.len() <= 12);
            assert!(node.is_root || !leaf.children.is_empty());
            assert_eq!(node.num_cells, leaf.children.len());
            for pair in leaf.children.windows(2) {
                assert!(pair[0].key < pair[1].key);
            }
            for cell in &leaf.children {
                assert!(lo.map_or(true, |lo| lo <= cell.key));
                assert!(hi.map_or(true, |hi| cell.key < hi));
            }
            leaves.push(offset);
            1
        }
        NodeType::Internal(inner) => {
            let s = inner.separators.len();
            assert!(1 <= s && s <= 340);
            assert_eq!(inner.children.len(), s + 1);
            for pair in inner.separators.windows(2) {
                assert!(pair[0] < pair[1]);
            }
            let mut depths = Vec::new();
            for (i, child) in inner.children.iter().enumerate() {
                let child_lo = if i == 0 { lo } else { Some(inner.separators[i - 1]) };
                let child_hi = if i == s { hi } else { Some(inner.separators[i]) };
                depths.push(walk(pager, *child, child_lo, child_hi, leaves));
            }
            assert!(depths.iter().all(|d| *d == depths[0]));
            depths[0] + 1
        }
    }
}

#[test]
fn tree_pages_keep_their_bounds_and_leaves_their_chain() {
    let pager = Pager::open(Vec::new()).expect("empty image");
    let mut tree = BTree::new(pager).expect("fresh tree");
    let mut x: u32 = 1;
    let mut count = 0;
    for _ in 0..5000 {
        x = (x * 48271) % 65537;
        if tree.insert(x, user(x)) == Ok(true) {
            count += 1;
        }
    }
    for i in 70_000..75_000 {
        assert_eq!(tree.insert(i, user(i)), Ok(true));
        count += 1;
    }
    let height = tree.tree_height().expect("tree");
    assert_eq!(scan(&mut tree).len(), count);
    tree.close();

    let mut pager = Pager::open(tree.image_bytes().clone()).expect("whole pages");
    let mut leaves = Vec::new();
    assert_eq!(walk(&mut pager, Offset(0), None, None, &mut leaves), height);
    let mut seen = leaves.clone();
    seen.sort();
    seen.dedup();
    assert_eq!(seen.len(), leaves.len());
    for (k, offset) in leaves.iter().enumerate() {
        let (prev, next) = match &pager.get(offset).expect("leaf").node_type {
            NodeType::Leaf(leaf) => (leaf.last_leaf, leaf.next_leaf),
            NodeType::Internal(_) => panic!("a leaf is internal"),
        };
        assert_eq!(prev, if k == 0 { None } else { Some(leaves[k - 1]) });
        assert_eq!(next, leaves.get(k + 1).copied());
    }
    let mut again = BTree::new(pager).expect("root");
    assert_eq!(again.cursor_start().expect("first leaf").offset, leaves[0]);
}
