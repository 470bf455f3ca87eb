use btree_db::btree::BTree;
use btree_db::pager::Pager;
use btree_db::Row;

#[test]
fn test_multiple_leaf_splits() {
    let pager = Pager::open(Vec::new()).expect("empty image");
    let mut bt = BTree::new(pager).expect("fresh tree");
    let count = 10000;

    for i in 0..count {
        assert_eq!(
            bt.insert(
                i,
                Row {
                    id: i as u32,
                    username: String::from(format!("user{i}")),
                    email: String::from(format!("user{i}@example.com")),
                }
            ),
            Ok(true)
        );
    }
    let mut cursor = bt.cursor_start().expect("first leaf");
    let mut i: u32 = 0;
    while !cursor.is_at_end_of_table() {
        let val = cursor.value(&mut bt).expect("leaf").expect("cell").id;
        assert_eq!(val, i);
        bt.advance_cursor(&mut cursor).expect("leaf");
        i += 1;
    }
    assert_eq!(i, 10000);
}
