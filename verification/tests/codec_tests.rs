use btree_db::bytes::{copy_bytes, read_u32, write_bytes, write_u32};
use btree_db::cursor::Cursor;
use btree_db::fetchable::Fetchable;
use btree_db::node::{InsertResult, Node, MAX_INTERNAL_NODES, MAX_LEAF_NODES};
use btree_db::node_type::{InternalNode, KeyValuePair, LeafNode, NodeType};
use btree_db::page::{Page, PAGE_SIZE};
use btree_db::pager::{HasOffset, Offset, Pager};
use btree_db::search::{search_cells, search_keys};
use btree_db::{DbError, Row};

fn row(i: u32) -> Row {
    Row {
        id: i,
        username: format!("user{i}"),
        email: format!("user{i}@example.com"),
    }
}

fn leaf_of(keys: &[usize]) -> Node<usize, Row> {
    let cells = keys
        .iter()
        .map(|k| KeyValuePair { key: *k, value: row(*k as u32) })
        .collect();
    Node::leaf_with_children(cells)
}

#[test]
fn row_is_stored_as_id_name_and_address() {
    let r = Row {
        id: 0x0102_0304,
        username: String::from("ab"),
        email: String::from("c@d"),
    };
    let ser = r.serialize();
    assert_eq!(ser.len(), 291);
    assert_eq!(&ser[0..4], &[4u8, 3, 2, 1]);
    assert_eq!(&ser[4..7], &[b'a', b'b', 0]);
    assert!(ser[7..36].iter().all(|b| *b == 0));
    assert_eq!(&ser[36..40], &[b'c', b'@', b'd', 0]);
    assert!(ser[40..].iter().all(|b| *b == 0));
    assert_eq!(Row::deserialize(&ser), r);
    assert_eq!(Row::read(&ser, 0), Some(r));
}

#[test]
fn row_with_bytes_that_are_no_text_is_not_read() {
    let mut ser = row(1).serialize();
    ser[4] = 0xFF;
    assert_eq!(Row::read(&ser, 0), None);
    let mut ser = row(1).serialize();
    ser[36] = 0xC3;
    ser[37] = 0x28;
    assert_eq!(Row::read(&ser, 0), None);
    let mut ser = row(1).serialize();
    ser[36] = 0xC3;
    ser[37] = 0xA9;
    ser[38] = 0;
    assert_eq!(Row::read(&ser, 0).expect("text").email, "\u{e9}");
}

#[test]
fn long_texts_are_cut_to_their_fields() {
    let r = Row {
        id: 9,
        username: "u".repeat(33),
        email: "e".repeat(300),
    };
    let back = Row::deserialize(&r.serialize());
    assert_eq!(back.username, "u".repeat(32));
    assert_eq!(back.email, "e".repeat(255));
}

#[test]
fn numbers_are_stored_least_byte_first() {
    let mut data = vec![0u8; 8];
    write_u32(&mut data, 2, 0xA1B2_C3D4);
    assert_eq!(data, vec![0, 0, 0xD4, 0xC3, 0xB2, 0xA1, 0, 0]);
    assert_eq!(read_u32(&data, 2), 0xA1B2_C3D4);
    write_bytes(&mut data, 0, &[7, 8]);
    assert_eq!(copy_bytes(&data, 0, 3), vec![7, 8, 0xD4]);
}

#[test]
fn leaf_page_has_header_cells_and_links() {
    let mut node = leaf_of(&[5, 9]);
    node.set_last_leaf(Some(Offset(3)));
    node.set_next_leaf(Some(Offset(7)));
    node.parent_offset = Some(Offset(2));
    let page = Page::from_node(&node);
    let bytes = page.as_bytes();
    assert_eq!(bytes.len(), 4096);
    assert_eq!(bytes[0], 0);
    assert_eq!(bytes[1], 0);
    assert_eq!(read_u32(bytes, 2), 2);
    assert_eq!(read_u32(bytes, 6), 2);
    assert_eq!(read_u32(bytes, 10), 5);
    assert_eq!(&bytes[14..14 + 291], &row(5).serialize()[..]);
    assert_eq!(read_u32(bytes, 10 + 295), 9);
    assert_eq!(&bytes[14 + 295..14 + 295 + 291], &row(9).serialize()[..]);
    assert!(bytes[10 + 2 * 295..4088].iter().all(|b| *b == 0));
    assert_eq!(read_u32(bytes, 4088), 3);
    assert_eq!(read_u32(bytes, 4092), 7);
    assert!(!page.is_root_node());
    assert!(page.is_leaf_node());
    assert_eq!(page.parent_offset(), Some(Offset(2)));
    assert_eq!(page.num_cells(), 2);
    assert_eq!(page.prev_leaf(), Some(Offset(3)));
    assert_eq!(page.next_leaf(), Some(Offset(7)));

    let back = Node::from_page(&page, Offset(4)).expect("a leaf");
    assert_eq!(back.offset(), Offset(4));
    assert_eq!(back.parent_offset, Some(Offset(2)));
    assert_eq!(back.num_cells, 2);
    match back.node_type {
        NodeType::Leaf(LeafNode { children, last_leaf, next_leaf }) => {
            assert_eq!(children.len(), 2);
            assert_eq!(children[0].key, 5);
            assert_eq!(children[0].value, row(5));
            assert_eq!(children[1].key, 9);
            assert_eq!(children[1].value, row(9));
            assert_eq!(last_leaf, Some(Offset(3)));
            assert_eq!(next_leaf, Some(Offset(7)));
        }
        NodeType::Internal(_) => panic!("a leaf came back internal"),
    }
}

#[test]
fn root_leaf_page_records_no_parent_and_no_links() {
    let mut node: Node<usize, Row> = Node::leaf();
    node.is_root = true;
    let page = Page::from_node(&node);
    let bytes = page.as_bytes();
    assert_eq!(bytes[1], 1);
    assert_eq!(read_u32(bytes, 2), 0xFFFF_FFFF);
    assert_eq!(read_u32(bytes, 4088), 0xFFFF_FFFF);
    assert_eq!(read_u32(bytes, 4092), 0xFFFF_FFFF);
    assert!(page.is_root_node());
    assert_eq!(page.parent_offset(), None);
    let back = Node::from_page(&page, Offset(0)).expect("a leaf");
    assert!(back.is_root);
    assert_eq!(back.parent_offset, None);
    assert_eq!(back.num_cells, 0);
}

#[test]
fn internal_page_has_header_and_cells() {
    let mut node: Node<usize, Row> =
        Node::internal_with_separators(vec![10, 20], vec![Offset(4), Offset(5), Offset(6)]);
    node.parent_offset = Some(Offset(1));
    let page = Page::from_node(&node);
    let bytes = page.as_bytes();
    assert_eq!(bytes[0], 1);
    assert_eq!(read_u32(bytes, 2), 1);
    assert_eq!(read_u32(bytes, 6), 2);
    assert_eq!(read_u32(bytes, 10), 2);
    assert_eq!(page.rightmost_child(), 2);
    let cells: Vec<u32> = (0..6).map(|i| read_u32(bytes, 14 + 4 * i)).collect();
    assert_eq!(cells, vec![4, 10, 5, 5, 20, 6]);
    assert!(bytes[14 + 24..].iter().all(|b| *b == 0));
    let back = Node::from_page(&page, Offset(8)).expect("an internal node");
    assert_eq!(back.offset, Offset(8));
    assert_eq!(back.num_cells, 2);
    match back.node_type {
        NodeType::Internal(InternalNode { separators, children }) => {
            assert_eq!(separators, vec![10, 20]);
            assert_eq!(children, vec![Offset(4), Offset(5), Offset(6)]);
        }
        NodeType::Leaf(_) => panic!("an internal node came back a leaf"),
    }
}

#[test]
fn full_internal_node_fits_a_page() {
    let keys: Vec<usize> = (1..=MAX_INTERNAL_NODES).collect();
    let children: Vec<Offset> = (0..=MAX_INTERNAL_NODES).map(Offset).collect();
    let node: Node<usize, Row> = Node::internal_with_separators(keys.clone(), children.clone());
    assert!(node.is_storable());
    let page = Page::from_node(&node);
    assert_eq!(read_u32(page.as_bytes(), 14 + 12 * 339 + 8), 340);
    match Node::from_page(&page, Offset(0)).expect("an internal node").node_type {
        NodeType::Internal(inner) => {
            assert_eq!(inner.separators, keys);
            assert_eq!(inner.children, children);
        }
        NodeType::Leaf(_) => panic!("an internal node came back a leaf"),
    }
}

#[test]
fn pages_that_store_no_node_are_refused() {
    let mut page = Page::from_node(&leaf_of(&[1, 2]));
    assert!(Node::from_page(&page, Offset(0)).is_ok());
    page.set_num_cells(13);
    assert!(matches!(Node::from_page(&page, Offset(0)), Err(DbError::CorruptFile)));

    let mut bytes = Page::from_node(&leaf_of(&[1, 2])).as_bytes().to_vec();
    bytes[0] = 2;
    assert!(matches!(
        Node::from_page(&Page::load(bytes), Offset(0)),
        Err(DbError::CorruptFile)
    ));

    let mut bytes = Page::from_node(&leaf_of(&[1, 2])).as_bytes().to_vec();
    bytes[10] = 2;
    assert!(matches!(
        Node::from_page(&Page::load(bytes), Offset(0)),
        Err(DbError::CorruptFile)
    ));

    let mut bytes = Page::from_node(&leaf_of(&[1, 2])).as_bytes().to_vec();
    bytes[14 + 4] = 0xFF;
    assert!(matches!(
        Node::from_page(&Page::load(bytes), Offset(0)),
        Err(DbError::CorruptFile)
    ));

    let internal: Node<usize, Row> =
        Node::internal_with_separators(vec![10], vec![Offset(1), Offset(2)]);
    let mut page = Page::from_node(&internal);
    page.set_rightmost_child(341);
    assert!(matches!(Node::from_page(&page, Offset(0)), Err(DbError::CorruptFile)));
}

#[test]
fn page_setters_write_their_fields() {
    let mut page = Page::new();
    assert!(page.as_bytes().iter().all(|b| *b == 0));
    page.set_root_node(true);
    page.set_parent_offset(Some(Offset(0x0102)));
    page.set_num_cells(3);
    page.set_rightmost_child(4);
    page.set_internal_child(1, 50, Offset(6), Offset(7));
    page.set_prev_leaf(None);
    page.set_next_leaf(Some(Offset(9)));
    let bytes = page.as_bytes();
    assert_eq!(&bytes[0..14], &[0u8, 1, 2, 1, 0, 0, 3, 0, 0, 0, 4, 0, 0, 0]);
    assert_eq!(read_u32(bytes, 26), 6);
    assert_eq!(read_u32(bytes, 30), 50);
    assert_eq!(read_u32(bytes, 34), 7);
    assert_eq!(page.prev_leaf(), None);
    assert_eq!(page.next_leaf(), Some(Offset(9)));
    let mut other = Page::new();
    other.set_cell(1, 77, &row(77));
    assert_eq!(read_u32(other.as_bytes(), 10 + 295), 77);
    assert_eq!(Row::read(other.as_bytes(), 14 + 295), Some(row(77)));
    let mut out = vec![1u8];
    other.write(&mut out);
    assert_eq!(out.len(), 1 + PAGE_SIZE);
    assert_eq!(&out[1..], other.as_bytes());
    assert_eq!(Page::load(out[1..].to_vec()).as_bytes(), other.as_bytes());
}

#[test]
fn binary_search_finds_keys_and_gaps() {
    let keys = vec![2usize, 4, 6];
    assert_eq!(search_keys(&keys, 1), Err(0));
    assert_eq!(search_keys(&keys, 2), Ok(0));
    assert_eq!(search_keys(&keys, 5), Err(2));
    assert_eq!(search_keys(&keys, 6), Ok(2));
    assert_eq!(search_keys(&keys, 7), Err(3));
    assert_eq!(search_keys(&Vec::new(), 7), Err(0));
    let cells = vec![
        KeyValuePair { key: 3usize, value: 'a' },
        KeyValuePair { key: 8usize, value: 'b' },
    ];
    assert_eq!(search_cells(&cells, 8), Ok(1));
    assert_eq!(search_cells(&cells, 4), Err(1));
}

#[test]
fn leaf_splits_keep_seven_and_hand_out_six() {
    let mut n: Node<usize, usize> = Node::leaf();
    for i in 0..MAX_LEAF_NODES {
        assert!(matches!(n.insert_leaf(2 * i, i), InsertResult::Success));
    }
    assert_eq!(n.get(&4), Some(&2));
    assert_eq!(n.get(&5), None);
    assert_eq!(n.smallest_key(), Some(0));
    assert_eq!(n.largest_key(), Some(&22));
    match n.insert_leaf(5, 99) {
        InsertResult::ParentSplit(entry) => {
            assert_eq!(entry.separator, 12);
            assert_eq!(entry.tree.num_cells, 6);
            assert_eq!(entry.tree.smallest_key(), Some(12));
            assert_eq!(entry.tree.largest_key(), Some(&22));
            assert_eq!(entry.tree.offset, Offset(0));
        }
        _ => panic!("a full leaf did not split"),
    }
    assert_eq!(n.num_cells, 7);
    assert_eq!(n.largest_key(), Some(&10));
    assert_eq!(n.get(&5), Some(&99));
    let mut m: Node<usize, usize> = Node::leaf();
    for i in 0..5 {
        m.insert_leaf(i, i);
    }
    let upper = m.split(Offset(7));
    assert_eq!((m.num_cells, upper.num_cells), (3, 2));
    assert_eq!(upper.offset, Offset(7));
    assert_eq!(upper.smallest_key(), Some(3));
}

#[test]
fn leaf_find_gives_cell_or_place() {
    let mut n: Node<usize, usize> = Node::leaf();
    n.offset = Offset(3);
    for i in [10, 20, 30] {
        n.insert_leaf(i, i);
    }
    let at = n.find(&20).expect("found");
    assert_eq!((at.offset, at.cell_num, at.end_of_table), (Offset(3), 1, false));
    let gap = n.find(&25).expect_err("absent");
    assert_eq!((gap.offset, gap.cell_num, gap.end_of_table), (Offset(3), 2, false));
    let end = n.find(&35).expect_err("absent");
    assert_eq!((end.cell_num, end.end_of_table), (3, true));
    assert_eq!(n.set_next_leaf(Some(Offset(4))), None);
    assert_eq!(n.get_next_leaf(), Some(Offset(4)));
    assert_eq!(n.set_last_leaf(Some(Offset(2))), None);
    assert_eq!(n.set_last_leaf(None), Some(Offset(2)));
    assert_eq!(n.get_last_leaf(), None);
    let end = n.find(&35).expect_err("absent");
    assert_eq!((end.cell_num, end.end_of_table), (3, false));
    assert!(matches!(n.node_type(), NodeType::Leaf(_)));
}

#[test]
fn internal_node_takes_up_and_splits() {
    let mut n: Node<usize, usize> = Node::internal_with_separators(vec![10, 30], vec![
        Offset(1),
        Offset(2),
        Offset(3),
    ]);
    assert!(n.insert_internal_child(20, Offset(9)));
    assert!(!n.insert_internal_child(20, Offset(8)));
    match &n.node_type {
        NodeType::Internal(inner) => {
            assert_eq!(inner.separators, vec![10, 20, 30]);
            assert_eq!(inner.children, vec![Offset(1), Offset(2), Offset(9), Offset(3)]);
        }
        NodeType::Leaf(_) => panic!(),
    }
    assert_eq!(n.num_cells, 3);
    let mut leaf: Node<usize, usize> = Node::leaf();
    assert!(!leaf.insert_internal_child(1, Offset(1)));

    let keys: Vec<usize> = (0..341).collect();
    let children: Vec<Offset> = (0..342).map(Offset).collect();
    let mut big: Node<usize, usize> = Node::internal_with_separators(keys, children);
    let entry = big.split_internal();
    assert_eq!(entry.separator, 169);
    match (&big.node_type, &entry.tree.node_type) {
        (NodeType::Internal(low), NodeType::Internal(high)) => {
            assert_eq!(low.separators.len(), 169);
            assert_eq!(low.children.len(), 170);
            assert_eq!(high.separators.len(), 171);
            assert_eq!(high.children.len(), 172);
            assert_eq!(high.separators[0], 170);
            assert_eq!(high.children[0], Offset(170));
            assert_eq!(*low.children.last().expect("child"), Offset(169));
        }
        _ => panic!(),
    }
    let empty: Node<usize, usize> = Node::internal();
    assert_eq!(empty.smallest_key(), None);
    assert_eq!(empty.largest_key(), None);
}

#[test]
fn pager_allots_recycles_and_commits() {
    let mut pager = Pager::open_with_limit(Vec::new(), 3).expect("empty image");
    assert_eq!(pager.num_pages(), 0);
    assert_eq!(pager.pages_left(), 3);
    assert_eq!(pager.new_page(), Ok(Offset(0)));
    assert_eq!(pager.new_page(), Ok(Offset(1)));
    assert_eq!(pager.next_page(), Offset(2));
    assert_eq!(pager.new_page(), Ok(Offset(2)));
    assert_eq!(pager.new_page(), Err(DbError::TableFull));
    assert_eq!(pager.num_pages(), 3);
    assert!(matches!(pager.get(&Offset(1)), Err(DbError::InvariantViolation)));
    assert!(matches!(pager.get(&Offset(5)), Err(DbError::InvariantViolation)));

    let mut node = leaf_of(&[1]);
    node.offset = Offset(1);
    assert_eq!(pager.commit(node), Ok(()));
    assert_eq!(pager.get(&Offset(1)).expect("cached").num_cells, 1);
    let mut far = leaf_of(&[1]);
    far.offset = Offset(4);
    assert_eq!(pager.commit(far), Err(DbError::InvariantViolation));
    let mut next = leaf_of(&[1]);
    next.offset = Offset(3);
    assert_eq!(pager.commit(next), Err(DbError::TableFull));
    let mut unsorted = Node::leaf_with_children(vec![
        KeyValuePair { key: 2, value: row(2) },
        KeyValuePair { key: 1, value: row(1) },
    ]);
    unsorted.offset = Offset(0);
    assert!(!unsorted.is_storable());
    assert_eq!(pager.commit(unsorted), Err(DbError::InvariantViolation));

    pager.recycle(Offset(2));
    pager.recycle(Offset(1));
    pager.recycle(Offset(9));
    assert_eq!(pager.pages_left(), 2);
    assert!(matches!(pager.get(&Offset(1)), Err(DbError::InvariantViolation)));
    assert_eq!(pager.new_page(), Ok(Offset(1)));
    assert_eq!(pager.new_page(), Ok(Offset(2)));
    assert_eq!(pager.new_page(), Err(DbError::TableFull));

    let mut node = leaf_of(&[4]);
    node.offset = Offset(1);
    assert_eq!(pager.commit(node), Ok(()));
    assert!(pager.move_entry(&Offset(1), Offset(2)));
    assert!(!pager.move_entry(&Offset(1), Offset(2)));
    assert_eq!(pager.get(&Offset(2)).expect("moved").offset, Offset(2));
    pager.close();
    assert_eq!(pager.image_bytes().len(), 3 * 4096);
    assert!(pager.image_bytes()[..2 * 4096].iter().all(|b| *b == 0));
    assert_eq!(read_u32(pager.image_bytes(), 2 * 4096 + 10), 4);
}

#[test]
fn cursor_holds_its_place() {
    let mut c = Cursor::new(Offset(2), 3, false);
    assert_eq!(c.offset(), &Offset(2));
    assert_eq!(c.cell_num(), 3);
    c.increment_cell_num();
    assert_eq!(c.cell_num(), 4);
    assert!(!c.is_at_end_of_table());
    assert!(Cursor::new(Offset(0), 0, true).is_at_end_of_table());
}

#[test]
fn fetchable_holds_a_value_or_an_offset() {
    let here: Fetchable<u32> = Fetchable::Fetched(4);
    let there: Fetchable<u32> = Fetchable::Unfetched(9);
    assert!(here.is_fetched());
    assert!(!there.is_fetched());
    assert_eq!(there.unwrap_unfetched(), &9);
    assert!(matches!(here.as_ref(), Fetchable::Fetched(&4)));
    assert!(matches!(there.as_ref(), Fetchable::Unfetched(9)));
    assert!(matches!(Fetchable::Fetched(4u32).map(|x| x + 1), Fetchable::Fetched(5)));
    assert!(matches!(
        Fetchable::<u32>::Unfetched(9).map(|x| x + 1),
        Fetchable::Unfetched(9)
    ));
    assert_eq!(Fetchable::Fetched(4u32).unwrap(), 4);
    assert_eq!(Fetchable::Fetched(4u32).unwrap_or(7), 4);
    assert_eq!(Fetchable::<u32>::Unfetched(9).unwrap_or(7), 7);
    assert_eq!(Fetchable::Fetched(4u32).unwrap_with_or(|x| x * 2, 0), 8);
    assert_eq!(Fetchable::<u32>::Unfetched(9).unwrap_with_or(|x| x * 2, 0), 0);
    let mut held = Fetchable::Fetched(4u32);
    if let Fetchable::Fetched(x) = held.as_mut() {
        *x = 6;
    }
    assert_eq!(held.unwrap(), 6);
}

#[test]
fn rows_that_fit_their_fields_are_stored_in_full() {
    assert!(row(3).is_storable());
    let exact = Row { id: 1, username: "u".repeat(32), email: "e".repeat(255) };
    assert!(exact.is_storable());
    assert_eq!(Row::deserialize(&exact.serialize()), exact);
    let long = Row { id: 1, username: "u".repeat(33), email: String::new() };
    assert!(!long.is_storable());
    let wide = Row { id: 1, username: String::new(), email: "\u{e9}".repeat(128) };
    assert!(!wide.is_storable());
    let zero = Row { id: 1, username: String::from("a\0b"), email: String::new() };
    assert!(!zero.is_storable());
    assert_eq!(Row::deserialize(&zero.serialize()).username, "a");
}
