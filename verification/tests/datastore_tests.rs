use btree_db::page::Page;
use btree_db::{ExecuteResult, Row, Statement, StatementType, Table};
use btree_db::datastore::TABLE_MAX_ROWS;

fn open_test_db() -> Table {
    Table::open(Vec::new()).expect("empty image")
}

#[test]
fn serialize_tests() {
    let r = Row {
        id: 0,
        username: String::from("bbuford"),
        email: String::from("bbuford@example.com"),
    };
    let ser = r.serialize();
    let de = Row::deserialize(&*ser);
    assert_eq!(r.id, de.id);
    assert_eq!(r.username, de.username);
    assert_eq!(r.email, de.email);

    let r = Row {
        id: 0,
        username: String::from(""),
        email: String::from(""),
    };
    let ser = r.serialize();
    let de = Row::deserialize(&*ser);
    assert_eq!(r.id, de.id);
    assert_eq!(r.username, de.username);
    assert_eq!(r.email, de.email);

    let r = Row {
        id: 0,
        username: String::from("AAAAAAAAAAAAAAAAAAAAAAAAAAAAAAAAAAAAAAAA"), // 40 char, should be truncated to 32
        email: String::from("bbuford@example.com"),
    };
    let ser = r.serialize();
    let de = Row::deserialize(&*ser);
    assert_eq!(r.id, de.id);
    assert_ne!(r.username, de.username);
    assert_eq!(
        de.username,
        String::from("AAAAAAAAAAAAAAAAAAAAAAAAAAAAAAAA") // 32 char truncation
    );
    assert_eq!(r.email, de.email);
}

#[test]
fn page_insert_tests() {
    let mut p = Page::new();
    let r = Row {
        id: 0,
        username: String::from("bbuford"),
        email: String::from("bbuford@example.com"),
    };
    p.insert(r.clone(), 0);
    p.insert(r.clone(), 1);
    let sel = p.select(0);
    assert_eq!(r.id, sel.id);
    assert_eq!(r.username, sel.username);
    assert_eq!(r.email, sel.email);

    let sel = p.select(1);
    assert_eq!(r.id, sel.id);
    assert_eq!(r.username, sel.username);
    assert_eq!(r.email, sel.email);
}

#[test]
fn table_insert_single_row() {
    let mut table = open_test_db();
    let row = Row {
        id: 0,
        username: String::from("bbuford"),
        email: String::from("bbuford@example.com"),
    };

    let statement = Statement {
        statement_type: StatementType::Insert,
        row_to_insert: Some(row),
    };

    assert_eq!(
        table.execute_statement(statement),
        Ok(ExecuteResult::InsertSuccess)
    );

    let statement = Statement {
        statement_type: StatementType::Select,
        row_to_insert: None,
    };

    let res = table.execute_statement(statement).expect("select");
    assert!(matches!(res, ExecuteResult::SelectSuccess { .. }));
    match res {
        ExecuteResult::SelectSuccess(rows) => {
            assert_eq!(rows.len(), 1);
            let row = &rows[0];
            assert_eq!(row.id, 0);
            assert_eq!(row.username, String::from("bbuford"));
            assert_eq!(row.email, String::from("bbuford@example.com"));
        }
        _ => panic!(),
    }
}

#[test]
fn table_insert_duplicate_keys_throw_error() {
    let mut table = open_test_db();
    let row = Row {
        id: 0,
        username: String::from("bbuford"),
        email: String::from("bbuford@example.com"),
    };

    let statement = Statement {
        statement_type: StatementType::Insert,
        row_to_insert: Some(row.clone()),
    };

    assert_eq!(
        table.execute_statement(statement),
        Ok(ExecuteResult::InsertSuccess)
    );
    let statement = Statement {
        statement_type: StatementType::Insert,
        row_to_insert: Some(row.clone()),
    };
    assert_eq!(
        table.execute_statement(statement),
        Ok(ExecuteResult::DuplicateKey)
    );
}

#[test]
fn table_insert_max_rows() {
    let mut table = Table::open_with_limit(Vec::new(), 1).expect("empty image");
    for i in 0..12 {
        assert_eq!(
            table.execute_statement(Statement {
                statement_type: StatementType::Insert,
                row_to_insert: Some(Row {
                    id: i as u32,
                    username: String::from(format!("user{i}")),
                    email: String::from(format!("user{i}@example.com")),
                }),
            }),
            Ok(ExecuteResult::InsertSuccess)
        );
    }

    assert_eq!(
        table.execute_statement(Statement {
            statement_type: StatementType::Insert,
            row_to_insert: Some(Row {
                id: TABLE_MAX_ROWS as u32,
                username: String::from(format!("user{TABLE_MAX_ROWS}")),
                email: String::from(format!("user{TABLE_MAX_ROWS}@example.com")),
            }),
        }),
        Ok(ExecuteResult::TableFull)
    );
}
