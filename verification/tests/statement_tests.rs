use btree_db::statement::{
    do_meta_command, has_prefix, parse_u32, prepare_statement, statement_of_groups, MetaCommand,
    PrepareResult,
};
use btree_db::{ExecuteResult, Row, Statement, StatementType, Table};

#[test]
fn insert_line_makes_an_insert() {
    match prepare_statement("insert 7 bbuford bbuford@example.com\n") {
        PrepareResult::Success(Statement { statement_type, row_to_insert }) => {
            assert_eq!(statement_type, StatementType::Insert);
            assert_eq!(
                row_to_insert,
                Some(Row {
                    id: 7,
                    username: String::from("bbuford"),
                    email: String::from("bbuford@example.com"),
                })
            );
        }
        other => panic!("prepared {:?}", other),
    }
}

#[test]
fn select_line_makes_a_select() {
    match prepare_statement("select\n") {
        PrepareResult::Success(Statement { statement_type, row_to_insert }) => {
            assert_eq!(statement_type, StatementType::Select);
            assert_eq!(row_to_insert, None);
        }
        other => panic!("prepared {:?}", other),
    }
}

#[test]
fn other_lines_make_no_statement() {
    assert!(matches!(prepare_statement("update 1\n"), PrepareResult::UnrecognizedStatement));
    assert!(matches!(prepare_statement(""), PrepareResult::UnrecognizedStatement));
    assert!(matches!(prepare_statement("insert\n"), PrepareResult::SyntaxError));
    assert!(matches!(prepare_statement("insert one two three\n"), PrepareResult::SyntaxError));
    assert!(matches!(prepare_statement("insert 1 name\n"), PrepareResult::SyntaxError));
    assert!(matches!(prepare_statement("insert -1 name a@b\n"), PrepareResult::NegativeId));
    assert!(matches!(
        prepare_statement("insert 4294967296 name a@b\n"),
        PrepareResult::NegativeId
    ));
    assert!(matches!(
        prepare_statement("insert 4294967295 name a@b\n"),
        PrepareResult::Success(_)
    ));
    let long_name = format!("insert 1 {} a@b\n", "n".repeat(33));
    assert!(matches!(prepare_statement(&long_name), PrepareResult::StringTooLong));
    let long_mail = format!("insert 1 name {}\n", "m".repeat(256));
    assert!(matches!(prepare_statement(&long_mail), PrepareResult::StringTooLong));
    let fits = format!("insert 1 {} {}\n", "n".repeat(32), "m".repeat(255));
    assert!(matches!(prepare_statement(&fits), PrepareResult::Success(_)));
}

#[test]
fn captured_groups_make_the_row() {
    let groups = vec![
        Some(String::from("insert 12 ab c@d")),
        Some(String::from("12")),
        Some(String::from("ab")),
        Some(String::from("c@d")),
    ];
    match statement_of_groups(groups) {
        PrepareResult::Success(statement) => assert_eq!(
            statement.row_to_insert,
            Some(Row { id: 12, username: String::from("ab"), email: String::from("c@d") })
        ),
        other => panic!("prepared {:?}", other),
    }
    assert!(matches!(statement_of_groups(Vec::new()), PrepareResult::SyntaxError));
    assert!(matches!(
        statement_of_groups(vec![None, Some(String::from("1")), None, None]),
        PrepareResult::SyntaxError
    ));
    assert!(matches!(
        statement_of_groups(vec![
            None,
            Some(String::from("x")),
            Some(String::from("a")),
            Some(String::from("b"))
        ]),
        PrepareResult::NegativeId
    ));
}

#[test]
fn numbers_are_parsed_as_decimal() {
    assert_eq!(parse_u32("0"), Some(0));
    assert_eq!(parse_u32("007"), Some(7));
    assert_eq!(parse_u32("+15"), Some(15));
    assert_eq!(parse_u32("4294967295"), Some(4294967295));
    assert_eq!(parse_u32("4294967296"), None);
    assert_eq!(parse_u32("99999999999999999999999"), None);
    assert_eq!(parse_u32(""), None);
    assert_eq!(parse_u32("+"), None);
    assert_eq!(parse_u32("-3"), None);
    assert_eq!(parse_u32("1a"), None);
    assert_eq!(parse_u32("\u{661}"), None);
}

#[test]
fn prefixes_are_told() {
    assert!(has_prefix("insert 1", "insert"));
    assert!(has_prefix("insert", "insert"));
    assert!(!has_prefix("inser", "insert"));
    assert!(!has_prefix(" insert", "insert"));
    assert!(has_prefix("anything", ""));
}

#[test]
fn exit_command_closes_the_table() {
    let mut table = Table::open(Vec::new()).expect("empty image");
    let row = Row { id: 1, username: String::from("a"), email: String::from("b") };
    assert_eq!(
        table.execute_statement(Statement {
            statement_type: StatementType::Insert,
            row_to_insert: Some(row),
        }),
        Ok(ExecuteResult::InsertSuccess)
    );
    assert_eq!(do_meta_command(".tables\n", &mut table), MetaCommand::UnrecognizedCommand);
    assert_eq!(table.image_bytes().len(), 0);
    assert_eq!(do_meta_command(".exit\n", &mut table), MetaCommand::Success);
    assert_eq!(table.image_bytes().len(), 4096);
    assert_eq!(table.root_page_num(), 0);
    assert_eq!(table.get_root_page_num(), 0);
    assert!(matches!(table.find(1), Ok(Ok(_))));
    assert!(matches!(table.find(2), Ok(Err(_))));
}
