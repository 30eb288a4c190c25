use sqlite_reader::error::DbError;
use sqlite_reader::sql::{
    sql_statement, CreateIndexStatement, CreateTableStatement, SelectStatement, Statement,
    WhereClause,
};

#[test]
fn select() {
    let statement = r#"
    SELECT
        id,
        name
    FROM foobar
    "#;

    assert_eq!(
        sql_statement(statement),
        Ok(Statement::Select(SelectStatement {
            from: String::from("foobar"),
            select: vec![String::from("id"), String::from("name")],
            where_clause: None,
        }))
    )
}

#[test]
fn select_count() {
    let statement = r#"
    SELECT
        COUNT(*)
    FROM foobar
    "#;

    assert_eq!(
        sql_statement(statement),
        Ok(Statement::Select(SelectStatement {
            from: String::from("foobar"),
            select: vec![String::from("COUNT(*)")],
            where_clause: None,
        }))
    )
}

#[test]
fn select_with_where() {
    let statement = r#"
    SELECT
        id,
        name
    FROM foobar
    WHERE name = 'Some Guy'
    "#;

    assert_eq!(
        sql_statement(statement),
        Ok(Statement::Select(SelectStatement {
            from: String::from("foobar"),
            select: vec![String::from("id"), String::from("name")],
            where_clause: Some(WhereClause {
                column: String::from("name"),
                value: String::from("Some Guy"),
            })
        }))
    );

    let statement = "SELECT id, name FROM superheroes WHERE eye_color = 'Pink Eyes'";

    assert_eq!(
        sql_statement(statement),
        Ok(Statement::Select(SelectStatement {
            from: String::from("superheroes"),
            select: vec![String::from("id"), String::from("name")],
            where_clause: Some(WhereClause {
                column: String::from("eye_color"),
                value: String::from("Pink Eyes"),
            })
        }))
    );
}

#[test]
fn create_table() {
    let statement = r#"
    CReaTE TABLE foobar (
        id integer autoincrement,
        name varchar
    )
    "#;

    assert_eq!(
        sql_statement(statement),
        Ok(Statement::CreateTable(CreateTableStatement {
            name: String::from("foobar"),
            columns: vec![String::from("id"), String::from("name")]
        }))
    );

    let statement = r#"
    CREATE TABLE companies
(
        id integer primary key autoincrement
, name text, domain text, year_founded text, industry text, "size range" text, locality text, country text, current_employees text, total_employees text)
    "#;

    assert_eq!(
        sql_statement(statement),
        Ok(Statement::CreateTable(CreateTableStatement {
            name: String::from("companies"),
            columns: vec![
                String::from("id"),
                String::from("name"),
                String::from("domain"),
                String::from("year_founded"),
                String::from("industry"),
                String::from("size range"),
                String::from("locality"),
                String::from("country"),
                String::from("current_employees"),
                String::from("total_employees"),
            ]
        }))
    );
}

#[test]
fn create_index() {
    let statement = "CREATE INDEX idx_sh_eye_color\n on superheroes (eye_color)";
    assert_eq!(
        sql_statement(statement),
        Ok(Statement::CreateIndex(CreateIndexStatement {
            name: String::from("idx_sh_eye_color"),
            table_name: String::from("superheroes"),
            columns: vec![String::from("eye_color")],
        }))
    );
}

#[test]
fn count_is_case_insensitive() {
    match sql_statement("select count(*) from apples") {
        Ok(Statement::Select(s)) => assert_eq!(s.select, vec![String::from("COUNT(*)")]),
        other => panic!("unexpected {:?}", other),
    }
}

#[test]
fn malformed_sql_is_a_parse_error() {
    assert_eq!(sql_statement("SELECT FROM"), Err(DbError::Parse));
    assert_eq!(sql_statement("SELECT id FROM t WHERE x = 'open"), Err(DbError::Parse));
    assert_eq!(sql_statement("DROP TABLE t"), Err(DbError::Parse));
    assert_eq!(sql_statement("SELECT id FROM t extra"), Err(DbError::Parse));
}

#[test]
fn whitespace_around_commas_is_allowed() {
    match sql_statement("SELECT a , b\tFROM t") {
        Ok(Statement::Select(s)) => {
            assert_eq!(s.select, vec![String::from("a"), String::from("b")]);
            assert_eq!(s.from, String::from("t"));
        }
        other => panic!("unexpected {:?}", other),
    }
}
