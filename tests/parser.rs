use sqlite_reader::lexer::Lexer;
use sqlite_reader::error::ParseError;
use sqlite_reader::parser::{Ast, Constraint, Op, Parser};

#[test]
fn select_from() {
    let input = "SELECT * FROM Employee;";

    let mut lexer = Lexer::new(input.to_string());

    let tokens = lexer.lex().unwrap();

    let mut parser = Parser::new(tokens);

    let expected = Ast::StmtList(vec![Ast::Stmt(Box::new(Ast::Select {
        result_columns: vec![Ast::All],
        from: Box::new(Ast::TableOrSubQuery(Box::new(Ast::Table(
            "EMPLOYEE".to_string(),
        )))),
        where_clause: None,
    }))]);

    let ast = parser.parse().unwrap();

    assert_eq!(ast, expected);
}

#[test]
fn select_apple_from_fruits() {
    let input = "SELECT apple FROM fruits;";

    let mut lexer = Lexer::new(input.to_string());

    let tokens = lexer.lex().unwrap();

    let mut parser = Parser::new(tokens);

    let expected = Ast::StmtList(vec![Ast::Stmt(Box::new(Ast::Select {
        result_columns: vec![Ast::Expr(Box::new(Ast::Identifier("APPLE".to_string())))],
        from: Box::new(Ast::TableOrSubQuery(Box::new(Ast::Table(
            "FRUITS".to_string(),
        )))),
        where_clause: None,
    }))]);

    let ast = parser.parse().unwrap();

    assert_eq!(ast, expected);
}

#[test]
fn select_multiple_columns() {
    let input = "SELECT name, color FROM apples;";

    let mut lexer = Lexer::new(input.to_string());

    let tokens = lexer.lex().unwrap();

    let mut parser = Parser::new(tokens);

    let expected = Ast::StmtList(vec![Ast::Stmt(Box::new(Ast::Select {
        result_columns: vec![
            Ast::Expr(Box::new(Ast::Identifier("NAME".to_string()))),
            Ast::Expr(Box::new(Ast::Identifier("COLOR".to_string()))),
        ],
        from: Box::new(Ast::TableOrSubQuery(Box::new(Ast::Table(
            "APPLES".to_string(),
        )))),
        where_clause: None,
    }))]);

    let ast = parser.parse().unwrap();

    assert_eq!(ast, expected);
}

#[test]
fn parser_select_count() {
    let input = "SELECT COUNT(*) FROM Employee;";

    let mut lexer = Lexer::new(input.to_string());

    let tokens = lexer.lex().unwrap();

    let mut parser = Parser::new(tokens);

    let expected = Ast::StmtList(vec![Ast::Stmt(Box::new(Ast::Select {
        result_columns: vec![Ast::Expr(Box::new(Ast::Function {
            name: "COUNT".to_string(),
            args: vec![Ast::All],
        }))],
        from: Box::new(Ast::TableOrSubQuery(Box::new(Ast::Table(
            "EMPLOYEE".to_string(),
        )))),
        where_clause: None,
    }))]);

    let ast = parser.parse().unwrap();

    assert_eq!(ast, expected);
}

#[test]
fn parser_create_table() {
    let input = "CREATE TABLE Employee (id INTEGER PRIMARY KEY AUTOINCREMENT, name TEXT);";

    let mut lexer = Lexer::new(input.to_string());

    let tokens = lexer.lex().unwrap();

    let mut parser = Parser::new(tokens);

    let expected = Ast::StmtList(vec![Ast::Stmt(Box::new(Ast::CreateTable {
        name: "EMPLOYEE".to_string(),
        column_defs: vec![
            Ast::ColumnDef {
                name: "ID".to_string(),
                data_type: "INTEGER".to_string(),
                constraints: vec![Constraint::PrimaryKey, Constraint::AutoIncrement],
            },
            Ast::ColumnDef {
                name: "NAME".to_string(),
                data_type: "TEXT".to_string(),
                constraints: vec![],
            },
        ],
    }))]);

    let ast = parser.parse().unwrap();

    assert_eq!(ast, expected);
}

#[test]
fn parser_select_from_where() {
    let input = "SELECT name, color FROM apples WHERE color = 'Yellow';";
    let mut lexer = Lexer::new(input.to_string());
    let tokens = lexer.lex().unwrap();
    let mut parser = Parser::new(tokens);

    let expected = Ast::StmtList(vec![Ast::Stmt(Box::new(Ast::Select {
        result_columns: vec![
            Ast::Expr(Box::new(Ast::Identifier("NAME".to_string()))),
            Ast::Expr(Box::new(Ast::Identifier("COLOR".to_string()))),
        ],
        from: Box::new(Ast::TableOrSubQuery(Box::new(Ast::Table(
            "APPLES".to_string(),
        )))),
        where_clause: Some(Box::new(Ast::Expr(Box::new(Ast::BinaryOp {
            op: Op::Equal,
            lhs: Box::new(Ast::Expr(Box::new(Ast::Identifier("COLOR".to_string())))),
            rhs: Box::new(Ast::Expr(Box::new(Ast::StringLiteral(
                "Yellow".to_string(),
            )))),
        })))),
    }))]);

    let ast = parser.parse().unwrap();

    assert_eq!(ast, expected);
}

#[test]
fn create_superhero_table() {
    let input = "CREATE TABLE \"superheroes\" (id integer primary key autoincrement, name text not null, eye_color text, hair_color text, appearance_count integer, first_appearance text, first_appearance_year text)";
    let mut lexer = Lexer::new(input.to_string());
    let tokens = lexer.lex().unwrap();
    let mut parser = Parser::new(tokens);

    let expected = Ast::StmtList(vec![Ast::Stmt(Box::new(Ast::CreateTable {
        name: "superheroes".to_string(),
        column_defs: vec![
            Ast::ColumnDef {
                name: "ID".to_string(),
                data_type: "INTEGER".to_string(),
                constraints: vec![Constraint::PrimaryKey, Constraint::AutoIncrement],
            },
            Ast::ColumnDef {
                name: "NAME".to_string(),
                data_type: "TEXT".to_string(),
                constraints: vec![Constraint::NotNull],
            },
            Ast::ColumnDef {
                name: "EYE_COLOR".to_string(),
                data_type: "TEXT".to_string(),
                constraints: vec![],
            },
            Ast::ColumnDef {
                name: "HAIR_COLOR".to_string(),
                data_type: "TEXT".to_string(),
                constraints: vec![],
            },
            Ast::ColumnDef {
                name: "APPEARANCE_COUNT".to_string(),
                data_type: "INTEGER".to_string(),
                constraints: vec![],
            },
            Ast::ColumnDef {
                name: "FIRST_APPEARANCE".to_string(),
                data_type: "TEXT".to_string(),
                constraints: vec![],
            },
            Ast::ColumnDef {
                name: "FIRST_APPEARANCE_YEAR".to_string(),
                data_type: "TEXT".to_string(),
                constraints: vec![],
            },
        ],
    }))]);

    let ast = parser.parse().unwrap();
    assert_eq!(ast, expected);
}

#[test]
fn create_table_with_string_literal_column_name() {
    let input = "CREATE TABLE companies\n(\n\tid integer primary key autoincrement\n, \"size range\" text, locality text);";
    let mut lexer = Lexer::new(input.to_string());
    let tokens = lexer.lex().unwrap();
    let mut parser = Parser::new(tokens);

    let expected = Ast::StmtList(vec![Ast::Stmt(Box::new(Ast::CreateTable {
        name: "COMPANIES".to_string(),
        column_defs: vec![
            Ast::ColumnDef {
                name: "ID".to_string(),
                data_type: "INTEGER".to_string(),
                constraints: vec![Constraint::PrimaryKey, Constraint::AutoIncrement],
            },
            Ast::ColumnDef {
                name: "SIZE RANGE".to_string(),
                data_type: "TEXT".to_string(),
                constraints: vec![],
            },
            Ast::ColumnDef {
                name: "LOCALITY".to_string(),
                data_type: "TEXT".to_string(),
                constraints: vec![],
            },
        ],
    }))]);

    let ast = parser.parse().unwrap();
    assert_eq!(ast, expected);
}

#[test]
fn sqlite_sequence() {
    let input = "CREATE TABLE sqlite_sequence(name,seq);";
    let mut lexer = Lexer::new(input.to_string());
    let tokens = lexer.lex().unwrap();
    let mut parser = Parser::new(tokens);

    let expected = Ast::StmtList(vec![Ast::Stmt(Box::new(Ast::CreateTable {
        name: "SQLITE_SEQUENCE".to_string(),
        column_defs: vec![
            Ast::ColumnDef {
                name: "NAME".to_string(),
                data_type: "TEXT".to_string(),
                constraints: vec![],
            },
            Ast::ColumnDef {
                name: "SEQ".to_string(),
                data_type: "INTEGER".to_string(),
                constraints: vec![],
            },
        ],
    }))]);

    let ast = parser.parse().unwrap();
    assert_eq!(ast, expected);
}

#[test]
fn parser_create_index() {
    let input =
        "CREATE INDEX idx_superheroes_first_appeared ON superheroes (first_appearance);";
    let mut lexer = Lexer::new(input.to_string());
    let tokens = lexer.lex().unwrap();
    let mut parser = Parser::new(tokens);

    let expected = Ast::StmtList(vec![Ast::Stmt(Box::new(Ast::CreateIndex {
        name: "IDX_SUPERHEROES_FIRST_APPEARED".to_string(),
        table_name: "SUPERHEROES".to_string(),
        columns: vec![Ast::Identifier("FIRST_APPEARANCE".to_string())],
    }))]);

    let ast = parser.parse().unwrap();
    assert_eq!(ast, expected);
}

#[test]
fn parser_rejects_missing_from() {
    let mut lexer = Lexer::new("SELECT name apples;".to_string());
    let tokens = lexer.lex().unwrap();
    let mut parser = Parser::new(tokens);
    assert_eq!(parser.parse(), Err(ParseError::UnexpectedToken(2)));
}

#[test]
fn parser_where_with_double_quoted_value() {
    let mut lexer =
        Lexer::new("SELECT id, name FROM superheroes WHERE eye_color = \"Pink Eyes\"".to_string());
    let tokens = lexer.lex().unwrap();
    let mut parser = Parser::new(tokens);
    let expected = Ast::StmtList(vec![Ast::Stmt(Box::new(Ast::Select {
        result_columns: vec![
            Ast::Expr(Box::new(Ast::Identifier("ID".to_string()))),
            Ast::Expr(Box::new(Ast::Identifier("NAME".to_string()))),
        ],
        from: Box::new(Ast::TableOrSubQuery(Box::new(Ast::Table(
            "SUPERHEROES".to_string(),
        )))),
        where_clause: Some(Box::new(Ast::Expr(Box::new(Ast::BinaryOp {
            op: Op::Equal,
            lhs: Box::new(Ast::Expr(Box::new(Ast::Identifier("EYE_COLOR".to_string())))),
            rhs: Box::new(Ast::Expr(Box::new(Ast::StringLiteral(
                "Pink Eyes".to_string(),
            )))),
        })))),
    }))]);
    assert_eq!(parser.parse().unwrap(), expected);
}

#[test]
fn parser_create_only_reads_create() {
    let mut lexer = Lexer::new("CREATE INDEX i ON t (a, b)".to_string());
    let tokens = lexer.lex().unwrap();
    let mut parser = Parser::new(tokens);
    let expected = Ast::CreateIndex {
        name: "I".to_string(),
        table_name: "T".to_string(),
        columns: vec![
            Ast::Identifier("A".to_string()),
            Ast::Identifier("B".to_string()),
        ],
    };
    assert_eq!(parser.parse_create().unwrap(), expected);
}

#[test]
fn parser_rejects_primary_without_key() {
    let mut lexer = Lexer::new("CREATE TABLE t (a INTEGER PRIMARY)".to_string());
    let tokens = lexer.lex().unwrap();
    let mut parser = Parser::new(tokens);
    assert!(parser.parse().is_err());
}

#[test]
fn parser_constraint_not_null() {
    let mut lexer = Lexer::new("CREATE TABLE t (a TEXT NOT NULL)".to_string());
    let tokens = lexer.lex().unwrap();
    let mut parser = Parser::new(tokens);
    let expected = Ast::StmtList(vec![Ast::Stmt(Box::new(Ast::CreateTable {
        name: "T".to_string(),
        column_defs: vec![Ast::ColumnDef {
            name: "A".to_string(),
            data_type: "TEXT".to_string(),
            constraints: vec![Constraint::NotNull],
        }],
    }))]);
    assert_eq!(parser.parse().unwrap(), expected);
}
