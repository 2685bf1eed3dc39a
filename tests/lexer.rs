use sqlite_reader::lexer::{LexError, Lexer, Token};

#[test]
fn lexer_create_table() {
    let input = "CREATE TABLE Employee (
        id INTEGER PRIMARY KEY, -- You might want to include a unique ID for each employee
        name TEXT,
        age INTEGER,
        job_title TEXT
    );";

    let mut lexer = Lexer::new(input.to_string());

    let expected = vec![
        Token::Create,
        Token::Table,
        Token::Identifier("EMPLOYEE".to_string()),
        Token::LParen,
        Token::Identifier("ID".to_string()),
        Token::Identifier("INTEGER".to_string()),
        Token::Primary,
        Token::Key,
        Token::Comma,
        Token::Identifier("NAME".to_string()),
        Token::Identifier("TEXT".to_string()),
        Token::Comma,
        Token::Identifier("AGE".to_string()),
        Token::Identifier("INTEGER".to_string()),
        Token::Comma,
        Token::Identifier("JOB_TITLE".to_string()),
        Token::Identifier("TEXT".to_string()),
        Token::RParen,
        Token::Semicolon,
        Token::Eof,
    ];

    let tokens = lexer.lex().unwrap();
    assert_eq!(tokens, expected);
}

#[test]
fn select() {
    let input = "SELECT * FROM Employee;";

    let mut lexer = Lexer::new(input.to_string());

    let expected = vec![
        Token::Select,
        Token::Star,
        Token::From,
        Token::Identifier("EMPLOYEE".to_string()),
        Token::Semicolon,
        Token::Eof,
    ];

    let tokens = lexer.lex().unwrap();
    assert_eq!(tokens, expected);
}

#[test]
fn lower_case_keywords() {
    let input = "select * from Employee;";

    let mut lexer = Lexer::new(input.to_string());

    let expected = vec![
        Token::Select,
        Token::Star,
        Token::From,
        Token::Identifier("EMPLOYEE".to_string()),
        Token::Semicolon,
        Token::Eof,
    ];

    let tokens = lexer.lex().unwrap();
    assert_eq!(tokens, expected);
}

#[test]
fn lexer_select_count() {
    let input = "SELECT COUNT(*) FROM Employee;";

    let mut lexer = Lexer::new(input.to_string());

    let expected = vec![
        Token::Select,
        Token::Identifier("COUNT".to_string()),
        Token::LParen,
        Token::Star,
        Token::RParen,
        Token::From,
        Token::Identifier("EMPLOYEE".to_string()),
        Token::Semicolon,
        Token::Eof,
    ];

    let tokens = lexer.lex().unwrap();
    assert_eq!(tokens, expected);
}

#[test]
fn lexer_select_from_where() {
    let input = "SELECT name, color FROM apples WHERE color = 'Yellow';";

    let mut lexer = Lexer::new(input.to_string());

    let expected = vec![
        Token::Select,
        Token::Identifier("NAME".to_string()),
        Token::Comma,
        Token::Identifier("COLOR".to_string()),
        Token::From,
        Token::Identifier("APPLES".to_string()),
        Token::Where,
        Token::Identifier("COLOR".to_string()),
        Token::Equals,
        Token::StringLiteral("Yellow".to_string()),
        Token::Semicolon,
        Token::Eof,
    ];

    let tokens = lexer.lex().unwrap();
    assert_eq!(tokens, expected);
}

#[test]
fn create_example_one() {
    let input = "CREATE TABLE \"superheroes\" (id integer primary key autoincrement, name text not null, eye_color text, hair_color text, appearance_count integer, first_appearance text, first_appearance_year text)";
    let mut lexer = Lexer::new(input.to_string());

    let expected = vec![
        Token::Create,
        Token::Table,
        Token::StringLiteral("superheroes".to_string()),
        Token::LParen,
        Token::Identifier("ID".to_string()),
        Token::Identifier("INTEGER".to_string()),
        Token::Primary,
        Token::Key,
        Token::AutoIncrement,
        Token::Comma,
        Token::Identifier("NAME".to_string()),
        Token::Identifier("TEXT".to_string()),
        Token::Not,
        Token::Null,
        Token::Comma,
        Token::Identifier("EYE_COLOR".to_string()),
        Token::Identifier("TEXT".to_string()),
        Token::Comma,
        Token::Identifier("HAIR_COLOR".to_string()),
        Token::Identifier("TEXT".to_string()),
        Token::Comma,
        Token::Identifier("APPEARANCE_COUNT".to_string()),
        Token::Identifier("INTEGER".to_string()),
        Token::Comma,
        Token::Identifier("FIRST_APPEARANCE".to_string()),
        Token::Identifier("TEXT".to_string()),
        Token::Comma,
        Token::Identifier("FIRST_APPEARANCE_YEAR".to_string()),
        Token::Identifier("TEXT".to_string()),
        Token::RParen,
        Token::Eof,
    ];

    let tokens = lexer.lex().unwrap();
    assert_eq!(tokens, expected);
}

#[test]
fn lexer_create_index() {
    let input =
        "CREATE INDEX idx_superheroes_first_appeared ON superheroes (first_appearance);";
    let mut lexer = Lexer::new(input.to_string());

    let expected = [
        Token::Create,
        Token::Index,
        Token::Identifier("IDX_SUPERHEROES_FIRST_APPEARED".to_string()),
        Token::On,
        Token::Identifier("SUPERHEROES".to_string()),
        Token::LParen,
        Token::Identifier("FIRST_APPEARANCE".to_string()),
        Token::RParen,
        Token::Semicolon,
        Token::Eof,
    ];

    let tokens = lexer.lex().unwrap();
    assert_eq!(tokens, expected);
}

#[test]
fn lexer_rejects_unknown_character() {
    let mut lexer = Lexer::new("SELECT # FROM t".to_string());
    assert_eq!(lexer.lex(), Err(LexError::UnexpectedCharacter('#')));
}

#[test]
fn lexer_rejects_unterminated_literal() {
    let mut lexer = Lexer::new("SELECT 'abc".to_string());
    assert_eq!(lexer.lex(), Err(LexError::UnterminatedLiteral));
}

#[test]
fn lexer_double_quoted_literal() {
    let mut lexer = Lexer::new("\"Pink Eyes\"".to_string());
    let tokens = lexer.lex().unwrap();
    assert_eq!(
        tokens,
        vec![Token::StringLiteral("Pink Eyes".to_string()), Token::Eof]
    );
}

#[test]
fn lexer_next_token_steps_through_text() {
    let mut lexer = Lexer::new("  ( select".to_string());
    assert_eq!(lexer.next_token().unwrap(), Token::LParen);
    assert_eq!(lexer.next_token().unwrap(), Token::Select);
    assert_eq!(lexer.next_token().unwrap(), Token::Eof);
}

#[test]
fn lexer_skips_comment_line() {
    let mut lexer = Lexer::new("-- note\nON".to_string());
    assert_eq!(lexer.lex().unwrap(), vec![Token::On, Token::Eof]);
}
