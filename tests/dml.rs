use adaptivedb::basic_types::BasicType;
use adaptivedb::catalogue::{Catalogue, Column, Table};
use adaptivedb::dml::{analyze, parse, DMLAnalyzer, DMLLexer, DMLParser, DMLStatement, DMLTokenType};

fn employee_catalogue(columns: &[&str]) -> Catalogue {
    let columns = columns
        .iter()
        .map(|c| Column::new(c.to_string(), BasicType::String, false))
        .collect();
    Catalogue::new(vec![Table::new("Employee".to_string(), columns, 0)])
}

fn lex_all(text: &str) -> Vec<DMLTokenType> {
    let mut lexer = DMLLexer::new(text.to_string());
    let mut tokens = Vec::new();
    while let Some(token) = lexer.next_token() {
        tokens.push(token.token_type);
    }
    tokens
}

#[test]
fn test_dml_lexer() {
    let input = "insert into Employee (EmployeeID, FirstName, LastName) values ('1', 'John', 'Doe'); commit;";
    let correct_sequence = vec![
        DMLTokenType::Insert,
        DMLTokenType::Into,
        DMLTokenType::Identifier("Employee".to_string()),
        DMLTokenType::OpenParenthesis,
        DMLTokenType::Identifier("EmployeeID".to_string()),
        DMLTokenType::Comma,
        DMLTokenType::Identifier("FirstName".to_string()),
        DMLTokenType::Comma,
        DMLTokenType::Identifier("LastName".to_string()),
        DMLTokenType::CloseParenthesis,
        DMLTokenType::Values,
        DMLTokenType::OpenParenthesis,
        DMLTokenType::String("1".to_string()),
        DMLTokenType::Comma,
        DMLTokenType::String("John".to_string()),
        DMLTokenType::Comma,
        DMLTokenType::String("Doe".to_string()),
        DMLTokenType::CloseParenthesis,
        DMLTokenType::SemiColon,
        DMLTokenType::Commit,
        DMLTokenType::SemiColon,
    ];

    let mut lexer = DMLLexer::new(input.to_string());
    for token in correct_sequence.iter() {
        let next_token = lexer.next_token().unwrap();
        assert_eq!(next_token.token_type, *token);
    }
}

#[test]
fn test_dml_parser_insert_statement() {
    let input = "insert into Employee (EmployeeID, FirstName, LastName) values ('1', 'John', 'Doe'); commit;";
    let mut parser = DMLParser::new(input.to_string());
    let statement = parser.parse();
    match statement {
        Some(DMLStatement::Insert(insert_statement)) => {
            assert_eq!(insert_statement.table_name, "Employee");
            assert_eq!(
                insert_statement.columns,
                vec!["EmployeeID", "FirstName", "LastName"]
            );
            assert_eq!(insert_statement.values, vec!["1", "John", "Doe"]);
        }
        _ => {
            assert!(false);
        }
    }

    let statement = parser.parse();
    match statement {
        Some(DMLStatement::Commit) => {
            assert!(true);
        }
        _ => {
            assert!(false);
        }
    }
}

#[test]
fn lexing_an_insert_gives_the_exact_tokens() {
    let tokens = lex_all("insert into Employee (EmployeeID, FirstName) values ('1', 'John'); commit;");
    assert_eq!(
        tokens,
        vec![
            DMLTokenType::Insert,
            DMLTokenType::Into,
            DMLTokenType::Identifier("Employee".to_string()),
            DMLTokenType::OpenParenthesis,
            DMLTokenType::Identifier("EmployeeID".to_string()),
            DMLTokenType::Comma,
            DMLTokenType::Identifier("FirstName".to_string()),
            DMLTokenType::CloseParenthesis,
            DMLTokenType::Values,
            DMLTokenType::OpenParenthesis,
            DMLTokenType::String("1".to_string()),
            DMLTokenType::Comma,
            DMLTokenType::String("John".to_string()),
            DMLTokenType::CloseParenthesis,
            DMLTokenType::SemiColon,
            DMLTokenType::Commit,
            DMLTokenType::SemiColon,
        ]
    );
}

#[test]
fn numbers_strings_and_positions() {
    let mut lexer = DMLLexer::new(" 42 'a b'x".to_string());
    let first = lexer.next_token().unwrap();
    assert_eq!(first.token_type, DMLTokenType::Number("42".to_string()));
    assert_eq!(first.position, 1);
    let second = lexer.next_token().unwrap();
    assert_eq!(second.token_type, DMLTokenType::String("a b".to_string()));
    assert_eq!(second.position, 4);
    let third = lexer.next_token().unwrap();
    assert_eq!(third.token_type, DMLTokenType::Identifier("x".to_string()));
    assert!(lexer.next_token().is_none());
    assert!(lexer.next_token().is_none());
}

#[test]
fn unterminated_string_runs_to_the_end() {
    assert_eq!(
        lex_all("values ('abc"),
        vec![
            DMLTokenType::Values,
            DMLTokenType::OpenParenthesis,
            DMLTokenType::String("abc".to_string()),
        ]
    );
    assert_eq!(lex_all("   "), Vec::<DMLTokenType>::new());
}

#[test]
fn parse_takes_the_first_statement() {
    match parse("insert into T (a) values ('x'); commit;") {
        Some(DMLStatement::Insert(i)) => {
            assert_eq!(i.table_name, "T");
            assert_eq!(i.columns, vec!["a"]);
            assert_eq!(i.values, vec!["x"]);
        }
        _ => panic!("expected an insertion"),
    }
    assert!(matches!(parse("commit;"), Some(DMLStatement::Commit)));
}

#[test]
fn malformed_statements_give_none() {
    assert!(parse("").is_none());
    assert!(parse("commit").is_none());
    assert!(parse("select * from T;").is_none());
    assert!(parse("insert T values ('x');").is_none());
    assert!(parse("insert into T (a) values ('x')").is_none());
}

#[test]
fn missing_table_name_fails() {
    assert!(parse("insert into 7 (a) values ('x');").is_none());
    assert!(parse("insert into (a) values ('x');").is_none());
}

#[test]
fn insert_without_column_list() {
    match parse("insert into Employee values ('1', 'John');") {
        Some(DMLStatement::Insert(i)) => {
            assert_eq!(i.table_name, "Employee");
            assert_eq!(i.columns, Vec::<String>::new());
            assert_eq!(i.values, vec!["1", "John"]);
        }
        _ => panic!("expected an insertion"),
    }
}

#[test]
fn every_expected_token_is_required() {
    assert!(parse("insert into T (a values ('x');").is_none());
    assert!(parse("insert into T (a) ('x');").is_none());
    assert!(parse("insert into T (a) values 'x';").is_none());
    assert!(parse("insert into T (a) values ('x';").is_none());
    assert!(parse("insert into T (a) values ('x') commit;").is_none());
}

#[test]
fn counts_of_columns_and_values_are_not_compared() {
    match parse("insert into T (a, b) values ('x');") {
        Some(DMLStatement::Insert(i)) => {
            assert_eq!(i.columns, vec!["a", "b"]);
            assert_eq!(i.values, vec!["x"]);
        }
        _ => panic!("expected an insertion"),
    }
}

#[test]
fn all_white_space_separates_tokens() {
    let mut lexer = DMLLexer::new("insert\ninto\tEmployee \n".to_string());
    assert_eq!(lexer.next_token().unwrap().token_type, DMLTokenType::Insert);
    assert_eq!(lexer.next_token().unwrap().token_type, DMLTokenType::Into);
    assert_eq!(
        lexer.next_token().unwrap().token_type,
        DMLTokenType::Identifier("Employee".to_string())
    );
    assert!(lexer.next_token().is_none());
    assert_eq!(
        lex_all("12\t'a\tb'\r\n;"),
        vec![
            DMLTokenType::Number("12".to_string()),
            DMLTokenType::String("a\tb".to_string()),
            DMLTokenType::SemiColon,
        ]
    );
    assert!(matches!(parse("commit\n;"), Some(DMLStatement::Commit)));
}

#[test]
fn analysis_of_missing_table() {
    let catalogue = Catalogue::new(Vec::new());
    let statement = parse("insert into Employee (EmployeeID, FirstName) values ('1', 'John');").unwrap();
    assert_eq!(
        analyze(statement, &catalogue),
        vec!["Table Employee does not exist".to_string()]
    );
}

#[test]
fn analysis_of_missing_column() {
    let catalogue = employee_catalogue(&["EmployeeID", "LastName"]);
    let statement = parse("insert into Employee (EmployeeID, FirstName) values ('1', 'John');").unwrap();
    assert_eq!(
        analyze(statement, &catalogue),
        vec!["Column FirstName does not exist in table Employee".to_string()]
    );
}

#[test]
fn analysis_reports_every_missing_column() {
    let catalogue = employee_catalogue(&["EmployeeID"]);
    let statement = parse("insert into Employee (A, EmployeeID, B) values ('1', '2', '3');").unwrap();
    let analyzer = DMLAnalyzer::new(vec![statement]);
    assert_eq!(
        analyzer.analyze(&catalogue),
        vec![
            "Column A does not exist in table Employee".to_string(),
            "Column B does not exist in table Employee".to_string(),
        ]
    );
    assert_eq!(analyzer.check_table_exists(&catalogue), Vec::<String>::new());
}

#[test]
fn analysis_of_valid_insert_and_commit() {
    let catalogue = employee_catalogue(&["EmployeeID", "FirstName"]);
    let statement = parse("insert into Employee (EmployeeID, FirstName) values ('1', 'John');").unwrap();
    assert_eq!(analyze(statement, &catalogue), Vec::<String>::new());
    assert_eq!(analyze(DMLStatement::Commit, &catalogue), Vec::<String>::new());
}
