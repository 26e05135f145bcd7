use adaptivedb::basic_types::BasicType;
use adaptivedb::ddl::{
    analyze, letters_of, parse, parse_with_letters, DDLAnalyzer, DDLLexer, DDLParser, DDLTokenType,
    Field, Model,
};

fn field(name: &str, field_type: BasicType, is_nullable: bool, is_primary_key: bool) -> Field {
    Field {
        name: name.to_string(),
        field_type,
        is_nullable,
        is_primary_key,
        is_foreign_key: false,
        references: None,
    }
}

fn lex_all(text: &str) -> Vec<DDLTokenType> {
    let mut lexer = DDLLexer::new(text.to_string());
    let mut tokens = Vec::new();
    while let Some(token) = lexer.next_token() {
        tokens.push(token.token_type);
    }
    tokens
}

#[test]
fn test_ddl_lexer() {
    let ddl = "model {}() identifier Int Float Date ? , @";
    let correct_sequence = vec![
        DDLTokenType::Model,
        DDLTokenType::OpenBrace,
        DDLTokenType::CloseBrace,
        DDLTokenType::OpenParen,
        DDLTokenType::CloseParen,
        DDLTokenType::Identifier("identifier".to_string()),
        DDLTokenType::Type("Int".to_string()),
        DDLTokenType::Type("Float".to_string()),
        DDLTokenType::Type("Date".to_string()),
        DDLTokenType::QuestionMark,
        DDLTokenType::Comma,
        DDLTokenType::AtSign,
    ];
    let mut lexer = DDLLexer::new(ddl.to_string());
    let mut tokens = Vec::new();
    while let Some(token) = lexer.next_token() {
        tokens.push(token.token_type);
    }
    assert_eq!(tokens, correct_sequence);
}

#[test]
fn test_ddl_parser() {
    let ddl = "model Employee { EmployeeID String @id FirstName String LastName String DepartmentID Int? JobTitle String? HireDate Date }";
    let correct_model = vec![Model {
        name: "Employee".to_string(),
        fields: vec![
            field("EmployeeID", BasicType::String, false, true),
            field("FirstName", BasicType::String, false, false),
            field("LastName", BasicType::String, false, false),
            field("DepartmentID", BasicType::Int, true, false),
            field("JobTitle", BasicType::String, true, false),
            field("HireDate", BasicType::Date, false, false),
        ],
    }];
    let lexer = DDLLexer::new(ddl.to_string());
    let mut parser = DDLParser::new(lexer);
    let mut models = Vec::new();
    while let Some(model) = parser.parse_model() {
        models.push(model);
    }
    assert_eq!(models, correct_model);
}

#[test]
fn test_ddl_analyzer_every_model_has_primary_key() {
    let ddl = "model Employee { EmployeeID String }";
    let correct_errors = vec!["Model Employee has 0 primary keys, expected 1".to_string()];

    let lexer = DDLLexer::new(ddl.to_string());
    let mut parser = DDLParser::new(lexer);
    let mut models = Vec::new();
    while let Some(model) = parser.parse_model() {
        models.push(model);
    }
    let analyzer = DDLAnalyzer::new(&models);
    let errors = analyzer.analyze();
    assert_eq!(errors, correct_errors);
}

#[test]
fn relexing_the_same_text_gives_the_same_tokens() {
    let ddl = "model Employee { EmployeeID String @id FirstName String? }";
    let first = lex_all(ddl);
    let second = lex_all(ddl);
    assert_eq!(first, second);
    assert_eq!(first.len(), 11);
}

#[test]
fn model_without_primary_key_gets_one_message() {
    let models = parse("model Employee { EmployeeID String FirstName String }".to_string());
    assert_eq!(
        analyze(&models),
        vec!["Model Employee has 0 primary keys, expected 1".to_string()]
    );
}

#[test]
fn model_with_one_primary_key_gets_no_message() {
    let models = parse("model Employee { EmployeeID String @id FirstName String }".to_string());
    assert_eq!(analyze(&models), Vec::<String>::new());
}

#[test]
fn many_primary_keys_are_counted_in_decimal() {
    let mut text = String::from("model Wide {");
    for i in 0..12 {
        text.push_str(&format!(" f{} Int @id", "abcdefghijkl".chars().nth(i).unwrap()));
    }
    text.push_str(" }");
    let models = parse(text);
    assert_eq!(models.len(), 1);
    assert_eq!(models[0].fields.len(), 12);
    assert_eq!(
        analyze(&models),
        vec!["Model Wide has 12 primary keys, expected 1".to_string()]
    );
}

#[test]
fn parse_two_field_model() {
    let models = parse("model Employee { EmployeeID String @id FirstName String }".to_string());
    assert_eq!(models.len(), 1);
    assert_eq!(models[0].name, "Employee");
    assert_eq!(models[0].fields.len(), 2);
    assert!(models[0].fields[0].is_primary_key);
    assert!(!models[0].fields[1].is_primary_key);
}

#[test]
fn parse_references_annotation() {
    let models =
        parse("model Salary { SalaryID Int @id EmployeeID Int @references(Employee, EmployeeID) }".to_string());
    assert_eq!(models.len(), 1);
    assert_eq!(models[0].fields.len(), 2);
    assert_eq!(
        models[0].fields[1].references,
        Some(("Employee".to_string(), "EmployeeID".to_string()))
    );
    assert!(!models[0].fields[1].is_primary_key);
}

#[test]
fn malformed_references_truncates_the_model() {
    let models = parse("model Salary { SalaryID Int @id EmployeeID Int @references(Employee) }".to_string());
    assert_eq!(models.len(), 1);
    assert_eq!(models[0].fields.len(), 1);
    assert_eq!(models[0].fields[0].name, "SalaryID");
}

#[test]
fn repeated_annotations_only_add_flags() {
    let models = parse("model A { x Int @id @id y Date? }".to_string());
    assert_eq!(
        models,
        vec![Model {
            name: "A".to_string(),
            fields: vec![
                field("x", BasicType::Int, false, true),
                field("y", BasicType::Date, true, false),
            ],
        }]
    );
}

#[test]
fn closing_brace_ends_the_parse() {
    let models = parse("model A { x Int @id } model B { y Int @id }".to_string());
    assert_eq!(models.len(), 1);
    assert_eq!(models[0].name, "A");
}

#[test]
fn models_without_closing_braces_all_parse() {
    let models = parse("model A { x Int @id model B { y Int @id".to_string());
    assert_eq!(models.len(), 2);
    assert_eq!(models[1].name, "B");
    assert_eq!(models[1].fields.len(), 1);
}

#[test]
fn malformed_text_gives_no_models() {
    assert_eq!(parse("".to_string()), Vec::<Model>::new());
    assert_eq!(parse("Employee { }".to_string()), Vec::<Model>::new());
    assert_eq!(parse("model { }".to_string()), Vec::<Model>::new());
}

#[test]
fn invalid_characters_are_skipped() {
    let tokens = lex_all("model # Employee%{");
    assert_eq!(
        tokens,
        vec![
            DDLTokenType::Model,
            DDLTokenType::Identifier("Employee".to_string()),
            DDLTokenType::OpenBrace,
        ]
    );
}

#[test]
fn unicode_letters_and_spaces() {
    let tokens = lex_all("model\tCafé\n{");
    assert_eq!(
        tokens,
        vec![
            DDLTokenType::Model,
            DDLTokenType::Identifier("Café".to_string()),
            DDLTokenType::OpenBrace,
        ]
    );
}

#[test]
fn word_at_end_of_text() {
    assert_eq!(lex_all("model"), vec![DDLTokenType::Model]);
    assert_eq!(lex_all("String"), vec![DDLTokenType::Type("String".to_string())]);
}

#[test]
fn token_positions_are_start_indexes() {
    let mut lexer = DDLLexer::new("  model {".to_string());
    assert_eq!(lexer.next_token().unwrap().position, 2);
    assert_eq!(lexer.next_token().unwrap().position, 8);
    assert!(lexer.next_token().is_none());
}

#[test]
fn basic_type_keywords() {
    assert_eq!(BasicType::from_str("Int"), Some(BasicType::Int));
    assert_eq!(BasicType::from_str("Float"), Some(BasicType::Float));
    assert_eq!(BasicType::from_str("Bool"), Some(BasicType::Bool));
    assert_eq!(BasicType::from_str("String"), Some(BasicType::String));
    assert_eq!(BasicType::from_str("Date"), Some(BasicType::Date));
    assert_eq!(BasicType::from_str("Blob"), Some(BasicType::Blob));
    assert_eq!(BasicType::from_str("int"), None);
    assert_eq!(BasicType::from_str(""), None);
}

#[test]
fn duplicate_model_names_are_reported() {
    let models = parse("model A { x Int @id model A { y Int @id model B { z Int @id".to_string());
    assert_eq!(models.len(), 3);
    assert_eq!(
        analyze(&models),
        vec!["Model A is declared more than once".to_string()]
    );
}

#[test]
fn letters_follow_char_is_alphabetic() {
    assert_eq!(letters_of("a1 é?"), vec![true, false, false, true, false]);
}

#[test]
fn lexing_with_given_letters() {
    // Marking the digit as a letter makes it part of the word.
    let text = "model A1 {".to_string();
    let letters = vec![true, true, true, true, true, false, true, true, false, false];
    let mut lexer = DDLLexer::with_letters(text, letters);
    assert_eq!(lexer.next_token().unwrap().token_type, DDLTokenType::Model);
    assert_eq!(
        lexer.next_token().unwrap().token_type,
        DDLTokenType::Identifier("A1".to_string())
    );
    assert_eq!(lexer.next_token().unwrap().token_type, DDLTokenType::OpenBrace);
    assert!(lexer.next_token().is_none());
}

#[test]
fn parsing_with_given_letters() {
    let text = "model Employee { EmployeeID String @id }".to_string();
    let letters = letters_of(&text);
    assert_eq!(parse_with_letters(text.clone(), letters), parse(text));
}
