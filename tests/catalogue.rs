use adaptivedb::basic_types::BasicType;
use adaptivedb::catalogue::{AdmitError, Catalogue, Column, Table};
use adaptivedb::ddl::parse;

#[test]
fn table_lookup() {
    let catalogue = Catalogue::new(vec![
        Table::new(
            "Employee".to_string(),
            vec![
                Column::new("EmployeeID".to_string(), BasicType::String, false),
                Column::new("Age".to_string(), BasicType::Int, true),
            ],
            0,
        ),
        Table::new("Department".to_string(), Vec::new(), 0),
    ]);
    assert!(catalogue.table_exists("Employee"));
    assert!(catalogue.table_exists("Department"));
    assert!(!catalogue.table_exists("Salary"));
    let table = catalogue.get_table("Employee").unwrap();
    assert_eq!(table.name(), "Employee");
    assert!(table.column_exists("Age"));
    assert!(!table.column_exists("age"));
    assert_eq!(table.columns()[1].data_type(), BasicType::Int);
    assert!(table.columns()[1].nullable());
    assert!(catalogue.get_table("Salary").is_none());
}

#[test]
fn add_table_appends() {
    let mut catalogue = Catalogue::new(Vec::new());
    catalogue.add_table(Table::new("A".to_string(), Vec::new(), 0));
    catalogue.add_table(Table::new("B".to_string(), Vec::new(), 0));
    assert_eq!(catalogue.tables().len(), 2);
    assert_eq!(catalogue.tables()[1].name(), "B");
}

#[test]
fn admission_adds_tables() {
    let mut catalogue = Catalogue::new(Vec::new());
    let models = parse("model Employee { Name String? EmployeeID Int @id @references(X, Y)".to_string());
    match catalogue.admit_models(&models) {
        Ok(names) => assert_eq!(names, vec!["Employee".to_string()]),
        Err(_) => panic!("expected admission"),
    }
    let table = catalogue.get_table("Employee").unwrap();
    assert_eq!(table.primary_key(), 1);
    assert_eq!(table.columns().len(), 2);
    assert_eq!(table.columns()[0].name(), "Name");
    assert!(table.columns()[0].nullable());
    assert_eq!(table.columns()[1].data_type(), BasicType::Int);
}

#[test]
fn admission_of_existing_name_changes_nothing() {
    let mut catalogue = Catalogue::new(vec![Table::new(
        "Employee".to_string(),
        vec![Column::new("EmployeeID".to_string(), BasicType::String, false)],
        0,
    )]);
    let models = parse("model Employee { EmployeeID String @id FirstName String }".to_string());
    match catalogue.admit_models(&models) {
        Err(AdmitError::TableExists(name)) => assert_eq!(name, "Employee"),
        _ => panic!("expected refusal"),
    }
    assert_eq!(catalogue.tables().len(), 1);
    assert_eq!(catalogue.tables()[0].columns().len(), 1);
}

#[test]
fn admission_of_invalid_models_reports_every_message() {
    let mut catalogue = Catalogue::new(Vec::new());
    let models = parse("model A { x Int model B { y Int @id z Int @id".to_string());
    match catalogue.admit_models(&models) {
        Err(AdmitError::Invalid(errors)) => assert_eq!(
            errors,
            vec![
                "Model A has 0 primary keys, expected 1".to_string(),
                "Model B has 2 primary keys, expected 1".to_string(),
            ]
        ),
        _ => panic!("expected refusal"),
    }
    assert_eq!(catalogue.tables().len(), 0);
}

#[test]
fn admission_of_a_batch_with_a_repeated_name_changes_nothing() {
    let mut catalogue = Catalogue::new(Vec::new());
    let models = parse("model A { x Int @id model A { y Int @id".to_string());
    match catalogue.admit_models(&models) {
        Err(AdmitError::Invalid(errors)) => {
            assert_eq!(errors, vec!["Model A is declared more than once".to_string()])
        }
        _ => panic!("expected refusal"),
    }
    assert_eq!(catalogue.tables().len(), 0);
}
