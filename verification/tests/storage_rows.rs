use live_datadash::storage::{insert_statement, row_action, table_for_group, RowAction, Table};

#[test]
fn groups_name_tables() {
    assert_eq!(table_for_group(0), Some(Table::General));
    assert_eq!(table_for_group(1), Some(Table::Suspension));
    assert_eq!(table_for_group(2), Some(Table::Damper));
    assert_eq!(table_for_group(3), Some(Table::Drive));
    assert_eq!(table_for_group(4), Some(Table::Slide));
    assert_eq!(table_for_group(5), None);
    assert_eq!(table_for_group(-1), None);
}

#[test]
fn tables_have_names_and_widths() {
    assert_eq!(Table::General.name(), "general");
    assert_eq!(Table::Suspension.name(), "suspension");
    assert_eq!(Table::Damper.name(), "damper");
    assert_eq!(Table::Drive.name(), "drive");
    assert_eq!(Table::Slide.name(), "slide");
    assert_eq!(Table::General.column_count(), 33);
    assert_eq!(Table::Suspension.column_count(), 23);
    assert_eq!(Table::Damper.column_count(), 9);
    assert_eq!(Table::Drive.column_count(), 16);
    assert_eq!(Table::Slide.column_count(), 12);
}

#[test]
fn rows_are_inserted_only_when_the_timestamp_changes() {
    assert_eq!(row_action(2, true), RowAction::Insert(Table::Damper));
    assert_eq!(row_action(2, false), RowAction::Unchanged);
    assert_eq!(row_action(9, true), RowAction::UnknownGroup);
    assert_eq!(row_action(9, false), RowAction::UnknownGroup);
}

fn texts(values: &[i32]) -> Vec<String> {
    values.iter().map(|v| v.to_string()).collect()
}

#[test]
fn damper_statement_keeps_its_bare_comma() {
    let sql = insert_statement(Table::Damper, &texts(&[5, 1, 2, 3, 4, 5, 6, 7, 8]));
    assert_eq!(sql, "INSERT INTO damper VALUES (5, 1, 2, 3, 4, 5,6, 7, 8);");
    assert_eq!(sql.len(), 53);
}

#[test]
fn drive_and_slide_statements_keep_their_bare_comma() {
    let drive: Vec<i32> = (1..=16).collect();
    assert_eq!(
        insert_statement(Table::Drive, &texts(&drive)),
        "INSERT INTO drive VALUES (1, 2, 3, 4, 5, 6, 7,8, 9, 10, 11, 12, 13, 14, 15, 16);"
    );
    let slide: Vec<i32> = (1..=12).collect();
    assert_eq!(
        insert_statement(Table::Slide, &texts(&slide)),
        "INSERT INTO slide VALUES (1, 2, 3, 4, 5, 6, 7,8, 9, 10, 11, 12);"
    );
}

#[test]
fn general_and_suspension_statements_space_every_value() {
    let general: Vec<i32> = (1..=33).collect();
    let expected = format!(
        "INSERT INTO general VALUES ({});",
        general.iter().map(|v| v.to_string()).collect::<Vec<_>>().join(", ")
    );
    assert_eq!(insert_statement(Table::General, &texts(&general)), expected);
    let suspension: Vec<i32> = (1..=23).collect();
    let expected = format!(
        "INSERT INTO suspension VALUES ({});",
        suspension.iter().map(|v| v.to_string()).collect::<Vec<_>>().join(", ")
    );
    assert_eq!(insert_statement(Table::Suspension, &texts(&suspension)), expected);
}

#[test]
fn builds_insert_statements() {
    let values = vec!["1".to_string(), "2.5".to_string(), "-3".to_string()];
    assert_eq!(insert_statement(Table::General, &values), "INSERT INTO general VALUES (1, 2.5, -3);");
    assert_eq!(insert_statement(Table::Slide, &vec!["7".to_string()]), "INSERT INTO slide VALUES (7);");
    assert_eq!(insert_statement(Table::Drive, &Vec::new()), "INSERT INTO drive VALUES ();");
}
