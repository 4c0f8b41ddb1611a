use yard::schema::{Column, ColumnType, TableSchema};

fn get_schema() -> TableSchema {
    TableSchema::new("table".to_string(), ColumnType::Varchar(100))
}

#[test]
fn table_to_schema_string() {
    let mut table_schema = get_schema();
    table_schema.add_column("age".to_string(), Column::new(ColumnType::Unsigned32, true));
    table_schema.add_column("name".to_string(), Column::new(ColumnType::Varchar(100), false));

    let expected_schema_string =
        "table>sort_key:VARCHAR(100);age:UNSIGNED32?;name:VARCHAR(100)".to_string();
    assert_eq!(table_schema.to_schema_string(), expected_schema_string);
}

#[test]
fn schema_string_to_table_and_back() {
    let schema_string =
        "table>sort_key:UNSIGNED32;age:UNSIGNED32?;last_name:VARCHAR(10);some_field:FLOAT64?";
    let table_schema = TableSchema::from_string(schema_string).unwrap();

    let expected_schema_string =
        "table>sort_key:UNSIGNED32;age:UNSIGNED32?;last_name:VARCHAR(10);some_field:FLOAT64?"
            .to_string();
    assert_eq!(table_schema.to_schema_string(), expected_schema_string);
}

#[test]
fn sort_key_cannot_be_nullable() {
    let schema_string = "table_name>sort_key:VARCHAR(100)?";
    let error = TableSchema::from_string(schema_string).unwrap_err();

    assert_eq!(error, "sort_key cannot be nullable".to_string());
}

#[test]
fn sort_key_must_be_present() {
    let schema_string = "table>name:VARCHAR(100)";
    let error = TableSchema::from_string(schema_string).unwrap_err();

    assert_eq!(
        error,
        "Invalid first column, should be 'sort_key'".to_string()
    );
}

#[test]
fn invalid_schema_string() {
    let arrow_missing = "table:name:VARCHAR(100)";
    let bad_delimiter = "table>sort_key:INT32;name:VARCHAR(100)|age:INT32";
    let varchar_with_bad_number = "table>name:VARCHAR(0)";

    let error1 = TableSchema::from_string(arrow_missing).unwrap_err();
    let error2 = TableSchema::from_string(bad_delimiter).unwrap_err();
    let error3 = TableSchema::from_string(varchar_with_bad_number).unwrap_err();

    assert_eq!(error1, "Invalid schema string".to_string());
    assert_eq!(error2, "Invalid column type".to_string());
    assert_eq!(error3, "Invalid number of chars for VARCHAR".to_string());
}

#[test]
fn schema_round_trip_every_type() {
    let schema_string = "t>sort_key:INT64;a:BOOLEAN;b:FLOAT32?;c:INT32;d:UNSIGNED64?;e:VARCHAR(1)";
    let table_schema = TableSchema::from_string(schema_string).unwrap();
    assert_eq!(table_schema.to_schema_string(), schema_string);
}

#[test]
fn row_byte_size_counts_every_field() {
    // 128 (hash key) + 4 (sort key) + 16 (varchar) + 4 (u32) + 16 + 1
    let mut table_schema = TableSchema::new("users".to_string(), ColumnType::Unsigned32);
    table_schema.add_column("name".to_string(), Column::new(ColumnType::Varchar(16), false));
    table_schema.add_column("age".to_string(), Column::new(ColumnType::Unsigned32, true));
    assert_eq!(table_schema.row_byte_size(), 128 + 4 + 16 + 4 + 16 + 1);
}

#[test]
fn varchar_size_limit_is_enforced() {
    let error = TableSchema::from_string("t>sort_key:VARCHAR(65536)").unwrap_err();
    assert_eq!(error, "Invalid number of chars for VARCHAR".to_string());
    let ok = TableSchema::from_string("t>sort_key:VARCHAR(65535)").unwrap();
    assert_eq!(ok.row_byte_size(), 128 + 65535 + 16 + 1);
}
