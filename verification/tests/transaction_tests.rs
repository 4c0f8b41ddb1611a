use yard::memtable::Memtable;
use yard::row::Row;
use yard::schema::{ColumnType, TableSchema};
use yard::table::Table;
use yard::transaction::Transaction;
use yard::value::Value;

fn get_table() -> Table {
    let mut table_schema = TableSchema::new("table".to_string(), ColumnType::Varchar(100));
    table_schema.add_column(
        "a".to_string(),
        yard::schema::Column::new(ColumnType::Int32, true),
    );
    Table::new(Memtable::default(), table_schema, 0)
}

fn get_row(key: &str) -> Row {
    Row::new(
        key.to_string(),
        Value::Varchar(key.to_string()),
        vec![("a".to_string(), Value::Null)],
    )
}

fn get_new_transaction() -> Transaction {
    Transaction::new(7)
}

#[test]
fn test_get_for_update() {
    let row = get_row("1");

    let mut transaction = get_new_transaction();
    transaction.get_for_update(Some(&row), "table".to_string());

    let row_version = transaction
        .affected_version("table", &row.primary_key)
        .unwrap();
    assert_eq!(row_version, 1);
}

#[test]
fn test_insert_delete() {
    let mut transaction = get_new_transaction();
    let table = get_table();
    let row = get_row("1");

    transaction.insert(row.clone(), &table);
    transaction.delete("some_delete".to_string(), &table);

    assert_eq!(transaction.affected_len(), 0);
    assert_eq!(transaction.operations_len(), 1);
}

#[test]
fn test_insert_delete_when_data_in_memtable() {
    let mut transaction = get_new_transaction();
    let mut table = get_table();

    let row = get_row("1");
    table.insert_row(row.clone(), false);

    transaction.insert(row.clone(), &table);
    transaction.delete(row.primary_key.clone(), &table);

    let row_version = transaction
        .affected_version("table", &row.primary_key)
        .unwrap();
    assert_eq!(row_version, 1);
    assert_eq!(transaction.operations_len(), 2);
}

#[test]
fn test_commit_transaction() {
    let mut table = get_table();

    let mut row = get_row("1");
    let row_2 = get_row("2");

    table.insert_row(row.clone(), false);
    table.insert_row(row_2.clone(), false);

    row.values[0].1 = Value::Int32(1);
    let mut transaction = get_new_transaction();
    transaction.insert(row.clone(), &table);
    transaction.delete(row_2.primary_key.clone(), &table);

    let mut tables = vec![table];

    assert!(transaction.can_commit(&tables));
    let flushes = transaction.commit(&mut tables);
    assert!(flushes.is_empty());

    let table = &tables[0];
    let modified_row = table.memtable.get(&"1:1".to_string()).unwrap();
    assert_eq!(modified_row.values.len(), 1);
    assert_eq!(modified_row.values[0].0, "a".to_string());
    assert_eq!(modified_row.values[0].1, Value::Int32(1));
    assert_eq!(modified_row.version, 2);
    let deleted_row = table.memtable.get(&"2:2".to_string());
    assert!(deleted_row.is_none());
}

#[test]
fn test_get_for_update_cannot_commit_after_insert() {
    let mut table = get_table();

    let mut row = get_row("1");
    table.insert_row(row.clone(), false);

    let mut transaction = get_new_transaction();
    let stored = table.memtable.get(&row.primary_key).cloned();
    transaction.get_for_update(stored.as_ref(), "table".to_string());
    row.values[0].1 = Value::Int32(1);
    table.insert_row(row.clone(), false);

    let tables = vec![table];
    assert!(!transaction.can_commit(&tables));
}

#[test]
fn test_delete_cannot_commit_after_insert() {
    let mut table = get_table();

    let mut row = get_row("1");
    table.insert_row(row.clone(), false);

    let mut transaction = get_new_transaction();
    transaction.delete(row.primary_key.clone(), &table);

    row.values[0].1 = Value::Int32(1);
    table.insert_row(row.clone(), false);

    let tables = vec![table];
    assert!(!transaction.can_commit(&tables));
}

#[test]
fn test_two_transactions_simultaneously_commit() {
    let table = get_table();
    let row = get_row("1");
    let row_2 = get_row("2");

    let mut transaction_1 = Transaction::new(1);
    let mut transaction_2 = Transaction::new(2);

    transaction_1.insert(row.clone(), &table);
    transaction_2.insert(row_2.clone(), &table);

    let mut tables = vec![table];
    assert!(transaction_1.can_commit(&tables));
    assert!(transaction_2.can_commit(&tables));

    transaction_1.commit(&mut tables);
    assert!(transaction_2.can_commit(&tables));
    transaction_2.commit(&mut tables);

    let table = &tables[0];
    assert!(table.memtable.get(&row.primary_key).is_some());
    assert!(table.memtable.get(&row_2.primary_key).is_some());
}

#[test]
fn write_only_transaction_votes_yes() {
    let schema = TableSchema::from_string(
        &"users>sort_key:UNSIGNED32;name:VARCHAR(16)".to_string(),
    )
    .unwrap();
    let table = Table::new(Memtable::new(), schema, 0);
    let tables = vec![table];

    let mut txn = Transaction::new(9);
    let row = Row::new(
        "u9".to_string(),
        Value::Unsigned32(1),
        vec![("name".to_string(), Value::Varchar("w".to_string()))],
    );
    txn.insert(row, &tables[0]);
    assert_eq!(txn.affected_len(), 0);
    assert!(txn.can_commit(&tables));
}
