use yard::codec::{decode_row, encode_row};
use yard::commit_log::{encode_insert_record, parse_records, replay_records, LogRecord};
use yard::memtable::Memtable;
use yard::numfmt::{i64_to_dec_string, parse_u64_dec, u64_to_dec_string};
use yard::row::Row;
use yard::schema::{Column, ColumnType, TableSchema};
use yard::sstable::{
    compute_partition_index, encode_partition_index, find_row_in_body, parse_partition_index,
    size_fits_bucket,
};
use yard::value::Value;

fn users_schema() -> TableSchema {
    let mut s = TableSchema::new("users".to_string(), ColumnType::Unsigned32);
    s.add_column("age".to_string(), Column::new(ColumnType::Unsigned32, true));
    s.add_column("name".to_string(), Column::new(ColumnType::Varchar(16), false));
    s
}

fn alice_row() -> Row {
    // values in schema order: age before name
    Row::new(
        "u1".to_string(),
        Value::Unsigned32(7),
        vec![
            ("age".to_string(), Value::Unsigned32(30)),
            ("name".to_string(), Value::Varchar("alice".to_string())),
        ],
    )
}

#[test]
fn decimal_formatting_round_trip() {
    assert_eq!(u64_to_dec_string(0), "0".to_string());
    assert_eq!(u64_to_dec_string(12345), "12345".to_string());
    assert_eq!(u64_to_dec_string(u64::MAX), "18446744073709551615".to_string());
    assert_eq!(i64_to_dec_string(-42), "-42".to_string());
    assert_eq!(i64_to_dec_string(i64::MIN), "-9223372036854775808".to_string());
    assert_eq!(parse_u64_dec("12345"), Some(12345));
    assert_eq!(parse_u64_dec(""), None);
    assert_eq!(parse_u64_dec("12a"), None);
    assert_eq!(parse_u64_dec("99999999999999999999999"), None);
}

#[test]
fn value_display_forms() {
    assert_eq!(Value::Varchar("hi".to_string()).display_string(), "hi");
    assert_eq!(Value::Int32(-5).display_string(), "-5");
    assert_eq!(Value::Unsigned64(7).display_string(), "7");
    assert_eq!(Value::Boolean(true).display_string(), "true");
    assert_eq!(Value::Boolean(false).display_string(), "false");
    assert_eq!(Value::Null.display_string(), "");
}

#[test]
fn encoded_row_has_fixed_size() {
    let schema = users_schema();
    let row = alice_row();
    let bytes = encode_row(&row, &schema);
    assert_eq!(bytes.len(), schema.row_byte_size());
}

#[test]
fn row_round_trip_through_bytes() {
    let schema = users_schema();
    let row = alice_row();
    let bytes = encode_row(&row, &schema);
    let back = decode_row(&bytes, &schema).unwrap();

    assert_eq!(back.hash_key, row.hash_key);
    assert_eq!(back.primary_key, row.primary_key);
    assert_eq!(back.sort_key, row.sort_key);
    assert_eq!(back.values, row.values);
    assert_eq!(back.timestamp, row.timestamp);
    assert_eq!(back.marked_for_deletion, row.marked_for_deletion);
    // the version is not persisted in a row block
    assert_eq!(back.version, 0);
}

#[test]
fn null_and_zero_fields_read_back_as_null() {
    let schema = users_schema();
    let mut row = alice_row();
    row.values[0].1 = Value::Null;
    let bytes = encode_row(&row, &schema);
    let back = decode_row(&bytes, &schema).unwrap();
    assert_eq!(back.values[0].1, Value::Null);

    // an all-zero stored field is indistinguishable from null
    let mut zero_row = alice_row();
    zero_row.values[0].1 = Value::Unsigned32(0);
    let bytes2 = encode_row(&zero_row, &schema);
    let back2 = decode_row(&bytes2, &schema).unwrap();
    assert_eq!(back2.values[0].1, Value::Null);
}

#[test]
fn memtable_insert_then_get_returns_row() {
    let mut memtable = Memtable::default();
    let row = alice_row();
    memtable.insert(row.clone(), false);
    let stored = memtable.get(&row.primary_key).unwrap();
    assert_eq!(stored.values, row.values);
    assert!(!stored.marked_for_deletion);

    // a second insert renews values and bumps the version
    let mut newer = alice_row();
    newer.values[0].1 = Value::Unsigned32(31);
    memtable.insert(newer, false);
    let stored = memtable.get(&row.primary_key).unwrap();
    assert_eq!(stored.values[0].1, Value::Unsigned32(31));
    assert_eq!(stored.version, 2);
}

#[test]
fn memtable_delete_then_get_returns_absent() {
    let mut memtable = Memtable::default();
    let row = alice_row();
    memtable.insert(row.clone(), false);

    assert!(memtable.delete(&row.primary_key, None));
    assert!(memtable.get(&row.primary_key).is_none());
    // a second delete reads the tombstoned entry as absent
    assert!(!memtable.delete(&row.primary_key, None));
}

#[test]
fn replay_is_last_writer_wins() {
    let schema = users_schema();
    let mut first = alice_row();
    first.timestamp = 10;
    let mut older = alice_row();
    older.timestamp = 5;
    older.values[0].1 = Value::Unsigned32(99);

    let records = vec![
        LogRecord::Insert(first.clone()),
        LogRecord::Insert(older),
        LogRecord::Delete(7, first.primary_key.clone()),
    ];
    let memtable = replay_records(records, &schema);
    let stored = memtable.get(&first.primary_key).unwrap();
    assert_eq!(stored.values[0].1, Value::Unsigned32(30));
    assert_eq!(stored.timestamp, 10);

    // a strictly newer delete wins
    let records2 = vec![
        LogRecord::Insert(first.clone()),
        LogRecord::Delete(20, first.primary_key.clone()),
    ];
    let memtable2 = replay_records(records2, &schema);
    assert!(memtable2.get(&first.primary_key).is_none());
}

#[test]
fn commit_log_record_round_trip() {
    // the replay path of a crash: encode, parse, replay, read
    let schema = users_schema();
    let mut row = Row::new(
        "u2".to_string(),
        Value::Unsigned32(1),
        vec![
            ("age".to_string(), Value::Unsigned32(20)),
            ("name".to_string(), Value::Varchar("bob".to_string())),
        ],
    );
    row.timestamp = 123456789;
    let bytes = encode_insert_record(&row, &schema);
    let records = parse_records(&bytes, &schema).unwrap();
    assert_eq!(records.len(), 1);
    let memtable = replay_records(records, &schema);
    let stored = memtable.get(&row.primary_key).unwrap();
    assert_eq!(stored.values[1].1, Value::Varchar("bob".to_string()));
    assert_eq!(stored.values[0].1, Value::Unsigned32(20));
    assert_eq!(stored.timestamp, 123456789);
}

#[test]
fn partition_index_marks_first_rows() {
    let rows = vec![alice_row()];
    let entries = compute_partition_index(&rows, 1);
    assert_eq!(entries, vec![(0, 0)]);

    let header = encode_partition_index(&entries);
    assert_eq!(header, "0:0".to_string());
    let parsed = parse_partition_index(&header).unwrap();
    assert_eq!(parsed, vec![(0, 0)]);
}

#[test]
fn segment_lookup_finds_rows_on_disk_layout() {
    // Single UNSIGNED64 sort key and a single VARCHAR(32) column; enough
    // rows under one hash key that lookups go through the block search.
    let mut schema = TableSchema::new("big".to_string(), ColumnType::Unsigned64);
    schema.add_column("payload".to_string(), Column::new(ColumnType::Varchar(32), false));
    let row_size = schema.row_byte_size();

    let mut memtable = Memtable::default();
    let count: u64 = 200_000;
    let base: u64 = 100_000_000_000;
    for i in 0..count {
        let row = Row::new(
            "h".to_string(),
            Value::Unsigned64(base + i),
            vec![("payload".to_string(), Value::Varchar(format!("v{}", i)))],
        );
        memtable.insert(row, false);
    }
    assert!(memtable.max_size_reached());

    let rows = memtable.to_sstable_rows();
    assert_eq!(rows.len(), count as usize);
    let target_pk = rows[123_456].primary_key.clone();

    let mut body: Vec<u8> = Vec::with_capacity(rows.len() * row_size);
    for row in &rows {
        body.extend_from_slice(&encode_row(row, &schema));
    }

    let found = find_row_in_body(&body, &schema, &target_pk, 0, count as usize - 1, count as usize)
        .unwrap()
        .unwrap();
    assert_eq!(found.primary_key, target_pk);
    assert_eq!(found.values[0].1, Value::Varchar("v123456".to_string()));

    let absent_pk = format!("h:{}", base + count + 5);
    let missing = find_row_in_body(&body, &schema, &absent_pk, 0, count as usize - 1, count as usize)
        .unwrap();
    assert!(missing.is_none());
}

#[test]
fn compaction_merge_retains_tombstones() {
    let schema = users_schema();

    // a live row merged before a newer tombstone: the tombstone survives
    let mut live = alice_row();
    live.timestamp = 1;
    let mut dead = alice_row();
    dead.timestamp = 2;
    dead.marked_for_deletion = true;
    let merged =
        yard::sstable::merge_rows_for_compaction(vec![live.clone(), dead.clone()], &schema);
    let rows = merged.to_sstable_rows();
    assert_eq!(rows.len(), 1);
    assert!(rows[0].marked_for_deletion);
    assert_eq!(rows[0].timestamp, 2);

    // a lone tombstone also survives
    let merged2 = yard::sstable::merge_rows_for_compaction(vec![dead.clone()], &schema);
    let rows2 = merged2.to_sstable_rows();
    assert_eq!(rows2.len(), 1);
    assert!(rows2[0].marked_for_deletion);

    // and a live record newer than a tombstone wins whole
    let mut newer_live = alice_row();
    newer_live.timestamp = 3;
    let merged3 =
        yard::sstable::merge_rows_for_compaction(vec![dead, newer_live.clone()], &schema);
    let rows3 = merged3.to_sstable_rows();
    assert_eq!(rows3.len(), 1);
    assert!(!rows3[0].marked_for_deletion);
    assert_eq!(rows3[0].timestamp, 3);
}

#[test]
fn bucket_rule_groups_by_size_ratio() {
    // within half-to-three-halves of the average
    assert!(size_fits_bucket(100, 100, 1));
    // far larger, but both under the small cutoff: still grouped
    assert!(size_fits_bucket(400, 100, 1));
    // large segment against a small bucket: left out
    assert!(!size_fits_bucket(209_715_200, 62_914_560, 1));
}

#[test]
fn delete_record_round_trip() {
    let schema = users_schema();
    let bytes = yard::commit_log::encode_delete_record("u9:3", 42);
    let records = parse_records(&bytes, &schema).unwrap();
    assert_eq!(records.len(), 1);
    match &records[0] {
        LogRecord::Delete(ts, pk) => {
            assert_eq!(*ts, 42);
            assert_eq!(pk, "u9:3");
        },
        _ => panic!("expected a delete record"),
    }
}

#[test]
fn random_draws_stay_below_their_bound() {
    let mut i = 0;
    while i < 200 {
        assert!(yard::exttrust::random_below(3) < 3);
        i += 1;
    }
}

#[test]
fn round_robin_assignment_tiles_the_partitions() {
    let a = yard::partition::partitions_for_thread(0, 2, 7);
    let b = yard::partition::partitions_for_thread(1, 2, 7);
    assert_eq!(a, vec![0, 2, 4, 6]);
    assert_eq!(b, vec![1, 3, 5]);
}

#[test]
fn grouping_places_every_segment_once() {
    let sizes: Vec<u64> = vec![400, 100, 100, 90, 60_000_000_000];
    let buckets = yard::sstable::group_segments_by_size(&sizes);
    let mut seen = vec![false; sizes.len()];
    for bucket in &buckets {
        assert!(!bucket.is_empty());
        for &idx in bucket {
            assert!(idx < sizes.len());
            assert!(!seen[idx]);
            seen[idx] = true;
        }
    }
    assert!(seen.iter().all(|s| *s));
    // the four small segments share a bucket; the huge one stands alone
    assert_eq!(buckets.len(), 2);
    assert_eq!(buckets[0].len(), 4);
}

#[test]
fn float_values_are_carried_as_bit_patterns() {
    // float columns hold IEEE bit patterns; their text is the pattern's
    // decimal form
    assert_eq!(Value::Float64(5).display_string(), "5");
    let mut schema = TableSchema::new("m".to_string(), ColumnType::Unsigned32);
    schema.add_column("reading".to_string(), Column::new(ColumnType::Float64, true));
    let row = Row::new(
        "sensor".to_string(),
        Value::Unsigned32(1),
        vec![("reading".to_string(), Value::Float64(4614253070214989087))],
    );
    let bytes = encode_row(&row, &schema);
    let back = decode_row(&bytes, &schema).unwrap();
    assert_eq!(back.values[0].1, Value::Float64(4614253070214989087));
}

#[test]
fn invalid_utf8_in_a_stored_string_is_turned_away() {
    let schema = users_schema();
    let row = alice_row();
    let mut bytes = encode_row(&row, &schema);
    // corrupt the first byte of the name field (hash 128 + sort 4 + age 4)
    bytes[136] = 0xFF;
    assert!(decode_row(&bytes, &schema).is_err());
}

#[test]
fn non_nullable_zero_values_round_trip() {
    // nullability disambiguates: an all-zero field of a non-nullable
    // column reads as the type's zero value, not null
    let mut schema = TableSchema::new("t".to_string(), ColumnType::Unsigned32);
    schema.add_column("count".to_string(), Column::new(ColumnType::Unsigned32, false));
    schema.add_column("flag".to_string(), Column::new(ColumnType::Boolean, false));
    schema.add_column("note".to_string(), Column::new(ColumnType::Varchar(8), false));
    let row = Row::new(
        "h".to_string(),
        Value::Unsigned32(0),
        vec![
            ("count".to_string(), Value::Unsigned32(0)),
            ("flag".to_string(), Value::Boolean(false)),
            ("note".to_string(), Value::Varchar("".to_string())),
        ],
    );
    let bytes = encode_row(&row, &schema);
    let back = decode_row(&bytes, &schema).unwrap();
    assert_eq!(back.sort_key, Value::Unsigned32(0));
    assert_eq!(back.values[0].1, Value::Unsigned32(0));
    assert_eq!(back.values[1].1, Value::Boolean(false));
    assert_eq!(back.values[2].1, Value::Varchar("".to_string()));
    assert_eq!(back.primary_key, row.primary_key);
}
