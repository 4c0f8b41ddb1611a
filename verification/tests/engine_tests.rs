use yard::engine::{
    Command, CommandOutcome, Engine, HandlerError, Operation, OperationResponse, Response,
    ThreadContext,
};
use yard::partition::get_hash_key_target_partition;
use yard::value::Value;

fn all_partitions_context(total: usize) -> ThreadContext {
    ThreadContext {
        partitions: (0..total).collect(),
        total_number_of_partitions: total,
        current_thread_number: 0,
        number_of_threads: 1,
    }
}

fn users_engine() -> Engine {
    let mut engine = Engine::new(all_partitions_context(4));
    let schema = "users>sort_key:UNSIGNED32;name:VARCHAR(16);age:UNSIGNED32?".to_string();
    engine.sync_model(&schema).unwrap();
    engine
}

fn insert_alice(engine: &mut Engine) {
    let op = Operation::Insert(
        "u1".to_string(),
        Value::Unsigned32(7),
        vec![
            ("name".to_string(), Value::Varchar("alice".to_string())),
            ("age".to_string(), Value::Unsigned32(30)),
        ],
    );
    let (response, _effects) = engine
        .execute_operation(op, "users".to_string(), None)
        .unwrap();
    assert!(matches!(response, OperationResponse::Insert));
}

fn get_row(engine: &mut Engine, hk: &str, sk: u32) -> Option<yard::row::Row> {
    let op = Operation::Get(hk.to_string(), Value::Unsigned32(sk));
    let (response, _effects) = engine
        .execute_operation(op, "users".to_string(), None)
        .unwrap();
    match response {
        OperationResponse::Get(row) => row,
        _ => panic!("unexpected response"),
    }
}

#[test]
fn single_insert_read_round_trip() {
    let mut engine = users_engine();
    insert_alice(&mut engine);

    let row = get_row(&mut engine, "u1", 7).unwrap();
    assert_eq!(row.hash_key, "u1".to_string());
    assert_eq!(row.sort_key, Value::Unsigned32(7));
    // values come back in schema order: age before name
    assert_eq!(row.values[0], ("age".to_string(), Value::Unsigned32(30)));
    assert_eq!(
        row.values[1],
        ("name".to_string(), Value::Varchar("alice".to_string()))
    );
}

#[test]
fn delete_semantics() {
    let mut engine = users_engine();
    insert_alice(&mut engine);

    let op = Operation::Delete("u1".to_string(), Value::Unsigned32(7));
    let (response, _effects) = engine
        .execute_operation(op, "users".to_string(), None)
        .unwrap();
    assert!(matches!(response, OperationResponse::Delete(true)));

    assert!(get_row(&mut engine, "u1", 7).is_none());

    // a second delete reads the tombstoned entry as absent
    let op = Operation::Delete("u1".to_string(), Value::Unsigned32(7));
    let (response, _effects) = engine
        .execute_operation(op, "users".to_string(), None)
        .unwrap();
    assert!(matches!(response, OperationResponse::Delete(false)));
}

#[test]
fn hash_key_partition_rejection() {
    // a thread that does not own partition("k") turns the request away
    let total = 4;
    let owned_by_k = get_hash_key_target_partition("k", total);
    let partitions: Vec<usize> = (0..total).filter(|p| *p != owned_by_k).collect();
    let mut engine = Engine::new(ThreadContext {
        partitions,
        total_number_of_partitions: total,
        current_thread_number: 1,
        number_of_threads: 2,
    });
    let schema = "users>sort_key:UNSIGNED32;name:VARCHAR(16);age:UNSIGNED32?".to_string();
    engine.sync_model(&schema).unwrap();

    let op = Operation::Get("k".to_string(), Value::Unsigned32(1));
    let err = engine
        .execute_operation(op, "users".to_string(), None)
        .unwrap_err();
    match err {
        HandlerError::Client(detail) => assert_eq!(detail, "Invalid partition".to_string()),
        _ => panic!("expected a client error"),
    }
}

#[test]
fn murmur_hash_is_deterministic_and_stable() {
    // MurmurHash3-32 of "abc" under the fixed seed, reduced mod 4 and
    // mod a large prime; the same in any process
    let first = get_hash_key_target_partition("abc", 4);
    let second = get_hash_key_target_partition("abc", 4);
    assert_eq!(first, second);
    assert_eq!(first, 2693823569usize % 4);
    assert_eq!(
        get_hash_key_target_partition("abc", 1000003),
        2693823569usize % 1000003
    );
}

#[test]
fn transaction_conflict_aborts_stale_writer() {
    let mut engine = users_engine();
    insert_alice(&mut engine);

    // T1 begins and reads the row, observing version 1
    let outcome = engine.handle_command(Command::BeginTransaction, None).unwrap();
    let tid = match outcome {
        CommandOutcome::Done(Response::Transaction(tid), _) => tid,
        _ => panic!("expected a transaction id"),
    };
    let op = Operation::Get("u1".to_string(), Value::Unsigned32(7));
    engine
        .execute_operation(op, "users".to_string(), Some(tid))
        .unwrap();

    // a direct write lands in between and bumps the version
    let op = Operation::Insert(
        "u1".to_string(),
        Value::Unsigned32(7),
        vec![
            ("name".to_string(), Value::Varchar("mallory".to_string())),
            ("age".to_string(), Value::Unsigned32(31)),
        ],
    );
    engine
        .execute_operation(op, "users".to_string(), None)
        .unwrap();

    // T1 buffers its own write and tries to commit
    let op = Operation::Insert(
        "u1".to_string(),
        Value::Unsigned32(7),
        vec![
            ("name".to_string(), Value::Varchar("late".to_string())),
            ("age".to_string(), Value::Unsigned32(32)),
        ],
    );
    engine
        .execute_operation(op, "users".to_string(), Some(tid))
        .unwrap();

    let outcome = engine
        .handle_command(Command::CommitTransaction, Some(tid))
        .unwrap();
    let awaited = match outcome {
        CommandOutcome::AwaitPrepare(id) => id,
        _ => panic!("expected the commit to wait on votes"),
    };
    assert_eq!(awaited, tid);
    let vote = engine.local_vote(tid).unwrap();
    assert!(!vote);
    let (outcome, effects) = engine.finish_commit(tid, vote);
    let err = outcome.unwrap_err();
    match err {
        HandlerError::Server(msg) => assert_eq!(
            msg,
            format!("Transaction with id '{}' failed to commit and got aborted", tid)
        ),
        _ => panic!("expected a server error"),
    }
    assert_eq!(effects.len(), 1);

    // the direct write survives; the stale transaction's write is gone
    let row = get_row(&mut engine, "u1", 7).unwrap();
    assert_eq!(
        row.values[1],
        ("name".to_string(), Value::Varchar("mallory".to_string()))
    );
    assert_eq!(row.version, 2);
}

#[test]
fn disjoint_transactions_both_commit() {
    let mut engine = users_engine();

    let t1 = match engine.handle_command(Command::BeginTransaction, None).unwrap() {
        CommandOutcome::Done(Response::Transaction(tid), _) => tid,
        _ => panic!("expected a transaction id"),
    };
    let t2 = match engine.handle_command(Command::BeginTransaction, None).unwrap() {
        CommandOutcome::Done(Response::Transaction(tid), _) => tid,
        _ => panic!("expected a transaction id"),
    };

    let op = Operation::Insert(
        "u1".to_string(),
        Value::Unsigned32(1),
        vec![
            ("name".to_string(), Value::Varchar("a".to_string())),
            ("age".to_string(), Value::Null),
        ],
    );
    engine.execute_operation(op, "users".to_string(), Some(t1)).unwrap();
    let op = Operation::Insert(
        "u2".to_string(),
        Value::Unsigned32(2),
        vec![
            ("name".to_string(), Value::Varchar("b".to_string())),
            ("age".to_string(), Value::Null),
        ],
    );
    engine.execute_operation(op, "users".to_string(), Some(t2)).unwrap();

    let vote = engine.local_vote(t1).unwrap();
    assert!(vote);
    engine.finish_commit(t1, vote).0.unwrap();

    let vote = engine.local_vote(t2).unwrap();
    assert!(vote);
    engine.finish_commit(t2, vote).0.unwrap();

    assert!(get_row(&mut engine, "u1", 1).is_some());
    assert!(get_row(&mut engine, "u2", 2).is_some());
}

#[test]
fn validation_rejects_bad_writes() {
    let mut engine = users_engine();

    // a non-nullable column cannot take null
    let op = Operation::Insert(
        "u1".to_string(),
        Value::Unsigned32(7),
        vec![
            ("name".to_string(), Value::Null),
            ("age".to_string(), Value::Unsigned32(30)),
        ],
    );
    let err = engine
        .execute_operation(op, "users".to_string(), None)
        .unwrap_err();
    assert!(matches!(err, HandlerError::Client(_)));

    // a string over its budget is turned away
    let op = Operation::Insert(
        "u1".to_string(),
        Value::Unsigned32(7),
        vec![
            ("name".to_string(), Value::Varchar("a-name-well-over-sixteen-bytes".to_string())),
            ("age".to_string(), Value::Unsigned32(30)),
        ],
    );
    let err = engine
        .execute_operation(op, "users".to_string(), None)
        .unwrap_err();
    assert!(matches!(err, HandlerError::Client(_)));

    // a missing column is turned away
    let op = Operation::Insert(
        "u1".to_string(),
        Value::Unsigned32(7),
        vec![("age".to_string(), Value::Unsigned32(30))],
    );
    let err = engine
        .execute_operation(op, "users".to_string(), None)
        .unwrap_err();
    assert!(matches!(err, HandlerError::Client(_)));

    // an unknown table is turned away
    let op = Operation::Get("u1".to_string(), Value::Unsigned32(7));
    let err = engine
        .execute_operation(op, "missing".to_string(), None)
        .unwrap_err();
    assert!(matches!(err, HandlerError::Client(_)));

    // an oversized hash key is turned away
    let big_key: String = std::iter::repeat('x').take(129).collect();
    let op = Operation::Get(big_key, Value::Unsigned32(7));
    let err = engine
        .execute_operation(op, "users".to_string(), None)
        .unwrap_err();
    assert!(matches!(err, HandlerError::Client(_)));
}

#[test]
fn sync_model_and_drop_table_manage_the_catalog() {
    let mut engine = users_engine();
    let err = engine
        .sync_model(&"users>sort_key:UNSIGNED32;name:VARCHAR(16);age:UNSIGNED32?".to_string())
        .unwrap_err();
    assert_eq!(err, "Table already exists".to_string());

    assert_eq!(
        engine.catalog_string(),
        "users>sort_key:UNSIGNED32;age:UNSIGNED32?;name:VARCHAR(16)".to_string()
    );

    engine.drop_table(&"users".to_string()).unwrap();
    let err = engine.drop_table(&"users".to_string()).unwrap_err();
    assert_eq!(err, "Table does not exist".to_string());
    assert_eq!(engine.catalog_string(), "".to_string());
}

#[test]
fn unknown_table_error_names_the_table() {
    let mut engine = users_engine();
    let op = Operation::Get("u1".to_string(), Value::Unsigned32(7));
    let err = engine
        .execute_operation(op, "ghosts".to_string(), None)
        .unwrap_err();
    match err {
        HandlerError::Client(msg) => assert_eq!(msg, "Table named 'ghosts' not found"),
        _ => panic!("expected a client error"),
    }
}

#[test]
fn commit_of_unknown_transaction_names_the_id() {
    let mut engine = users_engine();
    let err = engine
        .handle_command(Command::CommitTransaction, Some(7))
        .unwrap_err();
    match err {
        HandlerError::Client(msg) => assert_eq!(
            msg,
            "Cannot commit non existing transaction with id '7'"
        ),
        _ => panic!("expected a client error"),
    }
}

#[test]
fn repeated_reads_observe_a_key_once() {
    let mut engine = users_engine();
    insert_alice(&mut engine);

    let tid = match engine.handle_command(Command::BeginTransaction, None).unwrap() {
        CommandOutcome::Done(Response::Transaction(tid), _) => tid,
        _ => panic!("expected a transaction id"),
    };
    for _ in 0..3 {
        let op = Operation::Get("u1".to_string(), Value::Unsigned32(7));
        engine
            .execute_operation(op, "users".to_string(), Some(tid))
            .unwrap();
    }
    let observed = engine
        .manager
        .transactions
        .iter()
        .find(|t| t.id == tid)
        .map(|t| t.affected_len())
        .unwrap();
    assert_eq!(observed, 1);
}
