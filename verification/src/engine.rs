//! The per-thread engine: one thread's tables, its transaction buffers,
//! and the decision logic of the request handler and the inter-thread
//! event loop. The engine is driven with plain values and answers with a
//! response and a list of effects — commit-log appends, memtable drains
//! bound for a segment, messages for the other threads — which the
//! process around it performs.
use crate::memtable::Memtable;
use crate::order::str_bytes;
use crate::partition::spec_partition;
use crate::row::{spec_primary_key, Row};
use crate::schema::{wf_schema, TableSchema};
use crate::table::{row_wf_for, Table};
use crate::transaction::{find_table, spec_can_commit, spec_find_table, Transaction};
use crate::validation::{validate_values_against_schema, values_valid};
use crate::value::Value;
use vstd::prelude::*;
use vstd::string::StringSliceAdditionalSpecFns;
use vstd::utf8::encode_utf8;

verus! {

/// What one thread knows of the cluster layout: the partitions it owns,
/// how many partitions exist in all, and its own position.
pub struct ThreadContext {
    pub partitions: Vec<usize>,
    pub total_number_of_partitions: usize,
    pub current_thread_number: usize,
    pub number_of_threads: usize,
}

/// Whether this thread owns a partition.
pub open spec fn owns_partition(ctx: ThreadContext, p: int) -> bool {
    exists|i: int| 0 <= i < ctx.partitions@.len() && ctx.partitions@[i] == p
}

/// How a request fails: the client's fault, the server's fault, or a
/// gone peer.
#[derive(Debug)]
pub enum HandlerError {
    Client(String),
    Server(String),
    Disconnected,
}

/// One keyed operation of a request.
#[derive(Debug)]
pub enum Operation {
    Get(String, Value),
    Insert(String, Value, Vec<(String, Value)>),
    Delete(String, Value),
}

impl Operation {
    /// The hash key the operation addresses.
    pub fn hash_key(&self) -> (r: &String)
        ensures
            r@ == self.spec_hash_key(),
    {
        match self {
            Operation::Get(hash_key, _) => hash_key,
            Operation::Insert(hash_key, _, _) => hash_key,
            Operation::Delete(hash_key, _) => hash_key,
        }
    }

    /// The hash key the operation addresses.
    pub open spec fn spec_hash_key(&self) -> Seq<char> {
        match self {
            Operation::Get(hash_key, _) => hash_key@,
            Operation::Insert(hash_key, _, _) => hash_key@,
            Operation::Delete(hash_key, _) => hash_key@,
        }
    }
}

/// One decoded client command.
#[derive(Debug)]
pub enum Command {
    Single(Operation, String),
    GetMany(Vec<Operation>, String),
    Batch(Vec<Operation>, String),
    BeginTransaction,
    CommitTransaction,
    AbortTransaction,
    SyncModel(String),
    DropTable(String),
}

/// The outcome of one keyed operation.
#[derive(Debug)]
pub enum OperationResponse {
    Get(Option<Row>),
    Insert,
    Delete(bool),
}

/// The outcome of one command.
#[derive(Debug)]
pub enum Response {
    Single(OperationResponse),
    GetMany(Vec<OperationResponse>),
    Batch(Vec<OperationResponse>),
    Transaction(u64),
    SyncModel,
    DropTable,
}

/// What one thread tells another.
#[derive(Debug)]
pub enum ThreadMessage {
    TransactionBegun(u64),
    TransactionPrepare(u64),
    TransactionCommit(u64),
    TransactionAborted(u64),
    SyncModel(String),
    DropTable(String),
    Shutdown,
}

/// What the engine asks the surrounding process to do.
#[derive(Debug)]
pub enum Effect {
    /// Append these bytes to the named table's live commit log.
    AppendCommitLog(String, Vec<u8>),
    /// Write these drained rows as a new segment of the named table,
    /// then delete the old commit log.
    FlushMemtable(String, Vec<Row>),
    /// Open a fresh commit log for the named table under this naming
    /// partition tag.
    OpenCommitLog(String, usize),
    /// Send this message to every other thread.
    Broadcast(ThreadMessage),
    /// The key was absent from the memtable: look it up in the named
    /// table's segments, newest first, for this primary key and
    /// partition.
    SegmentLookup(String, String, usize),
}

/// Every entry of `a` stands somewhere in `b`.
pub open spec fn txns_subset(a: Seq<Transaction>, b: Seq<Transaction>) -> bool {
    forall|t: int|
        0 <= t < a.len() ==> exists|s: int| 0 <= s < b.len() && b[s] == #[trigger] a[t]
}

/// The transaction buffers this thread holds, and which transaction ids
/// it coordinates.
pub struct TransactionManager {
    pub transactions: Vec<Transaction>,
    pub coordinated: Vec<u64>,
}

/// Buffered insert rows of every open transaction are shaped for keys
/// the thread owns.
pub open spec fn manager_wf(m: TransactionManager, ctx: ThreadContext) -> bool {
    forall|t: int|
        0 <= t < m.transactions@.len() ==> (#[trigger] m.transactions@[t]).wf()
            && txn_rows_owned(m.transactions@[t], ctx)
}

/// Every buffered insert row's hash key maps to an owned partition.
pub open spec fn txn_rows_owned(t: Transaction, ctx: ThreadContext) -> bool {
    forall|j: int|
        0 <= j < t.spec_operations().len() ==> match (#[trigger] t.spec_operations()[j]).1 {
            crate::transaction::Operation::Insert(row) => owns_partition(
                ctx,
                spec_partition(
                    str_bytes(row.hash_key@),
                    ctx.total_number_of_partitions as int,
                ),
            ),
            crate::transaction::Operation::Delete(_) => true,
        }
}

impl TransactionManager {
    /// An empty manager.
    pub fn new() -> (r: TransactionManager)
        ensures
            r.transactions@.len() == 0,
            r.coordinated@.len() == 0,
    {
        TransactionManager { transactions: Vec::new(), coordinated: Vec::new() }
    }

    /// Position of the buffer for a transaction id.
    pub fn find(&self, transaction_id: u64) -> (r: Option<usize>)
        ensures
            r matches Some(i) ==> i < self.transactions@.len() && self.transactions@[
                i as int
            ].id == transaction_id && (forall|t: int|
                0 <= t < i ==> (#[trigger] self.transactions@[t]).id != transaction_id),
            r is None ==> forall|t: int|
                0 <= t < self.transactions@.len() ==> (#[trigger] self.transactions@[t]).id
                    != transaction_id,
    {
        let n = self.transactions.len();
        let mut i: usize = 0;
        while i < n
            invariant
                n == self.transactions@.len(),
                0 <= i <= n,
                forall|t: int|
                    0 <= t < i ==> (#[trigger] self.transactions@[t]).id != transaction_id,
            decreases n - i,
        {
            if self.transactions[i].id == transaction_id {
                return Some(i);
            }
            i = i + 1;
        }
        None
    }

    /// Opens an empty buffer for a transaction id.
    pub fn add(&mut self, transaction_id: u64)
        ensures
            final(self).coordinated == old(self).coordinated,
            final(self).transactions@.len() == old(self).transactions@.len() + 1,
            forall|t: int|
                0 <= t < old(self).transactions@.len() ==> #[trigger] final(self).transactions@[t]
                    == old(self).transactions@[t],
            final(self).transactions@.last().id == transaction_id,
            final(self).transactions@.last().spec_operations().len() == 0,
            final(self).transactions@.last().spec_affected().len() == 0,
            final(self).transactions@.last().wf(),
    {
        self.transactions.push(Transaction::new(transaction_id));
    }

    /// Drops every buffer under this transaction id and keeps the rest.
    pub fn remove(&mut self, transaction_id: u64)
        ensures
            final(self).coordinated == old(self).coordinated,
            txns_subset(final(self).transactions@, old(self).transactions@),
            forall|t: int|
                0 <= t < final(self).transactions@.len()
                    ==> (#[trigger] final(self).transactions@[t]).id != transaction_id,
            forall|s: int|
                0 <= s < old(self).transactions@.len()
                    && (#[trigger] old(self).transactions@[s]).id != transaction_id ==> exists|
                    t: int,
                |
                    0 <= t < final(self).transactions@.len() && final(self).transactions@[t]
                        == old(self).transactions@[s],
    {
        let mut kept: Vec<Transaction> = Vec::new();
        proof {
            assert(self.transactions@ =~= old(self).transactions@.take(
                self.transactions@.len() as int,
            ));
        }
        while self.transactions.len() > 0
            invariant
                self.coordinated == old(self).coordinated,
                self.transactions@.len() <= old(self).transactions@.len(),
                self.transactions@ == old(self).transactions@.take(
                    self.transactions@.len() as int,
                ),
                txns_subset(kept@, old(self).transactions@),
                forall|t: int|
                    0 <= t < kept@.len() ==> (#[trigger] kept@[t]).id != transaction_id,
                forall|s: int|
                    self.transactions@.len() <= s < old(self).transactions@.len() && (
                    #[trigger] old(self).transactions@[s]).id != transaction_id ==> exists|t: int|
                        0 <= t < kept@.len() && kept@[t] == old(self).transactions@[s],
            decreases self.transactions@.len(),
        {
            let ghost m = self.transactions@.len();
            let txn = match self.transactions.pop() {
                Some(txn) => txn,
                None => {
                    proof {
                        assert(false);
                    }
                    return ;
                },
            };
            proof {
                assert(txn == old(self).transactions@[m - 1]) by {
                    assert(old(self).transactions@.take(m as int)[m - 1] == old(
                        self,
                    ).transactions@[m - 1]);
                }
                assert(self.transactions@ =~= old(self).transactions@.take(m - 1));
            }
            let ghost kpre2 = kept@;
            if txn.id != transaction_id {
                let ghost kpre = kept@;
                kept.push(txn);
                proof {
                    assert(kept@.last() == old(self).transactions@[m - 1]);
                    assert forall|t: int| 0 <= t < kept@.len() implies exists|s: int|
                        0 <= s < old(self).transactions@.len() && old(self).transactions@[s] == (
                        #[trigger] kept@[t]) by {
                        if t < kept@.len() - 1 {
                            assert(kept@[t] == kpre[t]);
                            assert(txns_subset(kpre, old(self).transactions@));
                        } else {
                            assert(kept@[t] == old(self).transactions@[m - 1]);
                        }
                    }
                    assert(txns_subset(kept@, old(self).transactions@));
                }
            }
            proof {
                assert forall|s: int|
                    self.transactions@.len() <= s < old(self).transactions@.len() && (
                #[trigger] old(self).transactions@[s]).id != transaction_id implies exists|t: int|
                    0 <= t < kept@.len() && kept@[t] == old(self).transactions@[s] by {
                    if s == m - 1 {
                        assert(kept@[kept@.len() - 1] == old(self).transactions@[s]);
                    } else {
                        let t = choose|t: int|
                            0 <= t < kpre2.len() && kpre2[t] == old(self).transactions@[s];
                        assert(kept@[t] == old(self).transactions@[s]);
                    }
                }
            }
        }
        let ghost keptg = kept@;
        self.transactions = kept;
        proof {
            assert(self.transactions@ == keptg);
            assert(txns_subset(self.transactions@, old(self).transactions@));
        }
    }

    /// Notes this thread as the coordinator of a transaction.
    pub fn add_coordinated(&mut self, transaction_id: u64)
        ensures
            final(self).transactions == old(self).transactions,
            final(self).coordinated@ == old(self).coordinated@.push(transaction_id),
    {
        self.coordinated.push(transaction_id);
    }

    /// Whether this thread coordinates the transaction; the first such
    /// note is taken out when it does.
    pub fn remove_coordinated(&mut self, transaction_id: u64) -> (r: bool)
        ensures
            final(self).transactions == old(self).transactions,
            r == exists|i: int|
                0 <= i < old(self).coordinated@.len() && old(self).coordinated@[i]
                    == transaction_id,
            !r ==> final(self).coordinated == old(self).coordinated,
            r ==> exists|i: int|
                0 <= i < old(self).coordinated@.len() && old(self).coordinated@[i]
                    == transaction_id && final(self).coordinated@ == old(
                    self,
                ).coordinated@.remove(i),
    {
        let n = self.coordinated.len();
        let mut i: usize = 0;
        while i < n
            invariant
                n == self.coordinated@.len(),
                0 <= i <= n,
                self.transactions == old(self).transactions,
                self.coordinated == old(self).coordinated,
                forall|t: int| 0 <= t < i ==> old(self).coordinated@[t] != transaction_id,
            decreases n - i,
        {
            if self.coordinated[i] == transaction_id {
                proof {
                    assert(old(self).coordinated@[i as int] == transaction_id);
                }
                let _ = self.coordinated.remove(i);
                return true;
            }
            i = i + 1;
        }
        false
    }
}

/// One thread's whole state: its open tables, its transaction buffers,
/// and its place in the cluster.
pub struct Engine {
    pub tables: Vec<Table>,
    pub manager: TransactionManager,
    pub context: ThreadContext,
}

/// Every row of every live memtable belongs to a partition this thread
/// owns.
pub open spec fn rows_owned(tables: Seq<Table>, ctx: ThreadContext) -> bool {
    forall|ti: int, k: Seq<u8>|
        0 <= ti < tables.len() && (#[trigger] tables[ti]).memtable.view_map().contains_key(k)
            ==> owns_partition(
            ctx,
            spec_partition(
                str_bytes(#[trigger] tables[ti].memtable.view_map()[k].hash_key@),
                ctx.total_number_of_partitions as int,
            ),
        )
}

/// Table names are distinct, so a name resolves one table.
pub open spec fn tables_unique(tables: Seq<Table>) -> bool {
    forall|i: int, j: int|
        0 <= i < j < tables.len() ==> (#[trigger] tables[i]).table_schema.name@ != (
        #[trigger] tables[j]).table_schema.name@
}

impl Engine {
    /// The whole invariant of one thread: well-formed tables under
    /// distinct names, a sound cluster view, every stored and buffered
    /// row on an owned partition.
    pub open spec fn wf(&self) -> bool {
        &&& self.context.total_number_of_partitions > 0
        &&& forall|i: int| 0 <= i < self.tables@.len() ==> (#[trigger] self.tables@[i]).wf()
        &&& tables_unique(self.tables@)
        &&& rows_owned(self.tables@, self.context)
        &&& manager_wf(self.manager, self.context)
    }

    /// A fresh engine with no tables and no transactions.
    pub fn new(context: ThreadContext) -> (r: Engine)
        requires
            context.total_number_of_partitions > 0,
        ensures
            r.wf(),
            r.tables@.len() == 0,
            r.context == context,
    {
        Engine { tables: Vec::new(), manager: TransactionManager::new(), context }
    }

    /// Turns away hash keys over the fixed byte budget.
    pub fn validate_hash_key_size(&self, hash_key: &String) -> (r: Result<(), HandlerError>)
        ensures
            r is Ok <==> encode_utf8(hash_key@).len() <= crate::HASH_KEY_BYTE_SIZE,
    {
        if crate::validation::str_byte_len(hash_key.as_str()) > crate::HASH_KEY_BYTE_SIZE {
            Err(HandlerError::Client("Hash key cannot be longer than 128 bytes".to_owned()))
        } else {
            Ok(())
        }
    }

    /// Turns away keys whose partition this thread does not own.
    pub fn validate_hash_key_partition(&self, hash_key: &String) -> (r: Result<
        usize,
        HandlerError,
    >)
        requires
            self.context.total_number_of_partitions > 0,
        ensures
            r matches Ok(p) ==> p == spec_partition(
                str_bytes(hash_key@),
                self.context.total_number_of_partitions as int,
            ) && owns_partition(self.context, p as int),
            r is Err ==> !owns_partition(
                self.context,
                spec_partition(
                    str_bytes(hash_key@),
                    self.context.total_number_of_partitions as int,
                ),
            ),
            r matches Err(e) ==> e matches HandlerError::Client(msg) && msg@
                == "Invalid partition"@,
    {
        let hk = hash_key.as_str();
        let p = crate::partition::get_hash_key_target_partition(
            hk,
            self.context.total_number_of_partitions,
        );
        proof {
            assert(hk@ == hash_key@);
            assert(hk.spec_bytes() == encode_utf8(hk@));
            assert(p == spec_partition(
                str_bytes(hash_key@),
                self.context.total_number_of_partitions as int,
            ));
        }
        let n = self.context.partitions.len();
        let mut i: usize = 0;
        while i < n
            invariant
                n == self.context.partitions@.len(),
                0 <= i <= n,
                p == spec_partition(
                    str_bytes(hash_key@),
                    self.context.total_number_of_partitions as int,
                ),
                forall|j: int| 0 <= j < i ==> self.context.partitions@[j] != p,
            decreases n - i,
        {
            if self.context.partitions[i] == p {
                proof {
                    assert(owns_partition(self.context, p as int)) by {
                        assert(self.context.partitions@[i as int] == p as int);
                    }
                }
                return Ok(p);
            }
            i = i + 1;
        }
        proof {
            if owns_partition(self.context, p as int) {
                let j = choose|j: int|
                    0 <= j < self.context.partitions@.len() && self.context.partitions@[j]
                        == p as int;
            }
        }
        Err(HandlerError::Client("Invalid partition".to_owned()))
    }

    /// Whether one keyed operation is this engine's to accept: the hash
    /// key within its budget and on an owned partition, the table open,
    /// the named transaction (if any) known, and an insert's values
    /// admissible under the table's schema.
    pub open spec fn operation_admissible(
        &self,
        operation: Operation,
        table_name: Seq<char>,
        transaction_id: Option<u64>,
    ) -> bool {
        &&& encode_utf8(operation.spec_hash_key()).len() <= crate::HASH_KEY_BYTE_SIZE
        &&& owns_partition(
            self.context,
            spec_partition(
                str_bytes(operation.spec_hash_key()),
                self.context.total_number_of_partitions as int,
            ),
        )
        &&& spec_find_table(self.tables@, table_name) matches Some(ti)
        &&& (transaction_id matches Some(id) ==> exists|t: int|
            0 <= t < self.manager.transactions@.len() && (
            #[trigger] self.manager.transactions@[t]).id == id)
        &&& (operation matches Operation::Insert(h, sk, values) ==> values_valid(
            sk,
            values@,
            self.tables@[spec_find_table(self.tables@, table_name)->Some_0].table_schema,
        ))
    }

    /// Runs one keyed operation against the local tables, after checking
    /// that the key is this thread's to hold. A read answers from the
    /// memtable; a write validates, journals, applies, and may hand back
    /// a drained memtable to flush. Under a transaction, writes go to
    /// the buffer instead and reads record the version observed.
    #[verifier::rlimit(100)]
    pub fn execute_operation(
        &mut self,
        operation: Operation,
        table_name: String,
        transaction_id: Option<u64>,
    ) -> (r: Result<(OperationResponse, Vec<Effect>), HandlerError>)
        requires
            old(self).wf(),
        ensures
            final(self).wf(),
            final(self).context == old(self).context,
            final(self).tables@.len() == old(self).tables@.len(),
            forall|i: int|
                0 <= i < final(self).tables@.len()
                    ==> (#[trigger] final(self).tables@[i]).table_schema
                    == old(self).tables@[i].table_schema,
            r is Err ==> *final(self) == *old(self),
            transaction_id is None ==> final(self).manager == old(self).manager,
            (encode_utf8(operation.spec_hash_key()).len() <= crate::HASH_KEY_BYTE_SIZE
                && owns_partition(
                old(self).context,
                spec_partition(
                    str_bytes(operation.spec_hash_key()),
                    old(self).context.total_number_of_partitions as int,
                ),
            ) && spec_find_table(old(self).tables@, table_name@) is None) ==> (r matches Err(e)
                && e matches HandlerError::Client(msg) && msg@ == table_not_found_text(
                table_name@,
            )),
            old(self).operation_admissible(operation, table_name@, transaction_id) ==> r is Ok,
            r is Ok ==> spec_find_table(old(self).tables@, table_name@) is Some,
            r matches Ok(pair) ==> match operation {
                Operation::Get(_, _) => pair.0 is Get,
                Operation::Insert(_, _, _) => pair.0 is Insert,
                Operation::Delete(_, _) => pair.0 is Delete,
            },
            operation matches Operation::Get(_, _) ==> final(self).tables == old(self).tables,
            transaction_id is Some ==> final(self).tables == old(self).tables,
            transaction_id matches Some(id) ==> (r matches Ok(pair) ==> (operation matches
                Operation::Get(h, sk) ==> (pair.0 matches OperationResponse::Get(opt) ==> (opt
                matches Some(row) ==> (forall|txi: int|
                0 <= txi < old(self).manager.transactions@.len() && (#[trigger] old(
                    self,
                ).manager.transactions@[txi]).id == id && (forall|t2: int|
                    0 <= t2 < txi ==> (#[trigger] old(self).manager.transactions@[t2]).id != id)
                    ==> {
                    let k = str_bytes(spec_primary_key(h@, sk));
                    &&& 0 <= txi < final(self).manager.transactions@.len()
                    &&& (!crate::transaction::reads_contain(
                        old(self).manager.transactions@[txi],
                        table_name@,
                        k,
                    ) ==> crate::transaction::reads_contain_version(
                        final(self).manager.transactions@[txi],
                        table_name@,
                        k,
                        row.version,
                    ))
                }))))),
            transaction_id is None ==> (r matches Ok(pair) ==> (operation matches
                Operation::Insert(h, sk, vals) ==> {
                let ti = spec_find_table(old(self).tables@, table_name@)->Some_0;
                let schema = old(self).tables@[ti].table_schema;
                let k = str_bytes(spec_primary_key(h@, sk));
                let m_old = old(self).tables@[ti].memtable.view_map();
                let m_new = final(self).tables@[ti].memtable.view_map();
                &&& pair.1@.len() >= 1
                &&& (pair.1@[0] matches Effect::AppendCommitLog(nm, bytes) && nm@ == schema.name@
                    && (exists|row0: Row|
                    bytes@ == seq![crate::commit_log::OP_INSERT] + crate::codec::spec_encode_row(
                        row0,
                        schema,
                    ) + seq![10u8] && (#[trigger] row0.hash_key)@ == h@ && row0.sort_key == sk
                        && !row0.marked_for_deletion && row0.version == 1 && ordered_values_match(
                        row0.values@,
                        vals@,
                        schema.columns@,
                    )))
                &&& (!has_flush(pair.1@) ==> insert_applied_map(
                    m_old,
                    m_new,
                    h@,
                    sk,
                    vals@,
                    schema.columns@,
                ))
                &&& (has_flush(pair.1@) ==> m_new == Map::<Seq<u8>, Row>::empty() && exists|
                    e: int,
                |
                    0 <= e < pair.1@.len() && ((#[trigger] pair.1@[e]) matches
                        Effect::FlushMemtable(nm2, rows) && nm2@ == schema.name@
                        && insert_applied_map(
                        m_old,
                        crate::memtable::rows_map(rows@),
                        h@,
                        sk,
                        vals@,
                        schema.columns@,
                    )))
                &&& (has_flush(pair.1@) <==> spec_post_insert_memory(
                    m_old,
                    old(self).tables@[ti].memtable.memory_size as int,
                    k,
                    spec_insert_footprint(h@, sk, vals@, schema.columns@),
                ) > crate::memtable::MEMTABLE_MAX_SIZE_MEGABYTES * crate::MEGABYTE)
            })),
            transaction_id is None ==> (r matches Ok(pair) ==> (operation matches
                Operation::Delete(h, sk) ==> {
                let ti = spec_find_table(old(self).tables@, table_name@)->Some_0;
                let k = str_bytes(spec_primary_key(h@, sk));
                &&& pair.1@.len() == 0
                &&& delete_applied_map(
                    old(self).tables@[ti].memtable.view_map(),
                    final(self).tables@[ti].memtable.view_map(),
                    k,
                )
            })),
            r matches Ok(pair) ==> (pair.0 matches OperationResponse::Get(opt) ==> (
            match spec_find_table(final(self).tables@, table_name@) {
                Some(ti) => {
                    let m = final(self).tables@[ti].memtable.view_map();
                    let k = str_bytes(
                        spec_primary_key(operation.spec_hash_key(), operation->Get_1),
                    );
                    match opt {
                        Some(row) => m.contains_key(k) && !m[k].marked_for_deletion
                            && row_like(row, m[k]),
                        None => !m.contains_key(k) || m[k].marked_for_deletion,
                    }
                },
                None => false,
            })),
            transaction_id is None ==> (r matches Ok(pair) ==> (pair.0 matches
                OperationResponse::Delete(b) ==> match spec_find_table(
                old(self).tables@,
                table_name@,
            ) {
                Some(ti) => {
                    let m = old(self).tables@[ti].memtable.view_map();
                    let k = str_bytes(
                        spec_primary_key(operation.spec_hash_key(), operation->Delete_1),
                    );
                    b == (m.contains_key(k) && !m[k].marked_for_deletion)
                },
                None => false,
            })),
    {
        let hash_key = operation.hash_key();
        if let Err(e) = self.validate_hash_key_size(hash_key) {
            return Err(e);
        }
        let p = match self.validate_hash_key_partition(hash_key) {
            Ok(p) => p,
            Err(e) => {
                return Err(e);
            },
        };
        let ti = match find_table(&self.tables, table_name.as_str()) {
            Some(ti) => ti,
            None => {
                return Err(table_not_found_error(&table_name));
            },
        };
        let txn_idx: Option<usize> = match transaction_id {
            Some(id) => {
                match self.manager.find(id) {
                    Some(i) => Some(i),
                    None => {
                        return Err(
                            HandlerError::Client("Transaction with this id does not exist".to_owned()),
                        );
                    },
                }
            },
            None => None,
        };
        match operation {
            Operation::Get(hash_key, sort_key) => {
                let primary_key = Row::build_primary_key(hash_key.as_str(), &sort_key);
                let mut effects: Vec<Effect> = Vec::new();
                let response: Option<Row> = match self.tables[ti].memtable.get_entry(&primary_key) {
                    Some(stored) => {
                        if stored.marked_for_deletion {
                            None
                        } else {
                            let out = stored.clone();
                            proof {
                                let m = self.tables@[ti as int].memtable.view_map();
                                assert(row_like(out, m[str_bytes(primary_key@)]));
                            }
                            Some(out)
                        }
                    },
                    None => {
                        // truly absent here: the segments may still hold it
                        let table_for_lookup = self.tables[ti].table_schema.name.clone();
                        let pk_for_lookup = primary_key.clone();
                        effects.push(Effect::SegmentLookup(table_for_lookup, pk_for_lookup, p));
                        None
                    },
                };
                if let Some(txi) = txn_idx {
                    let mut txn = self.manager.transactions.remove(txi);
                    let ghost txn_old = txn;
                    txn.get_for_update(response.as_ref(), table_name);
                    self.manager.transactions.insert(txi, txn);
                    proof {
                        lemma_manager_reinsert(
                            old(self).manager,
                            self.manager,
                            txi as int,
                            self.context,
                        );
                        assert(txn_old == old(self).manager.transactions@[txi as int]);
                        assert forall|txi2: int|
                            0 <= txi2 < old(self).manager.transactions@.len() && (#[trigger] old(
                                self,
                            ).manager.transactions@[txi2]).id == transaction_id->Some_0 && (forall|
                                t2: int,
                            |
                                0 <= t2 < txi2 ==> (#[trigger] old(
                                    self,
                                ).manager.transactions@[t2]).id != transaction_id->Some_0)
                            implies txi2 == txi by {
                            if txi2 < txi {
                                assert(old(self).manager.transactions@[txi2].id
                                    != transaction_id->Some_0);
                            }
                            if txi2 > txi {
                                assert(old(self).manager.transactions@[txi as int].id
                                    != transaction_id->Some_0);
                            }
                        }
                        assert(self.manager.transactions@[txi as int] == txn);
                    }
                }
                proof {
                    assert(spec_find_table(self.tables@, table_name@) == Some(ti as int));
                }
                Ok((OperationResponse::Get(response), effects))
            },
            Operation::Insert(hash_key, sort_key, values) => {
                let ordered = match validate_values_against_schema(
                    &sort_key,
                    &values,
                    &self.tables[ti].table_schema,
                ) {
                    Ok(ordered) => ordered,
                    Err(e) => {
                        return Err(HandlerError::Client(e));
                    },
                };
                let row = Row::new(hash_key, sort_key, ordered);
                proof {
                    assert(row_wf_for(row, self.tables@[ti as int].table_schema));
                    assert(owns_partition(
                        self.context,
                        spec_partition(
                            str_bytes(row.hash_key@),
                            self.context.total_number_of_partitions as int,
                        ),
                    ));
                }
                match txn_idx {
                    Some(txi) => {
                        let mut txn = self.manager.transactions.remove(txi);
                        let ghost opspre = txn.spec_operations();
                        txn.insert(row, &self.tables[ti]);
                        proof {
                            assert(txn_rows_owned(txn, self.context)) by {
                                assert(forall|j: int|
                                    0 <= j < opspre.len() ==> #[trigger] txn.spec_operations()[j]
                                        == opspre[j]);
                            }
                        }
                        self.manager.transactions.insert(txi, txn);
                        proof {
                            lemma_manager_reinsert(
                                old(self).manager,
                                self.manager,
                                txi as int,
                                self.context,
                            );
                        }
                        Ok((OperationResponse::Insert, Vec::new()))
                    },
                    None => {
                        let ghost row_g = row;
                        let ghost ordered_g = row.values@;
                        let ghost vals_g = values@;
                        let ghost schema_g = self.tables@[ti as int].table_schema;
                        let mut effects: Vec<Effect> = Vec::new();
                        let record = crate::commit_log::encode_insert_record(
                            &row,
                            &self.tables[ti].table_schema,
                        );
                        let name_for_log = self.tables[ti].table_schema.name.clone();
                        effects.push(Effect::AppendCommitLog(name_for_log, record));
                        proof {
                            assert(ordered_values_match(row_g.values@, vals_g, schema_g.columns@));
                            assert(effects@[0] matches Effect::AppendCommitLog(nm, bytes) && nm@
                                == schema_g.name@ && bytes@ == seq![crate::commit_log::OP_INSERT]
                                + crate::codec::spec_encode_row(row_g, schema_g) + seq![10u8]);
                        }
                        let ghost tpre = self.tables@;
                        let mut tbl = self.tables.remove(ti);
                        let ghost pre_map = tbl.memtable.view_map();
                        tbl.insert_row(row, false);
                        let ghost post_map = tbl.memtable.view_map();
                        proof {
                            lemma_ordered_footprint(row_g.values@, vals_g, schema_g.columns@);
                            assert(crate::memtable::spec_row_footprint(row_g)
                                == spec_insert_footprint(
                                row_g.hash_key@,
                                row_g.sort_key,
                                vals_g,
                                schema_g.columns@,
                            ));
                            assert(tbl.memtable.memory_size as int == spec_post_insert_memory(
                                pre_map,
                                old(self).tables@[ti as int].memtable.memory_size as int,
                                crate::memtable::pk_bytes(row_g),
                                spec_insert_footprint(
                                    row_g.hash_key@,
                                    row_g.sort_key,
                                    vals_g,
                                    schema_g.columns@,
                                ),
                            ));
                            assert(insert_applied_map(
                                pre_map,
                                post_map,
                                row_g.hash_key@,
                                row_g.sort_key,
                                vals_g,
                                schema_g.columns@,
                            )) by {
                                if pre_map.contains_key(crate::memtable::pk_bytes(row_g)) {
                                    let now = choose|now: u128|
                                        post_map[crate::memtable::pk_bytes(row_g)]
                                            == crate::memtable::merged_update(
                                            pre_map[crate::memtable::pk_bytes(row_g)],
                                            row_g,
                                            now,
                                        );
                                }
                            }
                        }
                        if tbl.memtable.max_size_reached() {
                            let flush_name = tbl.table_schema.name.clone();
                            let drained = tbl.drain_memtable();
                            effects.push(Effect::FlushMemtable(flush_name, drained));
                            proof {
                                assert(effects@[1] matches Effect::FlushMemtable(nm2, rows) && nm2@
                                    == schema_g.name@ && crate::memtable::rows_map(rows@)
                                    == post_map);
                            }
                            let tag = if self.context.partitions.len() > 0 {
                                let tag_pick = crate::exttrust::random_below(
                                    self.context.partitions.len(),
                                );
                                self.context.partitions[tag_pick]
                            } else {
                                0
                            };
                            tbl.commit_log_partition = tag;
                            let log_name = tbl.table_schema.name.clone();
                            effects.push(Effect::OpenCommitLog(log_name, tag));
                        }
                        self.tables.insert(ti, tbl);
                        proof {
                            assert(self.tables@ =~= tpre.update(ti as int, self.tables@[ti as int]));
                            lemma_engine_table_update(
                                tpre,
                                self.tables@,
                                ti as int,
                                self.context,
                            );
                            assert(crate::memtable::pk_bytes(row_g) == str_bytes(
                                spec_primary_key(row_g.hash_key@, row_g.sort_key),
                            ));
                            if effects@.len() == 1 {
                                assert(!has_flush(effects@)) by {
                                    if has_flush(effects@) {
                                        let e = choose|e: int|
                                            0 <= e < effects@.len() && (#[trigger] effects@[e])
                                                matches Effect::FlushMemtable(_, _);
                                        assert(e == 0);
                                    }
                                }
                                assert(self.tables@[ti as int].memtable.view_map() == post_map);
                            } else {
                                assert(has_flush(effects@)) by {
                                    assert((#[trigger] effects@[1]) matches Effect::FlushMemtable(
                                        _,
                                        _,
                                    ));
                                }
                                assert(self.tables@[ti as int].memtable.view_map() == Map::<
                                    Seq<u8>,
                                    Row,
                                >::empty());
                            }
                        }
                        Ok((OperationResponse::Insert, effects))
                    },
                }
            },
            Operation::Delete(hash_key, sort_key) => {
                let primary_key = Row::build_primary_key(hash_key.as_str(), &sort_key);
                match txn_idx {
                    Some(txi) => {
                        let mut txn = self.manager.transactions.remove(txi);
                        let ghost opspre = txn.spec_operations();
                        let was_present = txn.delete(primary_key, &self.tables[ti]);
                        proof {
                            assert(txn_rows_owned(txn, self.context)) by {
                                assert(forall|j: int|
                                    0 <= j < opspre.len() ==> #[trigger] txn.spec_operations()[j]
                                        == opspre[j]);
                            }
                        }
                        self.manager.transactions.insert(txi, txn);
                        proof {
                            lemma_manager_reinsert(
                                old(self).manager,
                                self.manager,
                                txi as int,
                                self.context,
                            );
                        }
                        Ok((OperationResponse::Delete(was_present), Vec::new()))
                    },
                    None => {
                        let ghost tpre = self.tables@;
                        let mut tbl = self.tables.remove(ti);
                        let was_present = tbl.delete_row(&primary_key, None);
                        self.tables.insert(ti, tbl);
                        proof {
                            assert(self.tables@ =~= tpre.update(ti as int, self.tables@[ti as int]));
                            lemma_engine_table_update(
                                tpre,
                                self.tables@,
                                ti as int,
                                self.context,
                            );
                        }
                        Ok((OperationResponse::Delete(was_present), Vec::new()))
                    },
                }
            },
        }
    }
}

/// What command a decoded request stands for: each payload variant maps
/// to its command, keyed operations carrying the request's table.
pub open spec fn command_matches_request(
    data: crate::wire::RequestData,
    table: Seq<char>,
    cmd: Command,
) -> bool {
    match data {
        crate::wire::RequestData::Get(g) => cmd matches Command::Single(op, name) && name@
            == table && (op matches Operation::Get(h, sk) && h == g.hash_key && sk == g.sort_key),
        crate::wire::RequestData::Insert(ins) => cmd matches Command::Single(op, name) && name@
            == table && (op matches Operation::Insert(h, sk, vals) && h == ins.hash_key && sk
            == ins.sort_key && vals == ins.values),
        crate::wire::RequestData::Delete(d) => cmd matches Command::Single(op, name) && name@
            == table && (op matches Operation::Delete(h, sk) && h == d.hash_key && sk
            == d.sort_key),
        crate::wire::RequestData::GetMany(gets) => cmd matches Command::GetMany(ops, name) && name@
            == table && ops@.len() == gets@.len() && (forall|i: int|
            0 <= i < gets@.len() ==> ((#[trigger] ops@[i]) matches Operation::Get(h, sk) && h
                == gets@[i].hash_key && sk == gets@[i].sort_key)),
        crate::wire::RequestData::Batch(items) => cmd matches Command::Batch(ops, name) && name@
            == table && ops@.len() == items@.len() && (forall|i: int|
            0 <= i < items@.len() ==> match #[trigger] items@[i] {
                crate::wire::BatchItemData::Insert(ins) => ops@[i] matches Operation::Insert(
                    h,
                    sk,
                    vals,
                ) && h == ins.hash_key && sk == ins.sort_key && vals == ins.values,
                crate::wire::BatchItemData::Delete(d) => ops@[i] matches Operation::Delete(h, sk)
                    && h == d.hash_key && sk == d.sort_key,
            }),
        crate::wire::RequestData::BeginTransaction => cmd is BeginTransaction,
        crate::wire::RequestData::CommitTransaction => cmd is CommitTransaction,
        crate::wire::RequestData::AbortTransaction => cmd is AbortTransaction,
        crate::wire::RequestData::SyncModel(t) => cmd matches Command::SyncModel(t2) && t2 == t,
        crate::wire::RequestData::DropTable(n) => cmd matches Command::DropTable(n2) && n2 == n,
    }
}

/// Maps one decoded request to the command the handler runs; a request
/// without a payload is turned away.
pub fn command_from_request(request: crate::wire::Request) -> (r: Result<Command, String>)
    ensures
        request.data is None ==> r is Err,
        request.data is Some ==> r is Ok,
        r matches Ok(cmd) ==> request.data matches Some(d) && command_matches_request(
            d,
            request.table@,
            cmd,
        ),
{
    let crate::wire::Request { table, transaction_id: _, data } = request;
    let data = match data {
        Some(data) => data,
        None => {
            return Err("Invalid request data".to_owned());
        },
    };
    match data {
        crate::wire::RequestData::Get(g) => Ok(
            Command::Single(Operation::Get(g.hash_key, g.sort_key), table),
        ),
        crate::wire::RequestData::Insert(ins) => Ok(
            Command::Single(Operation::Insert(ins.hash_key, ins.sort_key, ins.values), table),
        ),
        crate::wire::RequestData::Delete(d) => Ok(
            Command::Single(Operation::Delete(d.hash_key, d.sort_key), table),
        ),
        crate::wire::RequestData::GetMany(gets) => {
            let mut ops: Vec<Operation> = Vec::new();
            let mut rest = gets;
            let ghost orig = rest@;
            let mut idx: usize = 0;
            let total: usize = rest.len();
            while rest.len() > 0
                invariant
                    0 <= idx <= orig.len() == total,
                    rest@ == orig.skip(idx as int),
                    ops@.len() == idx,
                    forall|i: int|
                        0 <= i < idx ==> ((#[trigger] ops@[i]) matches Operation::Get(h, sk) && h
                            == orig[i].hash_key && sk == orig[i].sort_key),
                decreases rest@.len(),
            {
                let g = rest.remove(0);
                proof {
                    assert(g == orig[idx as int]) by {
                        assert(orig.skip(idx as int)[0] == orig[idx as int]);
                    }
                    assert(rest@ =~= orig.skip(idx as int + 1));
                }
                ops.push(Operation::Get(g.hash_key, g.sort_key));
                idx = idx + 1;
            }
            Ok(Command::GetMany(ops, table))
        },
        crate::wire::RequestData::Batch(items) => {
            let mut ops: Vec<Operation> = Vec::new();
            let mut rest = items;
            let ghost orig = rest@;
            let mut idx: usize = 0;
            let total: usize = rest.len();
            while rest.len() > 0
                invariant
                    0 <= idx <= orig.len() == total,
                    rest@ == orig.skip(idx as int),
                    ops@.len() == idx,
                    forall|i: int|
                        0 <= i < idx ==> match #[trigger] orig[i] {
                            crate::wire::BatchItemData::Insert(ins) => ops@[i] matches
                                Operation::Insert(h, sk, vals) && h == ins.hash_key && sk
                                == ins.sort_key && vals == ins.values,
                            crate::wire::BatchItemData::Delete(d) => ops@[i] matches
                                Operation::Delete(h, sk) && h == d.hash_key && sk == d.sort_key,
                        },
                decreases rest@.len(),
            {
                let item = rest.remove(0);
                proof {
                    assert(item == orig[idx as int]) by {
                        assert(orig.skip(idx as int)[0] == orig[idx as int]);
                    }
                    assert(rest@ =~= orig.skip(idx as int + 1));
                }
                match item {
                    crate::wire::BatchItemData::Insert(ins) => {
                        ops.push(Operation::Insert(ins.hash_key, ins.sort_key, ins.values));
                    },
                    crate::wire::BatchItemData::Delete(d) => {
                        ops.push(Operation::Delete(d.hash_key, d.sort_key));
                    },
                }
                idx = idx + 1;
            }
            Ok(Command::Batch(ops, table))
        },
        crate::wire::RequestData::BeginTransaction => Ok(Command::BeginTransaction),
        crate::wire::RequestData::CommitTransaction => Ok(Command::CommitTransaction),
        crate::wire::RequestData::AbortTransaction => Ok(Command::AbortTransaction),
        crate::wire::RequestData::SyncModel(t) => Ok(Command::SyncModel(t)),
        crate::wire::RequestData::DropTable(n) => Ok(Command::DropTable(n)),
    }
}

/// The catalog text: every open table's schema string, one per line.
pub open spec fn spec_catalog(tables: Seq<Table>) -> Seq<char> {
    if tables.len() == 0 {
        Seq::empty()
    } else {
        crate::scan::join_char(
            tables.map_values(|t: Table| crate::schema::spec_schema_string(t.table_schema)),
            '\n',
        )
    }
}

/// What handling a command comes to: a finished response with its
/// effects, or a commit that still waits on the other threads' votes.
#[derive(Debug)]
pub enum CommandOutcome {
    Done(Response, Vec<Effect>),
    AwaitPrepare(u64),
}

impl Engine {
    /// Renders the whole table catalog, one schema per line, the form
    /// the schema file persists.
    pub fn catalog_string(&self) -> (r: String)
        ensures
            r@ == spec_catalog(self.tables@),
    {
        let mut out = String::new();
        let n = self.tables.len();
        let mut i: usize = 0;
        while i < n
            invariant
                n == self.tables@.len(),
                0 <= i <= n,
                i == 0 ==> out@ == Seq::<char>::empty(),
                i >= 1 ==> out@ == crate::scan::join_char(
                    self.tables@.map_values(
                        |t: Table| crate::schema::spec_schema_string(t.table_schema),
                    ).take(i as int),
                    '\n',
                ),
            decreases n - i,
        {
            let ghost lines = self.tables@.map_values(
                |t: Table| crate::schema::spec_schema_string(t.table_schema),
            );
            if i > 0 {
                proof {
                    reveal_strlit("\n");
                }
                out.append("\n");
            }
            let line = self.tables[i].table_schema.to_schema_string();
            out.append(line.as_str());
            proof {
                assert(lines[i as int] == crate::schema::spec_schema_string(
                    self.tables@[i as int].table_schema,
                ));
                if i == 0 {
                    assert(lines.take(1) =~= seq![lines[0]]);
                    assert(out@ =~= crate::scan::join_char(lines.take(1), '\n'));
                } else {
                    crate::schema::lemma_join_take_step_pub(lines, '\n', i as int);
                    assert(out@ =~= crate::scan::join_char(lines.take(i + 1), '\n'));
                }
            }
            i = i + 1;
        }
        proof {
            let lines = self.tables@.map_values(
                |t: Table| crate::schema::spec_schema_string(t.table_schema),
            );
            assert(lines.take(n as int) =~= lines);
        }
        out
    }

    /// Installs a new table from its schema text: an unknown, well-formed
    /// schema opens an empty table with a fresh commit log; a duplicate
    /// name or bad text is turned away.
    pub fn sync_model(&mut self, schema_string: &String) -> (r: Result<Vec<Effect>, String>)
        requires
            old(self).wf(),
        ensures
            final(self).wf(),
            final(self).context == old(self).context,
            final(self).manager == old(self).manager,
            r is Err ==> final(self).tables == old(self).tables,
            r matches Ok(effects) ==> {
                &&& final(self).tables@.len() == old(self).tables@.len() + 1
                &&& forall|i: int|
                    0 <= i < old(self).tables@.len() ==> #[trigger] final(self).tables@[i]
                        == old(self).tables@[i]
                &&& final(self).tables@.last().memtable.view_map() == Map::<Seq<u8>, Row>::empty()
                &&& spec_find_table(
                    old(self).tables@,
                    final(self).tables@.last().table_schema.name@,
                ) is None
                &&& effects@.len() == 1
                &&& (effects@[0] matches Effect::OpenCommitLog(nm, tag) && nm@
                    == final(self).tables@.last().table_schema.name@ && (old(
                    self,
                ).context.partitions@.len() > 0 ==> owns_partition(
                    old(self).context,
                    tag as int,
                )))
            },
            forall|s0: crate::schema::TableSchema|
                crate::schema::renders_to(s0, schema_string@) && spec_find_table(
                    old(self).tables@,
                    s0.name@,
                ) is None ==> r is Ok && crate::schema::schema_equiv(
                    final(self).tables@.last().table_schema,
                    s0,
                ),
            forall|s0: crate::schema::TableSchema|
                crate::schema::renders_to(s0, schema_string@) && spec_find_table(
                    old(self).tables@,
                    s0.name@,
                ) is Some ==> (r matches Err(e) && e@ == "Table already exists"@),
    {
        let schema = match TableSchema::from_string(schema_string.as_str()) {
            Ok(schema) => schema,
            Err(e) => {
                return Err(e);
            },
        };
        let existing = find_table(&self.tables, schema.name.as_str());
        proof {
            assert forall|s0: crate::schema::TableSchema|
                crate::schema::renders_to(s0, schema_string@) implies s0.name@ == schema.name@ by {
                assert(crate::schema::schema_equiv(schema, s0));
            }
        }
        if existing.is_some() {
            proof {
                if spec_find_table(self.tables@, schema.name@) is None {
                    assert(existing is Some);
                    let ti = existing->Some_0;
                }
            }
            return Err("Table already exists".to_owned());
        }
        let tag = if self.context.partitions.len() > 0 {
            let pick = crate::exttrust::random_below(self.context.partitions.len());
            self.context.partitions[pick]
        } else {
            0
        };
        let name_for_log = schema.name.clone();
        let table = Table::new(Memtable::new(), schema, tag);
        let ghost tpre = self.tables@;
        self.tables.push(table);
        proof {
            assert(forall|i: int| 0 <= i < tpre.len() ==> #[trigger] self.tables@[i] == tpre[i]);
            assert(tables_unique(self.tables@)) by {
                assert forall|i: int, j: int|
                    0 <= i < j < self.tables@.len() implies (
                #[trigger] self.tables@[i]).table_schema.name@ != (
                #[trigger] self.tables@[j]).table_schema.name@ by {
                    if j == self.tables@.len() - 1 {
                        assert(self.tables@[i] == tpre[i]);
                    }
                }
            }
            assert(rows_owned(self.tables@, self.context)) by {
                assert forall|ti: int, k: Seq<u8>|
                    0 <= ti < self.tables@.len() && (
                #[trigger] self.tables@[ti]).memtable.view_map().contains_key(k) implies
                    owns_partition(
                    self.context,
                    spec_partition(
                        str_bytes(#[trigger] self.tables@[ti].memtable.view_map()[k].hash_key@),
                        self.context.total_number_of_partitions as int,
                    ),
                ) by {
                    if ti < tpre.len() {
                        assert(self.tables@[ti] == tpre[ti]);
                    }
                }
            }
        }
        let mut effects: Vec<Effect> = Vec::new();
        effects.push(Effect::OpenCommitLog(name_for_log, tag));
        Ok(effects)
    }

    /// Removes a table from the registry; its segments and log are the
    /// surrounding process's to unlink. An unknown name is turned away.
    pub fn drop_table(&mut self, table_name: &String) -> (r: Result<(), String>)
        requires
            old(self).wf(),
        ensures
            final(self).wf(),
            final(self).context == old(self).context,
            final(self).manager == old(self).manager,
            r is Ok <==> spec_find_table(old(self).tables@, table_name@) is Some,
            r is Err ==> final(self).tables == old(self).tables,
            r is Ok ==> 0 <= spec_find_table(old(self).tables@, table_name@)->Some_0 < old(
                self,
            ).tables@.len() && final(self).tables@ == old(self).tables@.remove(
                spec_find_table(old(self).tables@, table_name@)->Some_0,
            ),
    {
        let ti = match find_table(&self.tables, table_name.as_str()) {
            Some(ti) => ti,
            None => {
                return Err("Table does not exist".to_owned());
            },
        };
        let ghost tpre = self.tables@;
        let _ = self.tables.remove(ti);
        proof {
            assert forall|i: int| 0 <= i < self.tables@.len() implies (
            #[trigger] self.tables@[i]).wf() by {
                if i < ti {
                    assert(self.tables@[i] == tpre[i]);
                } else {
                    assert(self.tables@[i] == tpre[i + 1]);
                }
            }
            assert forall|i: int, j: int|
                0 <= i < j < self.tables@.len() implies (
            #[trigger] self.tables@[i]).table_schema.name@ != (
            #[trigger] self.tables@[j]).table_schema.name@ by {
                let i0: int = if i < ti { i } else { i + 1 };
                let j0: int = if j < ti { j } else { j + 1 };
                assert(self.tables@[i] == tpre[i0]);
                assert(self.tables@[j] == tpre[j0]);
            }
            assert forall|ti2: int, k: Seq<u8>|
                0 <= ti2 < self.tables@.len() && (
            #[trigger] self.tables@[ti2]).memtable.view_map().contains_key(k) implies
                owns_partition(
                self.context,
                spec_partition(
                    str_bytes(#[trigger] self.tables@[ti2].memtable.view_map()[k].hash_key@),
                    self.context.total_number_of_partitions as int,
                ),
            ) by {
                let i0: int = if ti2 < ti { ti2 } else { ti2 + 1 };
                assert(self.tables@[ti2] == tpre[i0]);
            }
        }
        Ok(())
    }

    /// Opens a transaction: draws a fresh id, notes this thread as its
    /// coordinator, opens the local buffer, and tells the other threads.
    pub fn begin_transaction(&mut self) -> (r: (u64, Vec<Effect>))
        requires
            old(self).wf(),
        ensures
            final(self).wf(),
            final(self).context == old(self).context,
            final(self).tables == old(self).tables,
            final(self).manager.coordinated@ == old(self).manager.coordinated@.push(r.0),
            final(self).manager.transactions@.len() == old(self).manager.transactions@.len() + 1,
            forall|t: int|
                0 <= t < old(self).manager.transactions@.len()
                    ==> #[trigger] final(self).manager.transactions@[t] == old(
                    self,
                ).manager.transactions@[t],
            final(self).manager.transactions@.last().id == r.0,
            final(self).manager.transactions@.last().spec_operations().len() == 0,
            final(self).manager.transactions@.last().spec_affected().len() == 0,
            r.1@.len() == 1 && r.1@[0] == Effect::Broadcast(ThreadMessage::TransactionBegun(r.0)),
    {
        let id = crate::exttrust::random_u64();
        self.manager.add_coordinated(id);
        let ghost mpre = self.manager.transactions@;
        self.manager.add(id);
        proof {
            assert(manager_wf(self.manager, self.context)) by {
                assert forall|t: int| 0 <= t < self.manager.transactions@.len() implies (
                #[trigger] self.manager.transactions@[t]).wf() && txn_rows_owned(
                    self.manager.transactions@[t],
                    self.context,
                ) by {
                    if t < mpre.len() {
                        assert(self.manager.transactions@[t] == mpre[t]);
                    }
                }
            }
        }
        let mut effects: Vec<Effect> = Vec::new();
        effects.push(Effect::Broadcast(ThreadMessage::TransactionBegun(id)));
        (id, effects)
    }

    /// The local prepare vote of a commit this thread coordinates: yes
    /// exactly when every row the transaction observed still stands at
    /// the version observed.
    pub fn local_vote(&self, transaction_id: u64) -> (r: Result<bool, HandlerError>)
        requires
            self.wf(),
        ensures
            r matches Ok(v) ==> exists|txi: int|
                0 <= txi < self.manager.transactions@.len() && (
                #[trigger] self.manager.transactions@[txi]).id == transaction_id && v
                    == spec_can_commit(self.manager.transactions@[txi], self.tables@),
            r is Err <==> (forall|txi: int|
                0 <= txi < self.manager.transactions@.len() ==> (
                #[trigger] self.manager.transactions@[txi]).id != transaction_id),
    {
        match self.manager.find(transaction_id) {
            Some(txi) => {
                let vote = self.manager.transactions[txi].can_commit(&self.tables);
                proof {
                    assert((#[trigger] self.manager.transactions@[txi as int]).id
                        == transaction_id);
                }
                Ok(vote)
            },
            None => Err(commit_missing_error(transaction_id)),
        }
    }

    /// Finishes a two-phase commit once the votes are in: with every
    /// vote yes the buffered writes are applied and the commit is
    /// announced; otherwise everything is discarded, the abort is
    /// announced, and the client sees a server error. The effects come
    /// back either way, for the process to perform.
    pub fn finish_commit(&mut self, transaction_id: u64, all_votes_yes: bool) -> (r: (
        Result<Response, HandlerError>,
        Vec<Effect>,
    ))
        requires
            old(self).wf(),
        ensures
            final(self).wf(),
            final(self).context == old(self).context,
            (forall|txi: int|
                0 <= txi < old(self).manager.transactions@.len() ==> (#[trigger] old(
                    self,
                ).manager.transactions@[txi]).id != transaction_id)
                ==> (r.0 matches Err(e) && e matches HandlerError::Client(m) && m@
                == commit_missing_text(transaction_id as int)) && final(self).tables == old(
                self,
            ).tables && final(self).manager == old(self).manager && r.1@.len() == 0,
            (exists|txi: int|
                0 <= txi < old(self).manager.transactions@.len() && (#[trigger] old(
                    self,
                ).manager.transactions@[txi]).id == transaction_id) && !all_votes_yes ==> {
                &&& (r.0 matches Err(e) && e matches HandlerError::Server(m) && m@
                    == commit_aborted_text(transaction_id as int))
                &&& final(self).tables == old(self).tables
                &&& forall|t: int|
                    0 <= t < final(self).manager.transactions@.len()
                        ==> (#[trigger] final(self).manager.transactions@[t]).id != transaction_id
                &&& txns_subset(
                    final(self).manager.transactions@,
                    old(self).manager.transactions@,
                )
                &&& r.1@ == seq![
                    Effect::Broadcast(ThreadMessage::TransactionAborted(transaction_id)),
                ]
            },
            all_votes_yes ==> forall|txi: int|
                0 <= txi < old(self).manager.transactions@.len() && (#[trigger] old(
                    self,
                ).manager.transactions@[txi]).id == transaction_id && (forall|t2: int|
                    0 <= t2 < txi ==> (#[trigger] old(self).manager.transactions@[t2]).id
                        != transaction_id) ==> {
                    let txn = old(self).manager.transactions@[txi];
                    &&& (r.0 matches Ok(resp) && resp == Response::Transaction(transaction_id))
                    &&& final(self).manager.transactions@
                        == old(self).manager.transactions@.remove(txi)
                    &&& r.1@.len() >= 1
                    &&& r.1@.last() == Effect::Broadcast(
                        ThreadMessage::TransactionCommit(transaction_id),
                    )
                    &&& (r.1@.len() == 1 ==> (forall|ti: int, k: Seq<u8>|
                        0 <= ti < final(self).tables@.len() && !crate::transaction::writes_contain(
                            txn,
                            final(self).tables@[ti].table_schema.name@,
                            k,
                        ) ==> #[trigger] crate::transaction::lookup_same(
                            old(self).tables@[ti],
                            final(self).tables@[ti],
                            k,
                        )))
                    &&& (r.1@.len() == 1 ==> (forall|ti: int, j: int|
                        0 <= ti < final(self).tables@.len() && crate::transaction::sole_write(
                            txn,
                            j,
                            final(self).tables@[ti].table_schema.name@,
                        ) ==> #[trigger] crate::transaction::write_applied(
                            txn.spec_operations()[j].1,
                            old(self).tables@[ti],
                            final(self).tables@[ti],
                        )))
                    &&& (forall|ti: int, k: Seq<u8>|
                        0 <= ti < final(self).tables@.len()
                            && !crate::transaction::writes_contain(
                            txn,
                            final(self).tables@[ti].table_schema.name@,
                            k,
                        ) ==> #[trigger] crate::transaction::map_lookup_same(
                            old(self).tables@[ti].memtable.view_map(),
                            engine_effective_map(final(self).tables@[ti], r.1@),
                            k,
                        ))
                    &&& (forall|ti: int, j: int|
                        0 <= ti < final(self).tables@.len() && crate::transaction::sole_write(
                            txn,
                            j,
                            final(self).tables@[ti].table_schema.name@,
                        ) ==> #[trigger] crate::transaction::write_applied_map(
                            txn.spec_operations()[j].1,
                            final(self).tables@[ti].table_schema,
                            old(self).tables@[ti].memtable.view_map(),
                            engine_effective_map(final(self).tables@[ti], r.1@),
                        ))
                },
    {
        let txi = match self.manager.find(transaction_id) {
            Some(txi) => txi,
            None => {
                return (Err(commit_missing_error(transaction_id)), Vec::new());
            },
        };
        let mut effects: Vec<Effect> = Vec::new();
        if !all_votes_yes {
            self.manager.remove(transaction_id);
            proof {
                lemma_manager_subset_wf(old(self).manager, self.manager, self.context);
            }
            effects.push(
                Effect::Broadcast(ThreadMessage::TransactionAborted(transaction_id)),
            );
            proof {
                assert(effects@ =~= seq![
                    Effect::Broadcast(ThreadMessage::TransactionAborted(transaction_id)),
                ]);
            }
            return (Err(commit_aborted_error(transaction_id)), effects);
        }
        let mut txn = self.manager.transactions.remove(txi);
        let ghost txn_pre = txn;
        proof {
            lemma_manager_remove_wf(old(self).manager, self.manager, txi as int, self.context);
        }
        let flushes = txn.commit(&mut self.tables);
        let ghost flushes_count = flushes@.len();
        proof {
            lemma_commit_keeps_rows_owned(
                txn_pre,
                old(self).tables@,
                self.tables@,
                self.context,
            );
        }
        let ghost flushes_g = flushes@;
        let effects2 = self.flush_effects(flushes);
        let ghost feg = effects2@;
        let mut effects = effects;
        let mut effects2 = effects2;
        effects.append(&mut effects2);
        effects.push(Effect::Broadcast(ThreadMessage::TransactionCommit(transaction_id)));
        proof {
            assert(effects@ =~= feg.push(
                Effect::Broadcast(ThreadMessage::TransactionCommit(transaction_id)),
            ));
            assert forall|ti: int, k: Seq<u8>|
                0 <= ti < self.tables@.len() && !crate::transaction::writes_contain(
                    txn_pre,
                    self.tables@[ti].table_schema.name@,
                    k,
                ) implies #[trigger] crate::transaction::map_lookup_same(
                old(self).tables@[ti].memtable.view_map(),
                engine_effective_map(self.tables@[ti], effects@),
                k,
            ) by {
                let nm = self.tables@[ti].table_schema.name@;
                lemma_effects_effective(flushes_g, effects@, nm);
                assert(engine_effective_map(self.tables@[ti], effects@)
                    == crate::transaction::commit_effective_map(self.tables@[ti], flushes_g));
            }
            assert forall|ti: int, j: int|
                0 <= ti < self.tables@.len() && crate::transaction::sole_write(
                    txn_pre,
                    j,
                    self.tables@[ti].table_schema.name@,
                ) implies #[trigger] crate::transaction::write_applied_map(
                txn_pre.spec_operations()[j].1,
                self.tables@[ti].table_schema,
                old(self).tables@[ti].memtable.view_map(),
                engine_effective_map(self.tables@[ti], effects@),
            ) by {
                let nm = self.tables@[ti].table_schema.name@;
                lemma_effects_effective(flushes_g, effects@, nm);
                assert(engine_effective_map(self.tables@[ti], effects@)
                    == crate::transaction::commit_effective_map(self.tables@[ti], flushes_g));
            }
            assert(effects@.last() == Effect::Broadcast(
                ThreadMessage::TransactionCommit(transaction_id),
            ));
            if effects@.len() == 1 {
                assert(flushes_count == 0);
            }
            assert forall|txi2: int|
                0 <= txi2 < old(self).manager.transactions@.len() && (#[trigger] old(
                    self,
                ).manager.transactions@[txi2]).id == transaction_id && (forall|t2: int|
                    0 <= t2 < txi2 ==> (#[trigger] old(self).manager.transactions@[t2]).id
                        != transaction_id) implies txi2 == txi by {
                if txi2 < txi {
                    assert(old(self).manager.transactions@[txi2].id != transaction_id);
                }
                if txi2 > txi {
                    assert(old(self).manager.transactions@[txi as int].id != transaction_id);
                }
            }
            assert(txn_pre == old(self).manager.transactions@[txi as int]);
        }
        (Ok(Response::Transaction(transaction_id)), effects)
    }

    /// Turns drained memtables into flush effects, opening a fresh
    /// commit log for each drained table.
    fn flush_effects(&self, flushes: Vec<(String, Vec<Row>)>) -> (r: Vec<Effect>)
        ensures
            r@.len() == 2 * flushes@.len(),
            forall|i: int|
                0 <= i < flushes@.len() ==> (#[trigger] r@[2 * i]) == Effect::FlushMemtable(
                    flushes@[i].0,
                    flushes@[i].1,
                ),
            forall|i: int|
                0 <= i < flushes@.len() ==> ((#[trigger] r@[2 * i + 1]) matches
                    Effect::OpenCommitLog(nm, tag) && nm@ == flushes@[i].0@ && (
                self.context.partitions@.len() > 0 ==> owns_partition(self.context, tag as int))),
    {
        let mut effects: Vec<Effect> = Vec::new();
        let mut rest = flushes;
        let ghost total = rest@.len();
        while rest.len() > 0
            invariant
                effects@.len() + 2 * rest@.len() == 2 * total,
                total == flushes@.len(),
                rest@ == flushes@.skip(total - rest@.len()),
                forall|i: int|
                    0 <= i < total - rest@.len() ==> (#[trigger] effects@[2 * i])
                        == Effect::FlushMemtable(flushes@[i].0, flushes@[i].1),
                forall|i: int|
                    0 <= i < total - rest@.len() ==> ((#[trigger] effects@[2 * i + 1]) matches
                        Effect::OpenCommitLog(nm, tag) && nm@ == flushes@[i].0@ && (
                    self.context.partitions@.len() > 0 ==> owns_partition(
                        self.context,
                        tag as int,
                    ))),
            decreases rest@.len(),
        {
            let ghost done = total - rest@.len();
            let ghost rest_pre = rest@;
            let (name, rows) = rest.remove(0);
            proof {
                assert(rest_pre[0] == flushes@[done as int]);
                assert(rest@ =~= flushes@.skip(done + 1));
            }
            let tag = if self.context.partitions.len() > 0 {
                let pick = crate::exttrust::random_below(self.context.partitions.len());
                let t = self.context.partitions[pick];
                proof {
                    assert(owns_partition(self.context, t as int)) by {
                        assert(self.context.partitions@[pick as int] == t as int);
                    }
                }
                t
            } else {
                0
            };
            let log_name = name.clone();
            effects.push(Effect::FlushMemtable(name, rows));
            effects.push(Effect::OpenCommitLog(log_name, tag));
            proof {
                assert(effects@[2 * done] == Effect::FlushMemtable(
                    flushes@[done as int].0,
                    flushes@[done as int].1,
                ));
                assert(effects@[2 * done + 1] matches Effect::OpenCommitLog(nm, tg) && nm@
                    == flushes@[done as int].0@ && (self.context.partitions@.len() > 0
                    ==> owns_partition(self.context, tg as int)));
            }
        }
        effects
    }

    /// Discards a transaction everywhere: the local buffer goes, and the
    /// abort is announced.
    pub fn abort_transaction(&mut self, transaction_id: u64) -> (r: (Response, Vec<Effect>))
        requires
            old(self).wf(),
        ensures
            final(self).wf(),
            final(self).context == old(self).context,
            final(self).tables == old(self).tables,
            r.0 == Response::Transaction(transaction_id),
            r.1@ == seq![Effect::Broadcast(ThreadMessage::TransactionAborted(transaction_id))],
            forall|t: int|
                0 <= t < final(self).manager.transactions@.len()
                    ==> (#[trigger] final(self).manager.transactions@[t]).id != transaction_id,
            forall|s: int|
                0 <= s < old(self).manager.transactions@.len()
                    && (#[trigger] old(self).manager.transactions@[s]).id != transaction_id
                    ==> exists|t: int|
                    0 <= t < final(self).manager.transactions@.len()
                        && final(self).manager.transactions@[t] == old(
                        self,
                    ).manager.transactions@[s],
    {
        self.manager.remove(transaction_id);
        proof {
            lemma_manager_subset_wf(old(self).manager, self.manager, self.context);
        }
        let mut effects: Vec<Effect> = Vec::new();
        effects.push(Effect::Broadcast(ThreadMessage::TransactionAborted(transaction_id)));
        proof {
            assert(effects@ =~= seq![
                Effect::Broadcast(ThreadMessage::TransactionAborted(transaction_id)),
            ]);
        }
        (Response::Transaction(transaction_id), effects)
    }

    /// Handles one message from a peer thread: opening and closing
    /// transaction buffers, a prepare vote, applying a commit, schema
    /// changes, or draining every memtable for shutdown.
    pub fn handle_thread_message(&mut self, message: ThreadMessage) -> (r: (
        Option<bool>,
        Vec<Effect>,
    ))
        requires
            old(self).wf(),
        ensures
            final(self).wf(),
            final(self).context == old(self).context,
            match message {
                ThreadMessage::TransactionBegun(id) => {
                    &&& r.0 is None
                    &&& r.1@.len() == 0
                    &&& final(self).tables == old(self).tables
                    &&& final(self).manager.transactions@.len() == old(
                        self,
                    ).manager.transactions@.len() + 1
                    &&& final(self).manager.transactions@.last().id == id
                    &&& final(self).manager.transactions@.last().spec_operations().len() == 0
                    &&& final(self).manager.transactions@.last().spec_affected().len() == 0
                    &&& forall|t: int|
                        0 <= t < old(self).manager.transactions@.len()
                            ==> #[trigger] final(self).manager.transactions@[t] == old(
                            self,
                        ).manager.transactions@[t]
                },
                ThreadMessage::TransactionPrepare(id) => {
                    &&& final(self).tables == old(self).tables
                    &&& final(self).manager == old(self).manager
                    &&& r.1@.len() == 0
                    &&& ((forall|t: int|
                        0 <= t < old(self).manager.transactions@.len()
                            ==> (#[trigger] old(self).manager.transactions@[t]).id != id)
                        ==> r.0 == Some(false))
                    &&& (forall|txi: int|
                        0 <= txi < old(self).manager.transactions@.len() && (#[trigger] old(
                            self,
                        ).manager.transactions@[txi]).id == id && (forall|t2: int|
                            0 <= t2 < txi ==> (#[trigger] old(self).manager.transactions@[t2]).id
                                != id) ==> r.0 == Some(
                            spec_can_commit(
                                old(self).manager.transactions@[txi],
                                old(self).tables@,
                            ),
                        ))
                },
                ThreadMessage::TransactionCommit(id) => {
                    &&& r.0 is None
                    &&& ((forall|t: int|
                        0 <= t < old(self).manager.transactions@.len()
                            ==> (#[trigger] old(self).manager.transactions@[t]).id != id)
                        ==> final(self).tables == old(self).tables && final(self).manager == old(
                        self,
                    ).manager && r.1@.len() == 0)
                    &&& (forall|txi: int|
                        0 <= txi < old(self).manager.transactions@.len() && (#[trigger] old(
                            self,
                        ).manager.transactions@[txi]).id == id && (forall|t2: int|
                            0 <= t2 < txi ==> (#[trigger] old(self).manager.transactions@[t2]).id
                                != id) ==> {
                            let txn = old(self).manager.transactions@[txi];
                            &&& final(self).manager.transactions@
                                == old(self).manager.transactions@.remove(txi)
                            &&& (r.1@.len() == 0 ==> (forall|ti: int, k: Seq<u8>|
                                0 <= ti < final(self).tables@.len()
                                    && !crate::transaction::writes_contain(
                                    txn,
                                    final(self).tables@[ti].table_schema.name@,
                                    k,
                                ) ==> #[trigger] crate::transaction::lookup_same(
                                    old(self).tables@[ti],
                                    final(self).tables@[ti],
                                    k,
                                )))
                            &&& (r.1@.len() == 0 ==> (forall|ti: int, j: int|
                                0 <= ti < final(self).tables@.len()
                                    && crate::transaction::sole_write(
                                    txn,
                                    j,
                                    final(self).tables@[ti].table_schema.name@,
                                ) ==> #[trigger] crate::transaction::write_applied(
                                    txn.spec_operations()[j].1,
                                    old(self).tables@[ti],
                                    final(self).tables@[ti],
                                )))
                            &&& (forall|ti: int, k: Seq<u8>|
                                0 <= ti < final(self).tables@.len()
                                    && !crate::transaction::writes_contain(
                                    txn,
                                    final(self).tables@[ti].table_schema.name@,
                                    k,
                                ) ==> #[trigger] crate::transaction::map_lookup_same(
                                    old(self).tables@[ti].memtable.view_map(),
                                    engine_effective_map(final(self).tables@[ti], r.1@),
                                    k,
                                ))
                            &&& (forall|ti: int, j: int|
                                0 <= ti < final(self).tables@.len()
                                    && crate::transaction::sole_write(
                                    txn,
                                    j,
                                    final(self).tables@[ti].table_schema.name@,
                                ) ==> #[trigger] crate::transaction::write_applied_map(
                                    txn.spec_operations()[j].1,
                                    final(self).tables@[ti].table_schema,
                                    old(self).tables@[ti].memtable.view_map(),
                                    engine_effective_map(final(self).tables@[ti], r.1@),
                                ))
                        })
                },
                ThreadMessage::TransactionAborted(id) => {
                    &&& r.0 is None
                    &&& r.1@.len() == 0
                    &&& final(self).tables == old(self).tables
                    &&& forall|t: int|
                        0 <= t < final(self).manager.transactions@.len()
                            ==> (#[trigger] final(self).manager.transactions@[t]).id != id
                },
                ThreadMessage::SyncModel(_) => r.0 is None,
                ThreadMessage::DropTable(_) => r.0 is None,
                ThreadMessage::Shutdown => {
                    &&& r.0 is None
                    &&& final(self).tables@.len() == old(self).tables@.len()
                    &&& r.1@.len() == old(self).tables@.len()
                    &&& forall|i: int|
                        0 <= i < final(self).tables@.len() ==> {
                            &&& (#[trigger] final(self).tables@[i]).memtable.view_map() == Map::<
                                Seq<u8>,
                                Row,
                            >::empty()
                            &&& final(self).tables@[i].table_schema == old(
                                self,
                            ).tables@[i].table_schema
                            &&& (r.1@[i] matches Effect::FlushMemtable(nm, rows) && nm@ == old(
                                self,
                            ).tables@[i].table_schema.name@ && crate::memtable::rows_map(rows@)
                                == old(self).tables@[i].memtable.view_map())
                        }
                },
            },
    {
        match message {
            ThreadMessage::TransactionBegun(id) => {
                let ghost mpre = self.manager.transactions@;
                self.manager.add(id);
                proof {
                    assert forall|t: int| 0 <= t < self.manager.transactions@.len() implies (
                    #[trigger] self.manager.transactions@[t]).wf() && txn_rows_owned(
                        self.manager.transactions@[t],
                        self.context,
                    ) by {
                        if t < mpre.len() {
                            assert(self.manager.transactions@[t] == mpre[t]);
                        }
                    }
                }
                (None, Vec::new())
            },
            ThreadMessage::TransactionPrepare(id) => {
                let vote = match self.manager.find(id) {
                    Some(txi) => {
                        let v = self.manager.transactions[txi].can_commit(&self.tables);
                        proof {
                            assert((#[trigger] self.manager.transactions@[txi as int]).id == id);
                            assert forall|txi2: int|
                                0 <= txi2 < self.manager.transactions@.len() && (
                            #[trigger] self.manager.transactions@[txi2]).id == id && (forall|
                                t2: int,
                            |
                                0 <= t2 < txi2 ==> (#[trigger] self.manager.transactions@[t2]).id
                                    != id) implies txi2 == txi by {
                                if txi2 < txi {
                                    assert(self.manager.transactions@[txi2].id != id);
                                }
                                if txi2 > txi {
                                    assert(self.manager.transactions@[txi as int].id != id);
                                }
                            }
                        }
                        v
                    },
                    None => false,
                };
                (Some(vote), Vec::new())
            },
            ThreadMessage::TransactionCommit(id) => {
                match self.manager.find(id) {
                    Some(txi) => {
                        let mut txn = self.manager.transactions.remove(txi);
                        let ghost txn_pre = txn;
                        proof {
                            lemma_manager_remove_wf(
                                old(self).manager,
                                self.manager,
                                txi as int,
                                self.context,
                            );
                        }
                        let flushes = txn.commit(&mut self.tables);
                        let ghost flushes_count = flushes@.len();
                        proof {
                            lemma_commit_keeps_rows_owned(
                                txn_pre,
                                old(self).tables@,
                                self.tables@,
                                self.context,
                            );
                        }
                        let ghost flushes_g = flushes@;
                        let effects = self.flush_effects(flushes);
                        proof {
                            assert forall|ti: int, k: Seq<u8>|
                                0 <= ti < self.tables@.len()
                                    && !crate::transaction::writes_contain(
                                    txn_pre,
                                    self.tables@[ti].table_schema.name@,
                                    k,
                                ) implies #[trigger] crate::transaction::map_lookup_same(
                                old(self).tables@[ti].memtable.view_map(),
                                engine_effective_map(self.tables@[ti], effects@),
                                k,
                            ) by {
                                let nm = self.tables@[ti].table_schema.name@;
                                lemma_effects_effective(flushes_g, effects@, nm);
                                assert(engine_effective_map(self.tables@[ti], effects@)
                                    == crate::transaction::commit_effective_map(
                                    self.tables@[ti],
                                    flushes_g,
                                ));
                            }
                            assert forall|ti: int, j: int|
                                0 <= ti < self.tables@.len() && crate::transaction::sole_write(
                                    txn_pre,
                                    j,
                                    self.tables@[ti].table_schema.name@,
                                ) implies #[trigger] crate::transaction::write_applied_map(
                                txn_pre.spec_operations()[j].1,
                                self.tables@[ti].table_schema,
                                old(self).tables@[ti].memtable.view_map(),
                                engine_effective_map(self.tables@[ti], effects@),
                            ) by {
                                let nm = self.tables@[ti].table_schema.name@;
                                lemma_effects_effective(flushes_g, effects@, nm);
                                assert(engine_effective_map(self.tables@[ti], effects@)
                                    == crate::transaction::commit_effective_map(
                                    self.tables@[ti],
                                    flushes_g,
                                ));
                            }
                            assert forall|txi2: int|
                                0 <= txi2 < old(self).manager.transactions@.len() && (
                            #[trigger] old(self).manager.transactions@[txi2]).id == id && (forall|
                                t2: int,
                            |
                                0 <= t2 < txi2 ==> (#[trigger] old(
                                    self,
                                ).manager.transactions@[t2]).id != id) implies txi2 == txi by {
                                if txi2 < txi {
                                    assert(old(self).manager.transactions@[txi2].id != id);
                                }
                                if txi2 > txi {
                                    assert(old(self).manager.transactions@[txi as int].id != id);
                                }
                            }
                            assert(txn_pre == old(self).manager.transactions@[txi as int]);
                            if effects@.len() == 0 {
                                assert(flushes_count == 0);
                            }
                        }
                        (None, effects)
                    },
                    None => (None, Vec::new()),
                }
            },
            ThreadMessage::TransactionAborted(id) => {
                self.manager.remove(id);
                proof {
                    lemma_manager_subset_wf(old(self).manager, self.manager, self.context);
                }
                (None, Vec::new())
            },
            ThreadMessage::SyncModel(schema_string) => {
                match self.sync_model(&schema_string) {
                    Ok(effects) => (None, effects),
                    Err(_) => (None, Vec::new()),
                }
            },
            ThreadMessage::DropTable(name) => {
                let _ = self.drop_table(&name);
                (None, Vec::new())
            },
            ThreadMessage::Shutdown => {
                let mut effects: Vec<Effect> = Vec::new();
                let n = self.tables.len();
                let mut i: usize = 0;
                while i < n
                    invariant
                        self.wf(),
                        self.context == old(self).context,
                        self.manager == old(self).manager,
                        n == self.tables@.len() == old(self).tables@.len(),
                        0 <= i <= n,
                        effects@.len() == i,
                        forall|t: int|
                            i <= t < n ==> #[trigger] self.tables@[t] == old(self).tables@[t],
                        forall|t: int|
                            0 <= t < i ==> {
                                &&& (#[trigger] self.tables@[t]).memtable.view_map() == Map::<
                                    Seq<u8>,
                                    Row,
                                >::empty()
                                &&& self.tables@[t].table_schema == old(
                                    self,
                                ).tables@[t].table_schema
                                &&& (effects@[t] matches Effect::FlushMemtable(nm, rows) && nm@
                                    == old(self).tables@[t].table_schema.name@
                                    && crate::memtable::rows_map(rows@) == old(
                                    self,
                                ).tables@[t].memtable.view_map())
                            },
                    decreases n - i,
                {
                    let ghost tpre = self.tables@;
                    let ghost epre = effects@;
                    let mut tbl = self.tables.remove(i);
                    let name = tbl.table_schema.name.clone();
                    let drained = tbl.drain_memtable();
                    self.tables.insert(i, tbl);
                    proof {
                        assert(self.tables@ =~= tpre.update(i as int, self.tables@[i as int]));
                        lemma_engine_table_update(tpre, self.tables@, i as int, self.context);
                    }
                    effects.push(Effect::FlushMemtable(name, drained));
                    proof {
                        assert(forall|t: int|
                            0 <= t < epre.len() ==> #[trigger] effects@[t] == epre[t]);
                        assert(effects@[i as int] == Effect::FlushMemtable(name, drained));
                    }
                    i = i + 1;
                }
                (None, effects)
            },
        }
    }

    /// Handles one decoded client command: keyed operations run against
    /// the local tables, transaction control and schema changes go to
    /// every thread, and a commit first waits on the other threads'
    /// prepare votes.
    pub fn handle_command(&mut self, command: Command, transaction_id: Option<u64>) -> (r: Result<
        CommandOutcome,
        HandlerError,
    >)
        requires
            old(self).wf(),
        ensures
            final(self).wf(),
            final(self).context == old(self).context,
            !(command is SyncModel) && !(command is DropTable) ==> final(self).tables@.len()
                == old(self).tables@.len() && (forall|i: int|
                0 <= i < final(self).tables@.len()
                    ==> (#[trigger] final(self).tables@[i]).table_schema
                    == old(self).tables@[i].table_schema),
            command matches Command::Single(_, _) ==> (r is Err ==> *final(self) == *old(self)),
            command is CommitTransaction || command is AbortTransaction || command
                is BeginTransaction ==> final(self).tables == old(self).tables,
            command is CommitTransaction ==> (transaction_id matches Some(id) ==> ((forall|i: int|
                0 <= i < old(self).manager.coordinated@.len() ==> old(
                    self,
                ).manager.coordinated@[i] != id) ==> ((r matches Err(e) && e matches
                HandlerError::Client(m) && m@ == commit_missing_text(id as int))
                && final(self).manager == old(self).manager))),
            (command matches Command::Single(op, name) && old(self).operation_admissible(
                op,
                name@,
                transaction_id,
            )) ==> r is Ok,
            match command {
                Command::Single(_, _) => r matches Ok(o) ==> (o matches CommandOutcome::Done(
                    resp,
                    _,
                ) && resp is Single),
                Command::GetMany(ops, _) => r matches Ok(o) ==> (o matches CommandOutcome::Done(
                    resp,
                    _,
                ) && (resp matches Response::GetMany(rs) && rs@.len() == ops@.len())),
                Command::Batch(ops, _) => r matches Ok(o) ==> (o matches CommandOutcome::Done(
                    resp,
                    _,
                ) && (resp matches Response::Batch(rs) && rs@.len() == ops@.len())),
                Command::BeginTransaction => r matches Ok(o) ==> (o matches CommandOutcome::Done(
                    resp,
                    effs,
                ) && (resp matches Response::Transaction(id) && {
                    &&& final(self).manager.transactions@.len() == old(
                        self,
                    ).manager.transactions@.len() + 1
                    &&& final(self).manager.transactions@.last().id == id
                    &&& final(self).manager.coordinated@ == old(self).manager.coordinated@.push(
                        id,
                    )
                    &&& effs@ =~= seq![
                        Effect::Broadcast(ThreadMessage::TransactionBegun(id)),
                    ]
                })),
                Command::CommitTransaction => {
                    &&& (transaction_id is None ==> r is Err)
                    &&& (transaction_id matches Some(id) ==> {
                        &&& ((exists|i: int|
                            0 <= i < old(self).manager.coordinated@.len() && old(
                                self,
                            ).manager.coordinated@[i] == id) ==> (r matches Ok(o) && o
                            == CommandOutcome::AwaitPrepare(id)))
                        &&& ((forall|i: int|
                            0 <= i < old(self).manager.coordinated@.len() ==> old(
                                self,
                            ).manager.coordinated@[i] != id) ==> r is Err)
                    })
                },
                Command::AbortTransaction => {
                    &&& (transaction_id is None ==> r is Err)
                    &&& (transaction_id matches Some(id) ==> {
                        &&& ((forall|i: int|
                            0 <= i < old(self).manager.coordinated@.len() ==> old(
                                self,
                            ).manager.coordinated@[i] != id) ==> r is Err)
                        &&& (r matches Ok(o) ==> (o matches CommandOutcome::Done(resp, effs) && {
                            &&& resp == Response::Transaction(id)
                            &&& effs@ =~= seq![
                                Effect::Broadcast(ThreadMessage::TransactionAborted(id)),
                            ]
                            &&& forall|t: int|
                                0 <= t < final(self).manager.transactions@.len()
                                    ==> (#[trigger] final(self).manager.transactions@[t]).id != id
                        }))
                    })
                },
                Command::SyncModel(text) => r matches Ok(o) ==> (o matches CommandOutcome::Done(
                    resp,
                    effs,
                ) && {
                    &&& resp is SyncModel
                    &&& final(self).tables@.len() == old(self).tables@.len() + 1
                    &&& effs@.len() >= 1
                    &&& (effs@.last() matches Effect::Broadcast(m) && (m matches
                        ThreadMessage::SyncModel(t) && t@ == text@))
                }),
                Command::DropTable(name) => r matches Ok(o) ==> (o matches CommandOutcome::Done(
                    resp,
                    effs,
                ) && {
                    &&& resp is DropTable
                    &&& final(self).tables@.len() == old(self).tables@.len() - 1
                    &&& (effs@ =~= seq![
                        Effect::Broadcast(ThreadMessage::DropTable(name)),
                    ])
                }),
            },
    {
        match command {
            Command::Single(operation, table_name) => {
                let (response, effects) = match self.execute_operation(
                    operation,
                    table_name,
                    transaction_id,
                ) {
                    Ok(pair) => pair,
                    Err(e) => {
                        return Err(e);
                    },
                };
                Ok(CommandOutcome::Done(Response::Single(response), effects))
            },
            Command::GetMany(operations, table_name) => {
                let (responses, effects) = match self.execute_operations(
                    operations,
                    table_name,
                    transaction_id,
                ) {
                    Ok(pair) => pair,
                    Err(e) => {
                        return Err(e);
                    },
                };
                Ok(CommandOutcome::Done(Response::GetMany(responses), effects))
            },
            Command::Batch(operations, table_name) => {
                let (responses, effects) = match self.execute_operations(
                    operations,
                    table_name,
                    transaction_id,
                ) {
                    Ok(pair) => pair,
                    Err(e) => {
                        return Err(e);
                    },
                };
                Ok(CommandOutcome::Done(Response::Batch(responses), effects))
            },
            Command::BeginTransaction => {
                let (id, effects) = self.begin_transaction();
                Ok(CommandOutcome::Done(Response::Transaction(id), effects))
            },
            Command::CommitTransaction => {
                match transaction_id {
                    Some(id) => {
                        if !self.manager.remove_coordinated(id) {
                            return Err(commit_missing_error(id));
                        }
                        Ok(CommandOutcome::AwaitPrepare(id))
                    },
                    None => Err(HandlerError::Client("Transaction id cannot be null".to_owned())),
                }
            },
            Command::AbortTransaction => {
                match transaction_id {
                    Some(id) => {
                        if !self.manager.remove_coordinated(id) {
                            return Err(
                                HandlerError::Client(
                                    "Cannot abort non existing transaction".to_owned(),
                                ),
                            );
                        }
                        let (response, effects) = self.abort_transaction(id);
                        Ok(CommandOutcome::Done(response, effects))
                    },
                    None => Err(HandlerError::Client("Transaction id cannot be null".to_owned())),
                }
            },
            Command::SyncModel(schema_string) => {
                let mut effects = match self.sync_model(&schema_string) {
                    Ok(effects) => effects,
                    Err(e) => {
                        return Err(HandlerError::Client(e));
                    },
                };
                effects.push(Effect::Broadcast(ThreadMessage::SyncModel(schema_string)));
                Ok(CommandOutcome::Done(Response::SyncModel, effects))
            },
            Command::DropTable(name) => {
                if let Err(e) = self.drop_table(&name) {
                    return Err(HandlerError::Client(e));
                }
                let mut effects: Vec<Effect> = Vec::new();
                effects.push(Effect::Broadcast(ThreadMessage::DropTable(name)));
                Ok(CommandOutcome::Done(Response::DropTable, effects))
            },
        }
    }

    /// Runs a batch of keyed operations in order, stopping at the first
    /// failure, as a fanned-out `GetMany` or `Batch` does.
    pub fn execute_operations(
        &mut self,
        operations: Vec<Operation>,
        table_name: String,
        transaction_id: Option<u64>,
    ) -> (r: Result<(Vec<OperationResponse>, Vec<Effect>), HandlerError>)
        requires
            old(self).wf(),
        ensures
            final(self).wf(),
            final(self).context == old(self).context,
            final(self).tables@.len() == old(self).tables@.len(),
            forall|i: int|
                0 <= i < final(self).tables@.len()
                    ==> (#[trigger] final(self).tables@[i]).table_schema
                    == old(self).tables@[i].table_schema,
            transaction_id is None ==> final(self).manager == old(self).manager,
            r matches Ok(pair) ==> pair.0@.len() == operations@.len(),
    {
        let total: usize = operations.len();
        let mut rest = operations;
        let mut responses: Vec<OperationResponse> = Vec::new();
        let mut effects: Vec<Effect> = Vec::new();
        while rest.len() > 0
            invariant
                self.wf(),
                self.context == old(self).context,
                self.tables@.len() == old(self).tables@.len(),
                forall|i: int|
                    0 <= i < self.tables@.len() ==> (#[trigger] self.tables@[i]).table_schema
                        == old(self).tables@[i].table_schema,
                transaction_id is None ==> self.manager == old(self).manager,
                responses@.len() + rest@.len() == total,
            decreases rest@.len(),
        {
            let op = rest.remove(0);
            let name = clone_string(&table_name);
            let (response, mut more) = match self.execute_operation(op, name, transaction_id) {
                Ok(pair) => pair,
                Err(e) => {
                    return Err(e);
                },
            };
            responses.push(response);
            effects.append(&mut more);
        }
        Ok((responses, effects))
    }
}

/// A manager that only lost buffers keeps its invariant.
proof fn lemma_manager_subset_wf(
    before: TransactionManager,
    after: TransactionManager,
    ctx: ThreadContext,
)
    requires
        manager_wf(before, ctx),
        txns_subset(after.transactions@, before.transactions@),
    ensures
        manager_wf(after, ctx),
{
    assert forall|t: int| 0 <= t < after.transactions@.len() implies (
    #[trigger] after.transactions@[t]).wf() && txn_rows_owned(after.transactions@[t], ctx) by {
        let s = choose|s: int|
            0 <= s < before.transactions@.len() && before.transactions@[s] == (
            #[trigger] after.transactions@[t]);
    }
}

/// Taking one buffer out keeps the invariant for the rest.
proof fn lemma_manager_remove_wf(
    before: TransactionManager,
    after: TransactionManager,
    txi: int,
    ctx: ThreadContext,
)
    requires
        manager_wf(before, ctx),
        0 <= txi < before.transactions@.len(),
        after.transactions@ == before.transactions@.remove(txi),
    ensures
        manager_wf(after, ctx),
{
    assert forall|t: int| 0 <= t < after.transactions@.len() implies (
    #[trigger] after.transactions@[t]).wf() && txn_rows_owned(after.transactions@[t], ctx) by {
        if t < txi {
            assert(after.transactions@[t] == before.transactions@[t]);
        } else {
            assert(after.transactions@[t] == before.transactions@[t + 1]);
        }
    }
}

/// After a commit of a transaction whose buffered rows lie on owned
/// partitions, every stored row still lies on an owned partition.
proof fn lemma_commit_keeps_rows_owned(
    txn: Transaction,
    before: Seq<Table>,
    after: Seq<Table>,
    ctx: ThreadContext,
)
    requires
        rows_owned(before, ctx),
        txn_rows_owned(txn, ctx),
        after.len() == before.len(),
        crate::transaction::commit_hash_provenance(txn, before, after),
    ensures
        rows_owned(after, ctx),
{
    assert forall|ti: int, k: Seq<u8>|
        0 <= ti < after.len() && (#[trigger] after[ti]).memtable.view_map().contains_key(k)
            implies owns_partition(
        ctx,
        spec_partition(
            str_bytes(#[trigger] after[ti].memtable.view_map()[k].hash_key@),
            ctx.total_number_of_partitions as int,
        ),
    ) by {
        assert(after[ti].memtable.view_map().contains_key(k));
        if before[ti].memtable.view_map().contains_key(k)
            && after[ti].memtable.view_map()[k].hash_key@
            == before[ti].memtable.view_map()[k].hash_key@ {
        } else {
            assert(crate::transaction::ops_has_insert_hash(
                txn,
                after[ti].memtable.view_map()[k].hash_key@,
            ));
            let j = choose|j: int|
                0 <= j < txn.spec_operations().len() && ((#[trigger] txn.spec_operations()[j]).1
                    matches crate::transaction::Operation::Insert(row) && row.hash_key@
                    == after[ti].memtable.view_map()[k].hash_key@);
        }
    }
}

/// Copies a string.
fn clone_string(s: &String) -> (r: String)
    ensures
        r == *s,
{
    s.clone()
}

/// Whether the effect list asks for a memtable flush.
pub open spec fn has_flush(effects: Seq<Effect>) -> bool {
    exists|i: int|
        0 <= i < effects.len() && (#[trigger] effects[i]) matches Effect::FlushMemtable(_, _)
}

/// The stored values are the requested values, one per column in schema
/// order, each taken from the first request entry under the column's
/// name.
pub open spec fn ordered_values_match(
    out: Seq<(String, Value)>,
    input: Seq<(String, Value)>,
    cols: Seq<(String, crate::schema::Column)>,
) -> bool {
    &&& out.len() == cols.len()
    &&& forall|i: int|
        0 <= i < cols.len() ==> {
            &&& (#[trigger] out[i]).0@ == cols[i].0@
            &&& crate::validation::spec_find_value(input, cols[i].0@) matches Some(j) && out[i].1
                == input[j].1
        }
}

/// Byte accounting of the values an insert will store, from the request
/// values and the schema columns alone.
pub open spec fn spec_ordered_footprint(
    input: Seq<(String, Value)>,
    cols: Seq<(String, crate::schema::Column)>,
) -> int
    decreases cols.len(),
{
    if cols.len() == 0 {
        0
    } else {
        spec_ordered_footprint(input, cols.drop_last()) + encode_utf8(cols.last().0@).len() + (
        match crate::validation::spec_find_value(input, cols.last().0@) {
            Some(j) => crate::memtable::spec_value_footprint(input[j].1),
            None => 0,
        }) + 64
    }
}

/// Byte accounting of the row an insert will store, from the request
/// alone.
pub open spec fn spec_insert_footprint(
    h: Seq<char>,
    sk: Value,
    input: Seq<(String, Value)>,
    cols: Seq<(String, crate::schema::Column)>,
) -> int {
    encode_utf8(h).len() + encode_utf8(spec_primary_key(h, sk)).len() + spec_ordered_footprint(
        input,
        cols,
    ) + 96
}

/// The memtable's byte estimate after one insert lands: unchanged on a
/// replaced key, grown by the row's clamped footprint on a fresh one.
pub open spec fn spec_post_insert_memory(
    m_old: Map<Seq<u8>, Row>,
    mem_old: int,
    k: Seq<u8>,
    fp: int,
) -> int {
    if m_old.contains_key(k) {
        mem_old
    } else {
        crate::memtable::clamp_usize(mem_old + crate::memtable::clamp_usize(fp))
    }
}

/// Schema-ordered values weigh exactly what the request's values weigh
/// under the schema's columns.
proof fn lemma_ordered_footprint(
    out: Seq<(String, Value)>,
    input: Seq<(String, Value)>,
    cols: Seq<(String, crate::schema::Column)>,
)
    requires
        ordered_values_match(out, input, cols),
    ensures
        crate::memtable::spec_values_footprint(out) == spec_ordered_footprint(input, cols),
    decreases cols.len(),
{
    if cols.len() == 0 {
        assert(out.len() == 0);
    } else {
        assert(ordered_values_match(out.drop_last(), input, cols.drop_last())) by {
            assert(forall|i: int|
                0 <= i < cols.len() - 1 ==> #[trigger] out.drop_last()[i] == out[i]);
            assert(forall|i: int|
                0 <= i < cols.len() - 1 ==> #[trigger] cols.drop_last()[i] == cols[i]);
        }
        lemma_ordered_footprint(out.drop_last(), input, cols.drop_last());
        assert(out.last() == out[cols.len() - 1]);
        assert(cols.last() == cols[cols.len() - 1]);
    }
}

/// The first flush effect carrying a table name, if any.
pub open spec fn spec_flush_effect_for(effects: Seq<Effect>, name: Seq<char>) -> Option<int>
    decreases effects.len(),
{
    if effects.len() == 0 {
        None
    } else if effects[0] matches Effect::FlushMemtable(nm, _) && nm@ == name {
        Some(0)
    } else {
        match spec_flush_effect_for(effects.drop_first(), name) {
            Some(i) => Some(i + 1),
            None => None,
        }
    }
}

/// Where a table's rows stand once an engine call returns: in its
/// memtable, or drained whole into its flush effect.
pub open spec fn engine_effective_map(after: Table, effects: Seq<Effect>) -> Map<Seq<u8>, Row> {
    match spec_flush_effect_for(effects, after.table_schema.name@) {
        Some(ei) => crate::memtable::rows_map(effects[ei]->FlushMemtable_1@),
        None => after.memtable.view_map(),
    }
}

/// A list without flush effects finds none.
proof fn lemma_no_flush_effects(effects: Seq<Effect>, name: Seq<char>)
    requires
        forall|e: int|
            0 <= e < effects.len() ==> !((#[trigger] effects[e]) matches Effect::FlushMemtable(
                _,
                _,
            )),
    ensures
        spec_flush_effect_for(effects, name) is None,
    decreases effects.len(),
{
    if effects.len() > 0 {
        assert(forall|e: int|
            0 <= e < effects.drop_first().len() ==> (#[trigger] effects.drop_first()[e])
                == effects[e + 1]);
        lemma_no_flush_effects(effects.drop_first(), name);
    }
}

/// Flush effects laid out pairwise from a drain list find the same
/// entry the drain list holds for each name.
proof fn lemma_effects_effective(
    flushes: Seq<(String, Vec<Row>)>,
    effects: Seq<Effect>,
    name: Seq<char>,
)
    requires
        effects.len() >= 2 * flushes.len(),
        forall|i: int|
            0 <= i < flushes.len() ==> (#[trigger] effects[2 * i]) == Effect::FlushMemtable(
                flushes[i].0,
                flushes[i].1,
            ),
        forall|i: int|
            0 <= i < flushes.len() ==> !((#[trigger] effects[2 * i + 1]) matches
                Effect::FlushMemtable(_, _)),
        forall|e: int|
            2 * flushes.len() <= e < effects.len() ==> !((#[trigger] effects[e]) matches
                Effect::FlushMemtable(_, _)),
    ensures
        crate::transaction::spec_flush_for(flushes, name) is None ==> spec_flush_effect_for(
            effects,
            name,
        ) is None,
        crate::transaction::spec_flush_for(flushes, name) matches Some(f) ==> 0 <= f
            < flushes.len() && spec_flush_effect_for(effects, name) == Some(2 * f) && effects[2
            * f] == Effect::FlushMemtable(flushes[f].0, flushes[f].1),
    decreases flushes.len(),
{
    if flushes.len() == 0 {
        lemma_no_flush_effects(effects, name);
    } else {
        assert(effects[2 * 0int] == Effect::FlushMemtable(flushes[0].0, flushes[0].1));
        assert(!(effects[2 * 0int + 1] matches Effect::FlushMemtable(_, _)));
        assert(effects[0] == Effect::FlushMemtable(flushes[0].0, flushes[0].1));
        assert(!(effects[1] matches Effect::FlushMemtable(_, _)));
        if flushes[0].0@ == name {
        } else {
            let e1 = effects.drop_first();
            let e2 = e1.drop_first();
            let f1 = flushes.drop_first();
            assert(forall|i: int| 0 <= i < e1.len() ==> (#[trigger] e1[i]) == effects[i + 1]);
            assert(forall|i: int| 0 <= i < e2.len() ==> (#[trigger] e2[i]) == effects[i + 2]);
            assert(forall|i: int| 0 <= i < f1.len() ==> (#[trigger] f1[i]) == flushes[i + 1]);
            assert forall|i: int| 0 <= i < f1.len() implies (#[trigger] e2[2 * i])
                == Effect::FlushMemtable(f1[i].0, f1[i].1) by {
                assert(effects[2 * (i + 1)] == Effect::FlushMemtable(
                    flushes[i + 1].0,
                    flushes[i + 1].1,
                ));
            }
            assert forall|i: int| 0 <= i < f1.len() implies !((#[trigger] e2[2 * i + 1]) matches
                Effect::FlushMemtable(_, _)) by {
                assert(!(effects[2 * (i + 1) + 1] matches Effect::FlushMemtable(_, _)));
            }
            assert forall|e: int| 2 * f1.len() <= e < e2.len() implies !((#[trigger] e2[e]) matches
                Effect::FlushMemtable(_, _)) by {
                assert(e2[e] == effects[e + 2]);
            }
            lemma_effects_effective(f1, e2, name);
            assert(!(effects[1] matches Effect::FlushMemtable(_, _)));
            assert(e1[0] == effects[1]);
            assert(spec_flush_effect_for(e1, name) == match spec_flush_effect_for(e2, name) {
                Some(i) => Some(i + 1),
                None => None,
            });
            match crate::transaction::spec_flush_for(f1, name) {
                Some(fp) => {
                    assert(crate::transaction::spec_flush_for(flushes, name) == Some(fp + 1));
                    assert(spec_flush_effect_for(e2, name) == Some(2 * fp));
                    assert(spec_flush_effect_for(effects, name) == Some(2 * fp + 2));
                    assert(e2[2 * fp] == effects[2 * fp + 2]);
                    assert(effects[2 * (fp + 1)] == Effect::FlushMemtable(
                        flushes[fp + 1].0,
                        flushes[fp + 1].1,
                    ));
                },
                None => {},
            }
        }
    }
}

/// The client error text for a commit of an unknown transaction id.
pub open spec fn commit_missing_text(id: int) -> Seq<char> {
    "Cannot commit non existing transaction with id '"@ + crate::numfmt::dec_str(id) + "'"@
}

/// The server error text for a commit the votes refused.
pub open spec fn commit_aborted_text(id: int) -> Seq<char> {
    "Transaction with id '"@ + crate::numfmt::dec_str(id) + "' failed to commit and got aborted"@
}

/// Builds the unknown-transaction commit error.
fn commit_missing_error(id: u64) -> (r: HandlerError)
    ensures
        r matches HandlerError::Client(m) && m@ == commit_missing_text(id as int),
{
    proof {
        reveal_strlit("Cannot commit non existing transaction with id '");
        reveal_strlit("'");
    }
    let mut msg = String::new();
    msg.append("Cannot commit non existing transaction with id '");
    let num = crate::numfmt::u64_to_dec_string(id);
    msg.append(num.as_str());
    msg.append("'");
    HandlerError::Client(msg)
}

/// Builds the refused-commit server error.
fn commit_aborted_error(id: u64) -> (r: HandlerError)
    ensures
        r matches HandlerError::Server(m) && m@ == commit_aborted_text(id as int),
{
    proof {
        reveal_strlit("Transaction with id '");
        reveal_strlit("' failed to commit and got aborted");
    }
    let mut msg = String::new();
    msg.append("Transaction with id '");
    let num = crate::numfmt::u64_to_dec_string(id);
    msg.append(num.as_str());
    msg.append("' failed to commit and got aborted");
    HandlerError::Server(msg)
}

/// The client error text for a table name no open table carries.
pub open spec fn table_not_found_text(name: Seq<char>) -> Seq<char> {
    "Table named '"@ + name + "' not found"@
}

/// Builds the unknown-table client error.
fn table_not_found_error(name: &String) -> (r: HandlerError)
    ensures
        r matches HandlerError::Client(m) && m@ == table_not_found_text(name@),
{
    proof {
        reveal_strlit("Table named '");
        reveal_strlit("' not found");
    }
    let mut msg = String::new();
    msg.append("Table named '");
    msg.append(name.as_str());
    msg.append("' not found");
    HandlerError::Client(msg)
}

/// What a landed insert leaves in a key-to-row state: the key present
/// and live with the requested values, the version one past the
/// replaced row's (or one, for a fresh key), and every other key as it
/// was.
pub open spec fn insert_applied_map(
    m_old: Map<Seq<u8>, Row>,
    m_new: Map<Seq<u8>, Row>,
    h: Seq<char>,
    sk: Value,
    input_vals: Seq<(String, Value)>,
    cols: Seq<(String, crate::schema::Column)>,
) -> bool {
    let k = str_bytes(spec_primary_key(h, sk));
    &&& m_new.dom() == m_old.dom().insert(k)
    &&& forall|k2: Seq<u8>|
        m_old.contains_key(k2) && k2 != k ==> #[trigger] m_new[k2] == m_old[k2]
    &&& m_new.contains_key(k)
    &&& !m_new[k].marked_for_deletion
    &&& ordered_values_match(m_new[k].values@, input_vals, cols)
    &&& (m_old.contains_key(k) ==> m_new[k].version == crate::memtable::bump_version(
        m_old[k].version,
    ))
    &&& (!m_old.contains_key(k) ==> m_new[k].version == 1)
    &&& (!m_old.contains_key(k) ==> m_new[k].hash_key@ == h && m_new[k].sort_key == sk
        && m_new[k].primary_key@ == spec_primary_key(h, sk))
    &&& (m_old.contains_key(k) ==> m_new[k].hash_key == m_old[k].hash_key && m_new[k].sort_key
        == m_old[k].sort_key && m_new[k].primary_key == m_old[k].primary_key)
}

/// What a landed delete leaves in a key-to-row state: a live row is
/// tombstoned in place, anything else stands untouched, and no other
/// key moves.
pub open spec fn delete_applied_map(
    m_old: Map<Seq<u8>, Row>,
    m_new: Map<Seq<u8>, Row>,
    k: Seq<u8>,
) -> bool {
    &&& m_new.dom() == m_old.dom()
    &&& forall|k2: Seq<u8>|
        m_old.contains_key(k2) && k2 != k ==> #[trigger] m_new[k2] == m_old[k2]
    &&& ((m_old.contains_key(k) && !m_old[k].marked_for_deletion) ==> m_new[k].marked_for_deletion
        && m_new[k].values == m_old[k].values && m_new[k].version == m_old[k].version)
    &&& (!(m_old.contains_key(k) && !m_old[k].marked_for_deletion) ==> (m_old.contains_key(k)
        ==> m_new[k] == m_old[k]))
}

/// Same row content, as a clone hands it back: equal fields, values
/// compared by their sequence.
pub open spec fn row_like(a: Row, b: Row) -> bool {
    &&& a.hash_key == b.hash_key
    &&& a.sort_key == b.sort_key
    &&& a.primary_key == b.primary_key
    &&& a.values@ == b.values@
    &&& a.version == b.version
    &&& a.timestamp == b.timestamp
    &&& a.marked_for_deletion == b.marked_for_deletion
}

/// Putting a well-formed transaction back where one was taken out keeps
/// the manager's invariant.
proof fn lemma_manager_reinsert(
    before: TransactionManager,
    after: TransactionManager,
    txi: int,
    ctx: ThreadContext,
)
    requires
        manager_wf(before, ctx),
        0 <= txi < before.transactions@.len(),
        after.transactions@.len() == before.transactions@.len(),
        forall|t: int|
            0 <= t < after.transactions@.len() && t != txi ==> #[trigger] after.transactions@[t]
                == before.transactions@[t],
        after.transactions@[txi].wf(),
        txn_rows_owned(after.transactions@[txi], ctx),
    ensures
        manager_wf(after, ctx),
{
}

/// Replacing one table with a well-formed successor of the same schema,
/// whose rows stay on owned partitions, keeps the engine's table
/// invariants.
proof fn lemma_engine_table_update(
    before: Seq<Table>,
    after: Seq<Table>,
    ti: int,
    ctx: ThreadContext,
)
    requires
        forall|i: int| 0 <= i < before.len() ==> (#[trigger] before[i]).wf(),
        tables_unique(before),
        rows_owned(before, ctx),
        0 <= ti < before.len(),
        after.len() == before.len(),
        forall|i: int| 0 <= i < after.len() && i != ti ==> #[trigger] after[i] == before[i],
        after[ti].wf(),
        after[ti].table_schema.name@ == before[ti].table_schema.name@,
        forall|k: Seq<u8>|
            #[trigger] after[ti].memtable.view_map().contains_key(k) ==> owns_partition(
                ctx,
                spec_partition(
                    str_bytes(after[ti].memtable.view_map()[k].hash_key@),
                    ctx.total_number_of_partitions as int,
                ),
            ),
    ensures
        forall|i: int| 0 <= i < after.len() ==> (#[trigger] after[i]).wf(),
        tables_unique(after),
        rows_owned(after, ctx),
{
    assert forall|i: int, j: int|
        0 <= i < j < after.len() implies (#[trigger] after[i]).table_schema.name@ != (
    #[trigger] after[j]).table_schema.name@ by {
        if i != ti && j != ti {
            assert(after[i] == before[i]);
            assert(after[j] == before[j]);
        } else if i == ti {
            assert(after[j] == before[j]);
        } else {
            assert(after[i] == before[i]);
        }
    }
    assert forall|ti2: int, k: Seq<u8>|
        0 <= ti2 < after.len() && (#[trigger] after[ti2]).memtable.view_map().contains_key(k)
            implies owns_partition(
        ctx,
        spec_partition(
            str_bytes(#[trigger] after[ti2].memtable.view_map()[k].hash_key@),
            ctx.total_number_of_partitions as int,
        ),
    ) by {
        if ti2 != ti {
            assert(after[ti2] == before[ti2]);
        }
    }
}

} // verus!
