//! MVCC transactions: a per-partition buffer of observed row versions
//! (the read set) and deferred operations (the write set), validated
//! against current row versions at commit time.
use crate::memtable::pk_bytes;
use crate::order::{str_bytes, strings_equal};
use crate::row::{spec_primary_key, Row};
use crate::table::{row_wf_for, Table};
use vstd::prelude::*;

verus! {

/// One deferred write of a transaction.
#[derive(Debug)]
pub enum Operation {
    Insert(Row),
    Delete(String),
}

/// The key a deferred write lands on.
pub open spec fn op_key(op: Operation) -> Seq<u8> {
    match op {
        Operation::Insert(row) => pk_bytes(row),
        Operation::Delete(pk) => str_bytes(pk@),
    }
}

/// One observed row: its table, primary key, and the version seen.
#[derive(Debug)]
pub struct AffectedRow {
    pub table: String,
    pub primary_key: String,
    pub version: u32,
}

/// A transaction's buffer: the versions it observed and the writes it
/// holds back until commit.
#[derive(Debug)]
pub struct Transaction {
    pub id: u64,
    pub affected_rows: Vec<AffectedRow>,
    pub operations: Vec<(String, Operation)>,
    pub committed: bool,
}

/// Whether the read set holds an entry for a key of a table.
pub open spec fn reads_contain(t: Transaction, table: Seq<char>, pk: Seq<u8>) -> bool {
    exists|i: int|
        0 <= i < t.spec_affected().len() && (#[trigger] t.spec_affected()[i]).table@ == table
            && str_bytes(t.spec_affected()[i].primary_key@) == pk
}

/// Whether the read set recorded exactly this version for a key of a
/// table.
pub open spec fn reads_contain_version(
    t: Transaction,
    table: Seq<char>,
    pk: Seq<u8>,
    version: u32,
) -> bool {
    exists|i: int|
        0 <= i < t.spec_affected().len() && (#[trigger] t.spec_affected()[i]).table@ == table
            && str_bytes(t.spec_affected()[i].primary_key@) == pk && t.spec_affected()[i].version
            == version
}

/// Two buffers with the same observation list agree on every recorded
/// read and version.
proof fn lemma_reads_same(a: Transaction, b: Transaction)
    requires
        a.affected_rows@ == b.affected_rows@,
    ensures
        forall|tn: Seq<char>, k: Seq<u8>|
            #[trigger] reads_contain(a, tn, k) == reads_contain(b, tn, k),
        forall|tn: Seq<char>, k: Seq<u8>, v: u32|
            #[trigger] reads_contain_version(a, tn, k, v) == reads_contain_version(b, tn, k, v),
{
    assert forall|tn: Seq<char>, k: Seq<u8>| #[trigger] reads_contain(a, tn, k) == reads_contain(
        b,
        tn,
        k,
    ) by {
        if reads_contain(a, tn, k) {
            let j = choose|j: int|
                0 <= j < a.spec_affected().len() && (#[trigger] a.spec_affected()[j]).table@ == tn
                    && str_bytes(a.spec_affected()[j].primary_key@) == k;
            assert(b.spec_affected()[j] == a.spec_affected()[j]);
        }
        if reads_contain(b, tn, k) {
            let j = choose|j: int|
                0 <= j < b.spec_affected().len() && (#[trigger] b.spec_affected()[j]).table@ == tn
                    && str_bytes(b.spec_affected()[j].primary_key@) == k;
            assert(a.spec_affected()[j] == b.spec_affected()[j]);
        }
    }
    assert forall|tn: Seq<char>, k: Seq<u8>, v: u32| #[trigger] reads_contain_version(a, tn, k, v)
        == reads_contain_version(b, tn, k, v) by {
        if reads_contain_version(a, tn, k, v) {
            let j = choose|j: int|
                0 <= j < a.spec_affected().len() && (#[trigger] a.spec_affected()[j]).table@ == tn
                    && str_bytes(a.spec_affected()[j].primary_key@) == k && a.spec_affected()[
                j].version == v;
            assert(b.spec_affected()[j] == a.spec_affected()[j]);
        }
        if reads_contain_version(b, tn, k, v) {
            let j = choose|j: int|
                0 <= j < b.spec_affected().len() && (#[trigger] b.spec_affected()[j]).table@ == tn
                    && str_bytes(b.spec_affected()[j].primary_key@) == k && b.spec_affected()[
                j].version == v;
            assert(a.spec_affected()[j] == b.spec_affected()[j]);
        }
    }
}

/// Whether the write set holds an operation on a key of a table.
pub open spec fn writes_contain(t: Transaction, table: Seq<char>, pk: Seq<u8>) -> bool {
    exists|i: int|
        0 <= i < t.spec_operations().len() && (#[trigger] t.spec_operations()[i]).0@ == table
            && op_key(t.spec_operations()[i].1) == pk
}

/// First table of that name, if any.
pub open spec fn spec_find_table(tables: Seq<Table>, name: Seq<char>) -> Option<int>
    decreases tables.len(),
{
    if tables.len() == 0 {
        None
    } else if tables[0].table_schema.name@ == name {
        Some(0int)
    } else {
        match spec_find_table(tables.drop_first(), name) {
            Some(i) => Some(i + 1),
            None => None,
        }
    }
}

/// What one observed entry demands of the present state: its table is
/// open, the key is present and live, and the version is still the one
/// observed.
pub open spec fn entry_still_current(e: AffectedRow, tables: Seq<Table>) -> bool {
    match spec_find_table(tables, e.table@) {
        Some(ti) => {
            let m = tables[ti].memtable.view_map();
            &&& m.contains_key(str_bytes(e.primary_key@))
            &&& !m[str_bytes(e.primary_key@)].marked_for_deletion
            &&& m[str_bytes(e.primary_key@)].version == e.version
        },
        None => false,
    }
}

/// A transaction may commit when every row it observed still carries the
/// version it saw.
pub open spec fn spec_can_commit(t: Transaction, tables: Seq<Table>) -> bool {
    forall|i: int|
        0 <= i < t.spec_affected().len() ==> entry_still_current(
            #[trigger] t.spec_affected()[i],
            tables,
        )
}

/// Buffered insert rows are shaped for a schema-independent key; each
/// holds its derived primary key.
pub open spec fn ops_wf(ops: Seq<(String, Operation)>) -> bool {
    forall|i: int|
        0 <= i < ops.len() ==> match (#[trigger] ops[i]).1 {
            Operation::Insert(row) => row.primary_key@ == spec_primary_key(
                row.hash_key@,
                row.sort_key,
            ),
            Operation::Delete(_) => true,
        }
}

impl Transaction {
    /// The observed entries.
    pub open spec fn spec_affected(&self) -> Seq<AffectedRow> {
        self.affected_rows@
    }

    /// The deferred writes, in order.
    pub open spec fn spec_operations(&self) -> Seq<(String, Operation)> {
        self.operations@
    }

    /// Buffered rows carry coherent primary keys.
    pub open spec fn wf(&self) -> bool {
        ops_wf(self.operations@)
    }

    /// A fresh, empty transaction buffer.
    pub fn new(transaction_id: u64) -> (r: Transaction)
        ensures
            r.id == transaction_id,
            r.spec_affected().len() == 0,
            r.spec_operations().len() == 0,
            r.wf(),
    {
        Transaction {
            id: transaction_id,
            affected_rows: Vec::new(),
            operations: Vec::new(),
            committed: false,
        }
    }

    /// Records the version of a row the transaction read or overwrote;
    /// the first observation of a key wins.
    pub fn add_affected_row(&mut self, row: &Row, table_name: String)
        requires
            old(self).wf(),
        ensures
            final(self).wf(),
            final(self).id == old(self).id,
            final(self).spec_operations() == old(self).spec_operations(),
            reads_contain(*final(self), table_name@, pk_bytes(*row)),
            (!reads_contain(*old(self), table_name@, pk_bytes(*row)) ==> reads_contain_version(
                *final(self),
                table_name@,
                pk_bytes(*row),
                row.version,
            )),
            forall|tn: Seq<char>, k: Seq<u8>, v: u32|
                reads_contain_version(*old(self), tn, k, v) ==> reads_contain_version(
                    *final(self),
                    tn,
                    k,
                    v,
                ),
            forall|tn: Seq<char>, k: Seq<u8>|
                reads_contain(*old(self), tn, k) ==> reads_contain(*final(self), tn, k),
            forall|tn: Seq<char>, k: Seq<u8>|
                reads_contain(*final(self), tn, k) ==> reads_contain(*old(self), tn, k) || (tn
                    == table_name@ && k == pk_bytes(*row)),
            reads_contain(*old(self), table_name@, pk_bytes(*row)) ==> *final(self) == *old(self),
            !reads_contain(*old(self), table_name@, pk_bytes(*row)) ==> final(self).spec_affected()
                == old(self).spec_affected().push(
                (AffectedRow { table: table_name, primary_key: row.primary_key, version: row.version }),
            ),
            final(self).committed == old(self).committed,
    {
        let n = self.affected_rows.len();
        let mut i: usize = 0;
        while i < n
            invariant
                n == self.affected_rows@.len(),
                0 <= i <= n,
                *self == *old(self),
                ops_wf(self.operations@),
                forall|j: int|
                    0 <= j < i ==> !((#[trigger] self.spec_affected()[j]).table@ == table_name@
                        && self.spec_affected()[j].primary_key@ == row.primary_key@),
            decreases n - i,
        {
            let same_table = strings_equal(self.affected_rows[i].table.as_str(), table_name.as_str());
            let same_key = strings_equal(
                self.affected_rows[i].primary_key.as_str(),
                row.primary_key.as_str(),
            );
            if same_table && same_key {
                proof {
                    assert(reads_contain(*self, table_name@, pk_bytes(*row))) by {
                        assert(self.spec_affected()[i as int].table@ == table_name@);
                        assert(str_bytes(self.spec_affected()[i as int].primary_key@) == pk_bytes(
                            *row,
                        ));
                    }
                }
                return ;
            }
            i = i + 1;
        }
        proof {
            assert(!reads_contain(*self, table_name@, pk_bytes(*row))) by {
                if reads_contain(*self, table_name@, pk_bytes(*row)) {
                    let j = choose|j: int|
                        0 <= j < self.spec_affected().len() && (#[trigger] self.spec_affected()[j]).table@
                            == table_name@ && str_bytes(self.spec_affected()[j].primary_key@)
                            == pk_bytes(*row);
                    vstd::utf8::encode_utf8_decode_utf8(self.spec_affected()[j].primary_key@);
                    vstd::utf8::encode_utf8_decode_utf8(row.primary_key@);
                }
            }
        }
        let entry = AffectedRow {
            table: table_name,
            primary_key: row.primary_key.clone(),
            version: row.version,
        };
        self.affected_rows.push(entry);
        proof {
            let m = self.affected_rows@.len() - 1;
            assert(self.spec_affected()[m] == entry);
            assert(self.spec_affected() =~= old(self).spec_affected().push(
                (AffectedRow {
                    table: table_name,
                    primary_key: row.primary_key,
                    version: row.version,
                }),
            )) by {
                assert(entry.primary_key == row.primary_key);
            }
            assert(reads_contain(*self, entry.table@, pk_bytes(*row))) by {
                assert(str_bytes(self.spec_affected()[m].primary_key@) == pk_bytes(*row));
            }
            assert(reads_contain_version(*self, entry.table@, pk_bytes(*row), row.version)) by {
                assert(str_bytes(self.spec_affected()[m].primary_key@) == pk_bytes(*row));
                assert(self.spec_affected()[m].version == row.version);
            }
            assert forall|tn: Seq<char>, k: Seq<u8>, v: u32|
                reads_contain_version(*old(self), tn, k, v) implies reads_contain_version(
                *self,
                tn,
                k,
                v,
            ) by {
                let j = choose|j: int|
                    0 <= j < old(self).spec_affected().len() && (#[trigger] old(
                        self,
                    ).spec_affected()[j]).table@ == tn && str_bytes(
                        old(self).spec_affected()[j].primary_key@,
                    ) == k && old(self).spec_affected()[j].version == v;
                assert(self.spec_affected()[j] == old(self).spec_affected()[j]);
            }
            assert forall|tn: Seq<char>, k: Seq<u8>|
                reads_contain(*old(self), tn, k) implies reads_contain(*self, tn, k) by {
                let j = choose|j: int|
                    0 <= j < old(self).spec_affected().len() && (#[trigger] old(
                        self,
                    ).spec_affected()[j]).table@ == tn && str_bytes(
                        old(self).spec_affected()[j].primary_key@,
                    ) == k;
                assert(self.spec_affected()[j] == old(self).spec_affected()[j]);
            }
            assert forall|tn: Seq<char>, k: Seq<u8>|
                reads_contain(*self, tn, k) implies reads_contain(*old(self), tn, k) || (tn
                == table_name@ && k == pk_bytes(*row)) by {
                let j = choose|j: int|
                    0 <= j < self.spec_affected().len() && (#[trigger] self.spec_affected()[j]).table@
                        == tn && str_bytes(self.spec_affected()[j].primary_key@) == k;
                if j < m {
                    assert(old(self).spec_affected()[j] == self.spec_affected()[j]);
                }
            }
        }
    }

    /// Observes a row a read returned, if any.
    pub fn get_for_update(&mut self, row: Option<&Row>, table_name: String)
        requires
            old(self).wf(),
        ensures
            final(self).wf(),
            final(self).id == old(self).id,
            final(self).spec_operations() == old(self).spec_operations(),
            row matches Some(r) ==> reads_contain(*final(self), table_name@, pk_bytes(*r)),
            (row matches Some(r) ==> (!reads_contain(*old(self), table_name@, pk_bytes(*r))
                ==> reads_contain_version(
                *final(self),
                table_name@,
                pk_bytes(*r),
                r.version,
            ))),
            forall|tn: Seq<char>, k: Seq<u8>, v: u32|
                reads_contain_version(*old(self), tn, k, v) ==> reads_contain_version(
                    *final(self),
                    tn,
                    k,
                    v,
                ),
            row is None ==> *final(self) == *old(self),
            (row matches Some(r) ==> (reads_contain(*old(self), table_name@, pk_bytes(*r))
                ==> *final(self) == *old(self))),
            (row matches Some(r) ==> (!reads_contain(*old(self), table_name@, pk_bytes(*r))
                ==> final(self).spec_affected() == old(self).spec_affected().push(
                (AffectedRow { table: table_name, primary_key: r.primary_key, version: r.version }),
            ))),
            final(self).committed == old(self).committed,
    {
        if let Some(row) = row {
            self.add_affected_row(row, table_name);
        }
    }

    /// Buffers an insert; if the key currently holds a row, its version
    /// is observed first.
    pub fn insert(&mut self, row: Row, table: &Table)
        requires
            old(self).wf(),
            table.wf(),
            row.primary_key@ == spec_primary_key(row.hash_key@, row.sort_key),
        ensures
            final(self).wf(),
            final(self).id == old(self).id,
            final(self).spec_operations() == old(self).spec_operations().push(
                (table.table_schema.name, Operation::Insert(row)),
            ),
            ({
                let k = pk_bytes(row);
                let m = table.memtable.view_map();
                m.contains_key(k) && !m[k].marked_for_deletion && !reads_contain(
                    *old(self),
                    table.table_schema.name@,
                    k,
                ) ==> reads_contain_version(
                    *final(self),
                    table.table_schema.name@,
                    k,
                    m[k].version,
                )
            }),
            forall|tn: Seq<char>, k: Seq<u8>, v: u32|
                reads_contain_version(*old(self), tn, k, v) ==> reads_contain_version(
                    *final(self),
                    tn,
                    k,
                    v,
                ),
            ({
                let k = pk_bytes(row);
                let m = table.memtable.view_map();
                let observed = m.contains_key(k) && !m[k].marked_for_deletion && !reads_contain(
                    *old(self),
                    table.table_schema.name@,
                    k,
                );
                &&& (observed ==> final(self).spec_affected() == old(self).spec_affected().push(
                    (AffectedRow {
                        table: table.table_schema.name,
                        primary_key: m[k].primary_key,
                        version: m[k].version,
                    }),
                ))
                &&& (!observed ==> final(self).spec_affected() == old(self).spec_affected())
            }),
            final(self).committed == old(self).committed,
    {
        let current = table.memtable.get(&row.primary_key);
        if let Some(replaced) = current {
            let name = table.table_schema.name.clone();
            self.add_affected_row(replaced, name);
        }
        let ghost tmid = *self;
        let name = table.table_schema.name.clone();
        let ghost oldops = self.operations@;
        self.operations.push((name, Operation::Insert(row)));
        proof {
            assert(self.operations@.drop_last() =~= oldops);
            assert(ops_wf(self.operations@)) by {
                assert(forall|i: int|
                    0 <= i < oldops.len() ==> #[trigger] self.operations@[i] == oldops[i]);
            }
            lemma_reads_same(tmid, *self);
        }
    }

    /// Buffers a delete when the key currently holds a live row, whose
    /// version is observed; reports whether a row was seen.
    pub fn delete(&mut self, primary_key: String, table: &Table) -> (r: bool)
        requires
            old(self).wf(),
            table.wf(),
        ensures
            final(self).wf(),
            final(self).id == old(self).id,
            r == (table.memtable.view_map().contains_key(str_bytes(primary_key@))
                && !table.memtable.view_map()[str_bytes(primary_key@)].marked_for_deletion),
            r ==> final(self).spec_operations() == old(self).spec_operations().push(
                (table.table_schema.name, Operation::Delete(primary_key)),
            ),
            (r ==> (!reads_contain(*old(self), table.table_schema.name@, str_bytes(primary_key@))
                ==> reads_contain_version(
                *final(self),
                table.table_schema.name@,
                str_bytes(primary_key@),
                table.memtable.view_map()[str_bytes(primary_key@)].version,
            ))),
            forall|tn: Seq<char>, k: Seq<u8>, v: u32|
                reads_contain_version(*old(self), tn, k, v) ==> reads_contain_version(
                    *final(self),
                    tn,
                    k,
                    v,
                ),
            !r ==> *final(self) == *old(self),
            ({
                let k = str_bytes(primary_key@);
                let m = table.memtable.view_map();
                let observed = r && !reads_contain(*old(self), table.table_schema.name@, k);
                &&& (observed ==> final(self).spec_affected() == old(self).spec_affected().push(
                    (AffectedRow {
                        table: table.table_schema.name,
                        primary_key: m[k].primary_key,
                        version: m[k].version,
                    }),
                ))
                &&& (!observed ==> final(self).spec_affected() == old(self).spec_affected())
            }),
            final(self).committed == old(self).committed,
    {
        let current = table.memtable.get(&primary_key);
        if let Some(deleted) = current {
            let name = table.table_schema.name.clone();
            self.add_affected_row(deleted, name);
            let ghost tmid = *self;
            let name2 = table.table_schema.name.clone();
            let ghost oldops = self.operations@;
            self.operations.push((name2, Operation::Delete(primary_key)));
            proof {
                assert(self.operations@.drop_last() =~= oldops);
                assert(ops_wf(self.operations@)) by {
                    assert(forall|i: int|
                        0 <= i < oldops.len() ==> #[trigger] self.operations@[i] == oldops[i]);
                }
                lemma_reads_same(tmid, *self);
            }
            true
        } else {
            false
        }
    }

    /// The version this transaction observed for a key, for callers that
    /// look the buffer over from outside.
    pub fn affected_version(&self, table_name: &str, primary_key: &str) -> (r: Option<u32>)
        ensures
            r matches Some(v) ==> reads_contain_version(
                *self,
                table_name@,
                str_bytes(primary_key@),
                v,
            ),
            r is None ==> !reads_contain(*self, table_name@, str_bytes(primary_key@)),
    {
        let n = self.affected_rows.len();
        let mut i: usize = 0;
        while i < n
            invariant
                n == self.affected_rows@.len(),
                0 <= i <= n,
                forall|j: int|
                    0 <= j < i ==> !((#[trigger] self.spec_affected()[j]).table@ == table_name@
                        && str_bytes(self.spec_affected()[j].primary_key@) == str_bytes(
                        primary_key@,
                    )),
            decreases n - i,
        {
            if strings_equal(self.affected_rows[i].table.as_str(), table_name) && strings_equal(
                self.affected_rows[i].primary_key.as_str(),
                primary_key,
            ) {
                proof {
                    assert(reads_contain_version(
                        *self,
                        table_name@,
                        str_bytes(primary_key@),
                        self.spec_affected()[i as int].version,
                    )) by {
                        assert((#[trigger] self.spec_affected()[i as int]).table@ == table_name@);
                        assert(str_bytes(self.spec_affected()[i as int].primary_key@) == str_bytes(
                            primary_key@,
                        ));
                    }
                }
                return Some(self.affected_rows[i].version);
            }
            proof {
                assert(!((#[trigger] self.spec_affected()[i as int]).table@ == table_name@
                    && str_bytes(self.spec_affected()[i as int].primary_key@) == str_bytes(
                    primary_key@,
                ))) by {
                    if str_bytes(self.spec_affected()[i as int].primary_key@) == str_bytes(
                        primary_key@,
                    ) {
                        vstd::utf8::encode_utf8_decode_utf8(
                            self.spec_affected()[i as int].primary_key@,
                        );
                        vstd::utf8::encode_utf8_decode_utf8(primary_key@);
                    }
                }
            }
            i = i + 1;
        }
        proof {
            if reads_contain(*self, table_name@, str_bytes(primary_key@)) {
                let j = choose|j: int|
                    0 <= j < self.spec_affected().len() && (#[trigger] self.spec_affected()[j]).table@
                        == table_name@ && str_bytes(self.spec_affected()[j].primary_key@)
                        == str_bytes(primary_key@);
            }
        }
        None
    }

    /// How many writes stand buffered.
    pub fn operations_len(&self) -> (r: usize)
        ensures
            r == self.spec_operations().len(),
    {
        self.operations.len()
    }

    /// How many observations stand recorded.
    pub fn affected_len(&self) -> (r: usize)
        ensures
            r == self.spec_affected().len(),
    {
        self.affected_rows.len()
    }

    /// The prepare vote: yes exactly when every observed row still
    /// stands live at the version observed.
    pub fn can_commit(&self, tables: &Vec<Table>) -> (r: bool)
        requires
            forall|i: int| 0 <= i < tables@.len() ==> (#[trigger] tables@[i]).wf(),
        ensures
            r == spec_can_commit(*self, tables@),
    {
        let n = self.affected_rows.len();
        let mut i: usize = 0;
        while i < n
            invariant
                forall|j: int| 0 <= j < tables@.len() ==> (#[trigger] tables@[j]).wf(),
                n == self.affected_rows@.len(),
                0 <= i <= n,
                forall|j: int|
                    0 <= j < i ==> entry_still_current(#[trigger] self.spec_affected()[j], tables@),
            decreases n - i,
        {
            let entry = &self.affected_rows[i];
            let ghost entryg = self.spec_affected()[i as int];
            match find_table(tables, entry.table.as_str()) {
                None => {
                    proof {
                        assert(!entry_still_current(entryg, tables@));
                    }
                    return false;
                },
                Some(ti) => {
                    match tables[ti].memtable.get(&entry.primary_key) {
                        None => {
                            proof {
                                assert(spec_find_table(tables@, entryg.table@) == Some(ti as int));
                                assert(!entry_still_current(entryg, tables@));
                            }
                            return false;
                        },
                        Some(row) => {
                            if row.version != entry.version {
                                proof {
                                    assert(spec_find_table(tables@, entryg.table@) == Some(
                                        ti as int,
                                    ));
                                    assert(!entry_still_current(entryg, tables@));
                                }
                                return false;
                            }
                            proof {
                                assert(spec_find_table(tables@, entryg.table@) == Some(ti as int));
                                assert(entry_still_current(entryg, tables@));
                            }
                        },
                    }
                },
            }
            i = i + 1;
        }
        true
    }

    /// Applies the buffered writes to the open tables, in order: inserts
    /// renew values and bump versions, deletes tombstone. A table that no
    /// longer exists, or a buffered row that no longer fits its table's
    /// schema, is passed over. As long as no memtable drains for a
    /// flush, keys no write lands on keep their stored rows.
    #[verifier::rlimit(100)]
    pub fn commit(&mut self, tables: &mut Vec<Table>) -> (flushes: Vec<(String, Vec<Row>)>)
        requires
            old(self).wf(),
            forall|i: int| 0 <= i < old(tables)@.len() ==> (#[trigger] old(tables)@[i]).wf(),
            crate::engine::tables_unique(old(tables)@),
        ensures
            forall|i: int| 0 <= i < final(tables)@.len() ==> (#[trigger] final(tables)@[i]).wf(),
            final(tables)@.len() == old(tables)@.len(),
            forall|i: int|
                0 <= i < final(tables)@.len() ==> (#[trigger] final(tables)@[i]).table_schema
                    == old(tables)@[i].table_schema,
            flushes@.len() == 0 ==> forall|ti: int, k: Seq<u8>|
                0 <= ti < final(tables)@.len() && !writes_contain(
                    *old(self),
                    final(tables)@[ti].table_schema.name@,
                    k,
                ) ==> #[trigger] lookup_same(old(tables)@[ti], final(tables)@[ti], k),
            flushes@.len() == 0 ==> forall|ti: int, j: int|
                0 <= ti < final(tables)@.len() && sole_write(
                    *old(self),
                    j,
                    final(tables)@[ti].table_schema.name@,
                ) ==> #[trigger] write_applied(
                    old(self).spec_operations()[j].1,
                    old(tables)@[ti],
                    final(tables)@[ti],
                ),
            commit_hash_provenance(*old(self), old(tables)@, final(tables)@),
            forall|fi: int|
                0 <= fi < flushes@.len() ==> spec_find_table(
                    final(tables)@,
                    (#[trigger] flushes@[fi]).0@,
                ) is Some,
            forall|f1: int, f2: int|
                0 <= f1 < f2 < flushes@.len() ==> (#[trigger] flushes@[f1]).0@ != (
                #[trigger] flushes@[f2]).0@,
            forall|fi: int|
                0 <= fi < flushes@.len() ==> {
                    let ti = spec_find_table(final(tables)@, (#[trigger] flushes@[fi]).0@)->Some_0;
                    final(tables)@[ti].memtable.view_map() == Map::<Seq<u8>, Row>::empty()
                        && final(tables)@[ti].memtable.memory_size == 0
                },
            forall|ti: int|
                0 <= ti < final(tables)@.len() && spec_flush_for(
                    flushes@,
                    (#[trigger] final(tables)@[ti]).table_schema.name@,
                ) is None ==> final(tables)@[ti].memtable.memory_size
                    <= crate::memtable::MEMTABLE_MAX_SIZE_MEGABYTES * crate::MEGABYTE,
            forall|ti: int, k: Seq<u8>|
                0 <= ti < final(tables)@.len() && !writes_contain(
                    *old(self),
                    final(tables)@[ti].table_schema.name@,
                    k,
                ) ==> #[trigger] map_lookup_same(
                    old(tables)@[ti].memtable.view_map(),
                    commit_effective_map(final(tables)@[ti], flushes@),
                    k,
                ),
            forall|ti: int, j: int|
                0 <= ti < final(tables)@.len() && sole_write(
                    *old(self),
                    j,
                    final(tables)@[ti].table_schema.name@,
                ) ==> #[trigger] write_applied_map(
                    old(self).spec_operations()[j].1,
                    final(tables)@[ti].table_schema,
                    old(tables)@[ti].memtable.view_map(),
                    commit_effective_map(final(tables)@[ti], flushes@),
                ),
            final(self).committed == true,
            final(self).id == old(self).id,
            final(self).spec_operations() == old(self).spec_operations(),
            final(self).spec_affected() == old(self).spec_affected(),
    {
        let n = self.operations.len();
        let mut j: usize = 0;
        while j < n
            invariant
                ops_wf(self.operations@),
                n == self.operations@.len(),
                0 <= j <= n,
                *self == *old(self),
                forall|i: int| 0 <= i < tables@.len() ==> (#[trigger] tables@[i]).wf(),
                tables@.len() == old(tables)@.len(),
                forall|i: int|
                    0 <= i < tables@.len() ==> (#[trigger] tables@[i]).table_schema == old(
                        tables,
                    )@[i].table_schema,
                crate::engine::tables_unique(tables@),
                forall|ti: int, k: Seq<u8>|
                    0 <= ti < tables@.len() && !writes_contain(
                        *old(self),
                        tables@[ti].table_schema.name@,
                        k,
                    ) ==> #[trigger] lookup_same(old(tables)@[ti], tables@[ti], k),
                forall|ti: int, jj: int|
                    0 <= ti < tables@.len() && sole_write(
                        *old(self),
                        jj,
                        tables@[ti].table_schema.name@,
                    ) && jj < j ==> #[trigger] write_applied(
                        old(self).spec_operations()[jj].1,
                        old(tables)@[ti],
                        tables@[ti],
                    ),
                forall|ti: int, jj: int|
                    0 <= ti < tables@.len() && sole_write(
                        *old(self),
                        jj,
                        tables@[ti].table_schema.name@,
                    ) && jj >= j ==> #[trigger] lookup_same(
                        old(tables)@[ti],
                        tables@[ti],
                        op_key(old(self).spec_operations()[jj].1),
                    ),
                commit_hash_provenance(*old(self), old(tables)@, tables@),
            decreases n - j,
        {
            let ghost tpre = tables@;
            let op_ref = &self.operations[j];
            let ghost written: Seq<u8> = op_key(self.operations@[j as int].1);
            match find_table(tables, op_ref.0.as_str()) {
                None => {
                    proof {
                        {
                            assert forall|ti2: int, jj: int|
                                0 <= ti2 < tables@.len() && sole_write(
                                    *old(self),
                                    jj,
                                    tables@[ti2].table_schema.name@,
                                ) && jj < j + 1 implies #[trigger] write_applied(
                                old(self).spec_operations()[jj].1,
                                old(tables)@[ti2],
                                tables@[ti2],
                            ) by {
                                if jj == j {
                                    assert((#[trigger] old(self).spec_operations()[j as int]).0@
                                        == op_ref.0@);
                                    assert(tables@[ti2].table_schema.name@ != op_ref.0@);
                                }
                            }
                        }
                    }
                },
                Some(ti) => {
                    let mut tbl = tables.remove(ti);
                    let ghost pre = tbl;
                    proof {
                        assert(writes_contain(*old(self), pre.table_schema.name@, written)) by {
                            assert((#[trigger] old(self).spec_operations()[j as int]).0@
                                == pre.table_schema.name@);
                        }
                    }
                    match &self.operations[j].1 {
                        Operation::Insert(row) => {
                            if row_fits(row, &tbl.table_schema) {
                                let row2 = row.clone();
                                proof {
                                    assert(row2.primary_key@ == spec_primary_key(
                                        row2.hash_key@,
                                        row2.sort_key,
                                    )) by {
                                        assert(self.operations@[j as int].1
                                            == Operation::Insert(*row));
                                    }
                                    assert(pk_bytes(row2) == written);
                                }
                                tbl.insert_row(row2, false);
                            }
                        },
                        Operation::Delete(pk) => {
                            proof {
                                assert(str_bytes(pk@) == written);
                            }
                            tbl.delete_row(pk, None);
                        },
                    }
                    tables.insert(ti, tbl);
                    proof {
                        assert(tables@ =~= tpre.update(ti as int, tables@[ti as int]));
                        assert(commit_hash_provenance(*old(self), old(tables)@, tables@)) by {
                            assert forall|ti2: int, k: Seq<u8>|
                                0 <= ti2 < tables@.len() && ti2 < old(tables)@.len()
                                && #[trigger] tables@[ti2].memtable.view_map().contains_key(
                                k,
                            ) implies (
                                old(tables)@[ti2].memtable.view_map().contains_key(k)
                                    && tables@[ti2].memtable.view_map()[k].hash_key@ == old(
                                    tables,
                                )@[ti2].memtable.view_map()[k].hash_key@) || ops_has_insert_hash(
                                *old(self),
                                tables@[ti2].memtable.view_map()[k].hash_key@,
                            ) by {
                                if ti2 != ti {
                                    assert(tables@[ti2] == tpre[ti2]);
                                } else {
                                    let cur_map = tables@[ti as int].memtable.view_map();
                                    let pre_map = pre.memtable.view_map();
                                    if pre_map.contains_key(k) && cur_map[k].hash_key@
                                        == pre_map[k].hash_key@ {
                                        assert(tpre[ti as int] == pre);
                                    } else {
                                        assert(ops_has_insert_hash(
                                            *old(self),
                                            cur_map[k].hash_key@,
                                        )) by {
                                            assert((#[trigger] old(self).spec_operations()[
                                            j as int]).1 matches Operation::Insert(r3) && r3.hash_key@
                                                == cur_map[k].hash_key@);
                                        }
                                    }
                                }
                            }
                        }
                    }
                    proof {
                        {
                            assert forall|ti2: int, k: Seq<u8>|
                                0 <= ti2 < tables@.len() && !writes_contain(
                                    *old(self),
                                    tables@[ti2].table_schema.name@,
                                    k,
                                ) implies #[trigger] lookup_same(
                                old(tables)@[ti2],
                                tables@[ti2],
                                k,
                            ) by {
                                if ti2 == ti {
                                    assert(k != written);
                                    assert(lookup_same(pre, tables@[ti as int], k));
                                    assert(lookup_same(old(tables)@[ti2], tpre[ti2], k));
                                } else {
                                    assert(tables@[ti2] == tpre[ti2]);
                                    assert(lookup_same(old(tables)@[ti2], tpre[ti2], k));
                                }
                            }
                            // pending sole writes stay untouched
                            assert forall|ti2: int, jj: int|
                                0 <= ti2 < tables@.len() && sole_write(
                                    *old(self),
                                    jj,
                                    tables@[ti2].table_schema.name@,
                                ) && jj >= j + 1 implies #[trigger] lookup_same(
                                old(tables)@[ti2],
                                tables@[ti2],
                                op_key(old(self).spec_operations()[jj].1),
                            ) by {
                                let kk = op_key(old(self).spec_operations()[jj].1);
                                assert(lookup_same(old(tables)@[ti2], tpre[ti2], kk));
                                if ti2 == ti {
                                    assert(kk != written) by {
                                        if kk == written {
                                            assert((#[trigger] old(self).spec_operations()[
                                            j as int]).0@ == tables@[ti2].table_schema.name@);
                                        }
                                    }
                                    assert(lookup_same(pre, tables@[ti as int], kk));
                                } else {
                                    assert(tables@[ti2] == tpre[ti2]);
                                }
                            }
                            // writes already applied stay applied; this one lands now
                            assert forall|ti2: int, jj: int|
                                0 <= ti2 < tables@.len() && sole_write(
                                    *old(self),
                                    jj,
                                    tables@[ti2].table_schema.name@,
                                ) && jj < j + 1 implies #[trigger] write_applied(
                                old(self).spec_operations()[jj].1,
                                old(tables)@[ti2],
                                tables@[ti2],
                            ) by {
                                let opjj = old(self).spec_operations()[jj].1;
                                let kk = op_key(opjj);
                                if jj < j {
                                    assert(write_applied(opjj, old(tables)@[ti2], tpre[ti2]));
                                    if ti2 == ti {
                                        assert(kk != written) by {
                                            if kk == written {
                                                assert((#[trigger] old(self).spec_operations()[
                                                j as int]).0@
                                                    == tables@[ti2].table_schema.name@);
                                            }
                                        }
                                        assert(lookup_same(pre, tables@[ti as int], kk));
                                    } else {
                                        assert(tables@[ti2] == tpre[ti2]);
                                    }
                                } else {
                                    // jj == j: the write this iteration performed
                                    assert(tables@[ti2].table_schema.name@ == old(
                                        self,
                                    ).spec_operations()[j as int].0@);
                                    assert((#[trigger] old(self).spec_operations()[j as int]).0@
                                        == pre.table_schema.name@);
                                    assert(ti2 == ti) by {
                                        if ti2 != ti {
                                            assert(tables@[ti2].table_schema.name@ != tables@[
                                            ti as int].table_schema.name@);
                                        }
                                    }
                                    assert(lookup_same(old(tables)@[ti as int], pre, kk));
                                }
                            }
                        }
                    }
                },
            }
            j = j + 1;
        }
        let ghost mid = tables@;
        let mut flushes: Vec<(String, Vec<Row>)> = Vec::new();
        let nt = tables.len();
        let mut ti: usize = 0;
        while ti < nt
            invariant
                nt == tables@.len() == mid.len(),
                mid.len() == old(tables)@.len(),
                0 <= ti <= nt,
                *self == *old(self),
                ops_wf(self.operations@),
                crate::engine::tables_unique(mid),
                forall|i: int| 0 <= i < mid.len() ==> (#[trigger] mid[i]).wf(),
                forall|i: int|
                    0 <= i < mid.len() ==> (#[trigger] mid[i]).table_schema == old(
                        tables,
                    )@[i].table_schema,
                forall|i: int| 0 <= i < tables@.len() ==> (#[trigger] tables@[i]).wf(),
                forall|i: int|
                    0 <= i < tables@.len() ==> (#[trigger] tables@[i]).table_schema
                        == mid[i].table_schema,
                forall|i: int| ti <= i < nt ==> #[trigger] tables@[i] == mid[i],
                forall|i: int|
                    0 <= i < ti ==> match spec_flush_for(
                        flushes@,
                        (#[trigger] mid[i]).table_schema.name@,
                    ) {
                        Some(f) => 0 <= f < flushes@.len() && crate::memtable::rows_map(
                            flushes@[f].1@,
                        ) == mid[i].memtable.view_map() && tables@[i].memtable.view_map()
                            == Map::<Seq<u8>, Row>::empty() && tables@[i].memtable.memory_size
                            == 0,
                        None => tables@[i] == mid[i] && mid[i].memtable.memory_size
                            <= crate::memtable::MEMTABLE_MAX_SIZE_MEGABYTES * crate::MEGABYTE,
                    },
                forall|f: int|
                    0 <= f < flushes@.len() ==> exists|i: int|
                        0 <= i < ti && (#[trigger] flushes@[f]).0 == mid[i].table_schema.name,
                forall|f1: int, f2: int|
                    0 <= f1 < f2 < flushes@.len() ==> (#[trigger] flushes@[f1]).0@ != (
                    #[trigger] flushes@[f2]).0@,
                forall|i: int, k: Seq<u8>|
                    0 <= i < mid.len() && !writes_contain(
                        *old(self),
                        mid[i].table_schema.name@,
                        k,
                    ) ==> #[trigger] lookup_same(old(tables)@[i], mid[i], k),
                forall|i: int, jj: int|
                    0 <= i < mid.len() && sole_write(
                        *old(self),
                        jj,
                        mid[i].table_schema.name@,
                    ) ==> #[trigger] write_applied(
                        old(self).spec_operations()[jj].1,
                        old(tables)@[i],
                        mid[i],
                    ),
                commit_hash_provenance(*old(self), old(tables)@, mid),
            decreases nt - ti,
        {
            let ghost flushes_pre = flushes@;
            let ghost tables_pre = tables@;
            proof {
                assert forall|nm: Seq<char>|
                    (forall|i: int|
                        0 <= i < ti ==> (#[trigger] mid[i]).table_schema.name@ != nm)
                    implies spec_flush_for(flushes@, nm) is None by {
                    assert forall|f: int| 0 <= f < flushes@.len() implies (
                    #[trigger] flushes@[f]).0@ != nm by {
                        let i0 = choose|i0: int|
                            0 <= i0 < ti && flushes@[f].0 == mid[i0].table_schema.name;
                    }
                    lemma_flush_for_absent(flushes@, nm);
                }
                assert(spec_flush_for(flushes@, mid[ti as int].table_schema.name@) is None) by {
                    assert(forall|i: int|
                        0 <= i < ti ==> (#[trigger] mid[i]).table_schema.name@ != mid[
                        ti as int].table_schema.name@);
                }
            }
            let full = tables[ti].memtable.max_size_reached();
            if full {
                let mut tbl = tables.remove(ti);
                let ghost pre = tbl;
                let name = tbl.table_schema.name.clone();
                let drained = tbl.drain_memtable();
                tables.insert(ti, tbl);
                flushes.push((name, drained));
                proof {
                    assert(tables@ =~= tables_pre.update(ti as int, tables@[ti as int]));
                    assert(pre == mid[ti as int]);
                    let e = (name, drained);
                    assert(flushes@ =~= flushes_pre.push(e));
                    assert(e.0@ == mid[ti as int].table_schema.name@);
                    assert(crate::memtable::rows_map(e.1@) == mid[ti as int].memtable.view_map());
                    assert forall|i: int|
                        0 <= i < ti + 1 implies match spec_flush_for(
                        flushes@,
                        (#[trigger] mid[i]).table_schema.name@,
                    ) {
                        Some(f) => 0 <= f < flushes@.len() && crate::memtable::rows_map(
                            flushes@[f].1@,
                        ) == mid[i].memtable.view_map() && tables@[i].memtable.view_map()
                            == Map::<Seq<u8>, Row>::empty() && tables@[i].memtable.memory_size
                            == 0,
                        None => tables@[i] == mid[i] && mid[i].memtable.memory_size
                            <= crate::memtable::MEMTABLE_MAX_SIZE_MEGABYTES * crate::MEGABYTE,
                    } by {
                        let nm = mid[i].table_schema.name@;
                        lemma_flush_for_push(flushes_pre, e, nm);
                        if i < ti {
                            assert(nm != e.0@);
                            assert(tables@[i] == tables_pre[i]);
                            match spec_flush_for(flushes_pre, nm) {
                                Some(f) => {
                                    assert(flushes@[f] == flushes_pre[f]);
                                },
                                None => {},
                            }
                        } else {
                            assert(spec_flush_for(flushes_pre, nm) is None);
                            assert(spec_flush_for(flushes@, nm) == Some(
                                flushes_pre.len() as int,
                            ));
                            assert(flushes@[flushes_pre.len() as int] == e);
                        }
                    }
                }
            } else {
                proof {
                    assert(tables@[ti as int].memtable.memory_size
                        <= crate::memtable::MEMTABLE_MAX_SIZE_MEGABYTES * crate::MEGABYTE);
                }
            }
            ti = ti + 1;
        }
        proof {
            // with no drain the tables stand exactly as the writes left them
            if flushes@.len() == 0 {
                assert(forall|i: int| 0 <= i < tables@.len() ==> #[trigger] tables@[i] == mid[i]);
            }
            // the per-table clauses over the effective (drained or kept) map
            assert forall|ti2: int, k: Seq<u8>|
                0 <= ti2 < tables@.len() && !writes_contain(
                    *old(self),
                    tables@[ti2].table_schema.name@,
                    k,
                ) implies #[trigger] map_lookup_same(
                old(tables)@[ti2].memtable.view_map(),
                commit_effective_map(tables@[ti2], flushes@),
                k,
            ) by {
                assert(lookup_same(old(tables)@[ti2], mid[ti2], k));
                assert(commit_effective_map(tables@[ti2], flushes@)
                    == mid[ti2].memtable.view_map());
            }
            assert forall|ti2: int, jj: int|
                0 <= ti2 < tables@.len() && sole_write(
                    *old(self),
                    jj,
                    tables@[ti2].table_schema.name@,
                ) implies #[trigger] write_applied_map(
                old(self).spec_operations()[jj].1,
                tables@[ti2].table_schema,
                old(tables)@[ti2].memtable.view_map(),
                commit_effective_map(tables@[ti2], flushes@),
            ) by {
                assert(write_applied(
                    old(self).spec_operations()[jj].1,
                    old(tables)@[ti2],
                    mid[ti2],
                ));
                assert(commit_effective_map(tables@[ti2], flushes@)
                    == mid[ti2].memtable.view_map());
                assert(old(tables)@[ti2].table_schema == tables@[ti2].table_schema);
            }
            // every flush entry names an open table, whose memtable drained
            assert forall|fi: int| 0 <= fi < flushes@.len() implies spec_find_table(
                tables@,
                (#[trigger] flushes@[fi]).0@,
            ) is Some by {
                let i0 = choose|i0: int|
                    0 <= i0 < nt && flushes@[fi].0 == mid[i0].table_schema.name;
                assert(tables@[i0].table_schema.name@ == flushes@[fi].0@);
                assert forall|jx: int|
                    0 <= jx < i0 implies (#[trigger] tables@[jx]).table_schema.name@ != flushes@[
                fi].0@ by {
                    assert(mid[jx].table_schema.name@ != mid[i0].table_schema.name@);
                }
                lemma_find_table_at(tables@, flushes@[fi].0@, i0);
            }
            assert forall|fi: int| 0 <= fi < flushes@.len() implies {
                let tix = spec_find_table(tables@, (#[trigger] flushes@[fi]).0@)->Some_0;
                tables@[tix].memtable.view_map() == Map::<Seq<u8>, Row>::empty()
                    && tables@[tix].memtable.memory_size == 0
            } by {
                let nm = flushes@[fi].0@;
                let tix = spec_find_table(tables@, nm)->Some_0;
                lemma_find_table_index(tables@, nm);
                assert(tables@[tix].table_schema.name@ == nm);
                lemma_flush_for_at(flushes@, fi);
                assert(spec_flush_for(flushes@, mid[tix].table_schema.name@) == Some(fi));
            }
            assert(commit_hash_provenance(*old(self), old(tables)@, tables@)) by {
                assert forall|ti2: int, k: Seq<u8>|
                    0 <= ti2 < tables@.len() && ti2 < old(tables)@.len()
                        && #[trigger] tables@[ti2].memtable.view_map().contains_key(k) implies (
                    old(tables)@[ti2].memtable.view_map().contains_key(k)
                        && tables@[ti2].memtable.view_map()[k].hash_key@ == old(
                        tables,
                    )@[ti2].memtable.view_map()[k].hash_key@) || ops_has_insert_hash(
                    *old(self),
                    tables@[ti2].memtable.view_map()[k].hash_key@,
                ) by {
                    match spec_flush_for(flushes@, mid[ti2].table_schema.name@) {
                        Some(_) => {},
                        None => {
                            assert(tables@[ti2] == mid[ti2]);
                        },
                    }
                }
            }
        }
        self.committed = true;
        flushes
    }
}

/// The write set holds an insert whose row carries this hash key.
pub open spec fn ops_has_insert_hash(t: Transaction, h: Seq<char>) -> bool {
    exists|j: int|
        0 <= j < t.spec_operations().len() && ((#[trigger] t.spec_operations()[j]).1 matches
            Operation::Insert(row) && row.hash_key@ == h)
}

/// Every stored row after a commit either kept the hash key it had, or
/// came in from one of the transaction's buffered inserts.
pub open spec fn commit_hash_provenance(
    t: Transaction,
    before: Seq<Table>,
    after: Seq<Table>,
) -> bool {
    forall|ti: int, k: Seq<u8>|
        0 <= ti < after.len() && ti < before.len() && #[trigger] after[ti].memtable.view_map().contains_key(
            k,
        ) ==> (before[ti].memtable.view_map().contains_key(k)
            && after[ti].memtable.view_map()[k].hash_key@
            == before[ti].memtable.view_map()[k].hash_key@) || ops_has_insert_hash(
            t,
            after[ti].memtable.view_map()[k].hash_key@,
        )
}

/// Operation `j` is the only buffered write on its key of that table.
pub open spec fn sole_write(t: Transaction, j: int, tn: Seq<char>) -> bool {
    &&& 0 <= j < t.spec_operations().len()
    &&& (#[trigger] t.spec_operations()[j]).0@ == tn
    &&& forall|j2: int|
        0 <= j2 < t.spec_operations().len() && j2 != j ==> !((#[trigger] t.spec_operations()[
        j2]).0@ == tn && op_key(t.spec_operations()[j2].1) == op_key(t.spec_operations()[j].1))
}

/// What one committed write leaves at its key: an admissible insert
/// lands live with its values and a bumped (or fresh) version; a delete
/// tombstones a live row and leaves anything else alone.
pub open spec fn write_applied(op: Operation, before: Table, after: Table) -> bool {
    write_applied_map(
        op,
        before.table_schema,
        before.memtable.view_map(),
        after.memtable.view_map(),
    )
}

/// Map-level form of `write_applied`, for states a drain handed out of
/// the memtable.
pub open spec fn write_applied_map(
    op: Operation,
    schema: crate::schema::TableSchema,
    m: Map<Seq<u8>, Row>,
    m2: Map<Seq<u8>, Row>,
) -> bool {
    match op {
        Operation::Insert(row) => (crate::codec::row_matches_schema(row, schema)
            && !row.marked_for_deletion) ==> {
            let k = pk_bytes(row);
            &&& m2.contains_key(k)
            &&& !m2[k].marked_for_deletion
            &&& m2[k].values@ == row.values@
            &&& (m.contains_key(k) ==> m2[k].version == crate::memtable::bump_version(
                m[k].version,
            ))
            &&& (!m.contains_key(k) ==> m2[k].version == row.version)
        },
        Operation::Delete(pk) => {
            let k = str_bytes(pk@);
            &&& ((m.contains_key(k) && !m[k].marked_for_deletion) ==> m2.contains_key(k)
                && m2[k].marked_for_deletion && m2[k].values == m[k].values && m2[k].version
                == m[k].version)
            &&& (!(m.contains_key(k) && !m[k].marked_for_deletion) ==> map_lookup_same(m, m2, k))
        },
    }
}

/// The stored row under a key is the same in both tables (or absent in
/// both).
pub open spec fn lookup_same(a: Table, b: Table, k: Seq<u8>) -> bool {
    map_lookup_same(a.memtable.view_map(), b.memtable.view_map(), k)
}

/// The stored row under a key is the same in both maps (or absent in
/// both).
pub open spec fn map_lookup_same(a: Map<Seq<u8>, Row>, b: Map<Seq<u8>, Row>, k: Seq<u8>) -> bool {
    &&& a.contains_key(k) == b.contains_key(k)
    &&& (a.contains_key(k) ==> a[k] == b[k])
}

/// The flush entry a commit recorded for a table name, if any; a commit
/// drains each table at most once, after every write is applied.
pub open spec fn spec_flush_for(flushes: Seq<(String, Vec<Row>)>, name: Seq<char>) -> Option<int>
    decreases flushes.len(),
{
    if flushes.len() == 0 {
        None
    } else if flushes[0].0@ == name {
        Some(0)
    } else {
        match spec_flush_for(flushes.drop_first(), name) {
            Some(i) => Some(i + 1),
            None => None,
        }
    }
}

/// Where a table's rows stand once a commit returns: still in its
/// memtable, or handed out whole in its flush entry.
pub open spec fn commit_effective_map(after: Table, flushes: Seq<(String, Vec<Row>)>) -> Map<
    Seq<u8>,
    Row,
> {
    match spec_flush_for(flushes, after.table_schema.name@) {
        Some(fi) => crate::memtable::rows_map(flushes[fi].1@),
        None => after.memtable.view_map(),
    }
}

/// A name none of the entries carry is not found.
proof fn lemma_flush_for_absent(flushes: Seq<(String, Vec<Row>)>, name: Seq<char>)
    requires
        forall|f: int| 0 <= f < flushes.len() ==> (#[trigger] flushes[f]).0@ != name,
    ensures
        spec_flush_for(flushes, name) is None,
    decreases flushes.len(),
{
    if flushes.len() > 0 {
        assert(forall|f: int|
            0 <= f < flushes.drop_first().len() ==> (#[trigger] flushes.drop_first()[f])
                == flushes[f + 1]);
        lemma_flush_for_absent(flushes.drop_first(), name);
    }
}

/// How one more entry moves the lookup: earlier entries shadow it, its
/// own name finds it, other names stay unfound.
proof fn lemma_flush_for_push(
    flushes: Seq<(String, Vec<Row>)>,
    e: (String, Vec<Row>),
    name: Seq<char>,
)
    ensures
        name == e.0@ && spec_flush_for(flushes, name) is None ==> spec_flush_for(
            flushes.push(e),
            name,
        ) == Some(flushes.len() as int),
        spec_flush_for(flushes, name) matches Some(i) ==> spec_flush_for(flushes.push(e), name)
            == Some(i),
        name != e.0@ && spec_flush_for(flushes, name) is None ==> spec_flush_for(
            flushes.push(e),
            name,
        ) is None,
    decreases flushes.len(),
{
    if flushes.len() == 0 {
        assert(flushes.push(e)[0] == e);
        assert(flushes.push(e).drop_first() =~= Seq::<(String, Vec<Row>)>::empty());
        assert(spec_flush_for(flushes.push(e).drop_first(), name) is None);
    } else {
        assert(flushes.push(e)[0] == flushes[0]);
        assert(flushes.push(e).drop_first() =~= flushes.drop_first().push(e));
        lemma_flush_for_push(flushes.drop_first(), e, name);
    }
}

/// With pairwise distinct names, each entry is found at its own index.
proof fn lemma_flush_for_at(flushes: Seq<(String, Vec<Row>)>, f: int)
    requires
        0 <= f < flushes.len(),
        forall|f1: int, f2: int|
            0 <= f1 < f2 < flushes.len() ==> (#[trigger] flushes[f1]).0@ != (
            #[trigger] flushes[f2]).0@,
    ensures
        spec_flush_for(flushes, flushes[f].0@) == Some(f),
    decreases flushes.len(),
{
    if f == 0 {
    } else {
        assert(flushes[0].0@ != flushes[f].0@);
        assert(forall|f1: int|
            0 <= f1 < flushes.drop_first().len() ==> (#[trigger] flushes.drop_first()[f1])
                == flushes[f1 + 1]);
        lemma_flush_for_at(flushes.drop_first(), f - 1);
    }
}

/// Table lookup goes by names alone, so two states with the same tables
/// in the same order resolve names alike.
proof fn lemma_find_table_same_names(a: Seq<Table>, b: Seq<Table>, name: Seq<char>)
    requires
        a.len() == b.len(),
        forall|i: int|
            0 <= i < a.len() ==> (#[trigger] a[i]).table_schema.name@
                == b[i].table_schema.name@,
    ensures
        spec_find_table(a, name) == spec_find_table(b, name),
    decreases a.len(),
{
    if a.len() > 0 {
        assert(a[0].table_schema.name@ == b[0].table_schema.name@);
        assert forall|i: int| 0 <= i < a.drop_first().len() implies (
        #[trigger] a.drop_first()[i]).table_schema.name@
            == b.drop_first()[i].table_schema.name@ by {
            assert(a.drop_first()[i] == a[i + 1]);
            assert(b.drop_first()[i] == b[i + 1]);
        }
        lemma_find_table_same_names(a.drop_first(), b.drop_first(), name);
    }
}

/// Law: a transaction that observed nothing votes yes in every state —
/// a write-only transaction is never blocked by validation.
pub proof fn lemma_no_reads_votes_yes(t: Transaction, tables: Seq<Table>)
    requires
        t.spec_affected().len() == 0,
    ensures
        spec_can_commit(t, tables),
{
}

/// Law: a transaction whose read set is untouched by another's writes
/// keeps its yes vote across the other's commit. With disjoint read and
/// write sets, two transactions both commit whatever the order, since
/// neither commit moves a row the other observed. (A commit that drains
/// a memtable for a flush removes rows bodily and is not covered: the
/// frame premise holds only while nothing drained.)
pub proof fn lemma_disjoint_commit_preserves_vote(
    t1: Transaction,
    t2: Transaction,
    before: Seq<Table>,
    after: Seq<Table>,
)
    requires
        spec_can_commit(t1, before),
        after.len() == before.len(),
        forall|i: int|
            0 <= i < after.len() ==> (#[trigger] after[i]).table_schema == before[
                i
            ].table_schema,
        forall|ti: int, k: Seq<u8>|
            0 <= ti < after.len() && !writes_contain(t2, after[ti].table_schema.name@, k)
                ==> #[trigger] lookup_same(before[ti], after[ti], k),
        forall|i: int|
            0 <= i < t1.spec_affected().len() ==> !writes_contain(
                t2,
                (#[trigger] t1.spec_affected()[i]).table@,
                str_bytes(t1.spec_affected()[i].primary_key@),
            ),
    ensures
        spec_can_commit(t1, after),
{
    assert forall|i: int| 0 <= i < t1.spec_affected().len() implies entry_still_current(
        #[trigger] t1.spec_affected()[i],
        after,
    ) by {
        let e = t1.spec_affected()[i];
        assert(entry_still_current(e, before));
        lemma_find_table_same_names(before, after, e.table@);
        let ti = spec_find_table(before, e.table@)->Some_0;
        lemma_find_table_index(after, e.table@);
        assert(0 <= ti < after.len());
        assert(after[ti].table_schema.name@ == e.table@);
        assert(!writes_contain(t2, after[ti].table_schema.name@, str_bytes(e.primary_key@)));
        assert(lookup_same(before[ti], after[ti], str_bytes(e.primary_key@)));
    }
}

/// A resolved table index carries the looked-up name.
proof fn lemma_find_table_index(tables: Seq<Table>, name: Seq<char>)
    ensures
        spec_find_table(tables, name) matches Some(ti) ==> 0 <= ti < tables.len()
            && tables[ti].table_schema.name@ == name,
    decreases tables.len(),
{
    if tables.len() > 0 {
        lemma_find_table_index(tables.drop_first(), name);
        if tables[0].table_schema.name@ != name {
            if spec_find_table(tables.drop_first(), name) is Some {
                let tj = spec_find_table(tables.drop_first(), name)->Some_0;
                assert(tables.drop_first()[tj] == tables[tj + 1]);
            }
        }
    }
}

/// Law: a commit is turned away once any row it observed has moved on —
/// in particular after another writer updated the row, which bumps its
/// version past the one observed (provided the counter was not already
/// at its ceiling).
/// Law: a recorded read blocks the commit once its row has moved on.
/// If the buffer recorded version `v` for a key and the stored row now
/// carries another version — or is tombstoned, or gone, or its table is
/// gone — the prepare vote is no.
pub proof fn lemma_recorded_read_blocks_commit(
    t: Transaction,
    tables: Seq<Table>,
    tn: Seq<char>,
    k: Seq<u8>,
    v: u32,
)
    requires
        reads_contain_version(t, tn, k, v),
        match spec_find_table(tables, tn) {
            Some(ti) => !(tables[ti].memtable.view_map().contains_key(k)
                && !tables[ti].memtable.view_map()[k].marked_for_deletion
                && tables[ti].memtable.view_map()[k].version == v),
            None => true,
        },
    ensures
        !spec_can_commit(t, tables),
{
    let i = choose|i: int|
        0 <= i < t.spec_affected().len() && (#[trigger] t.spec_affected()[i]).table@ == tn
            && str_bytes(t.spec_affected()[i].primary_key@) == k && t.spec_affected()[i].version
            == v;
    assert(!entry_still_current(t.spec_affected()[i], tables));
}

/// The stored row under a key is another writer's update of a row at the
/// version given, and the counter was not at its ceiling.
pub open spec fn stored_is_update_of(
    tables: Seq<Table>,
    ti: int,
    k: Seq<u8>,
    version: u32,
    incoming: Row,
    now: u128,
) -> bool {
    &&& 0 <= ti < tables.len()
    &&& tables[ti].memtable.view_map().contains_key(k)
    &&& exists|cur: Row|
        (#[trigger] crate::memtable::merged_update(cur, incoming, now))
            == tables[ti].memtable.view_map()[k] && cur.version == version && cur.version
            < u32::MAX
}

pub proof fn lemma_update_blocks_stale_commit(
    t1: Transaction,
    i: int,
    tables: Seq<Table>,
    ti: int,
    incoming: Row,
    now: u128,
)
    requires
        0 <= i < t1.spec_affected().len(),
        spec_find_table(tables, t1.spec_affected()[i].table@) == Some(ti),
        stored_is_update_of(
            tables,
            ti,
            str_bytes(t1.spec_affected()[i].primary_key@),
            t1.spec_affected()[i].version,
            incoming,
            now,
        ),
    ensures
        !spec_can_commit(t1, tables),
{
    let e = t1.spec_affected()[i];
    let m = tables[ti].memtable.view_map();
    let k = str_bytes(e.primary_key@);
    let cur = choose|cur: Row|
        (#[trigger] crate::memtable::merged_update(cur, incoming, now)) == m[k] && cur.version
            == e.version && cur.version < u32::MAX;
    assert(m[k].version == crate::memtable::bump_version(cur.version));
    assert(m[k].version != e.version);
    assert(!entry_still_current(e, tables));
}

/// Finds the table of a name.
pub fn find_table(tables: &Vec<Table>, name: &str) -> (r: Option<usize>)
    ensures
        r matches Some(i) ==> spec_find_table(tables@, name@) == Some(i as int) && i
            < tables@.len() && tables@[i as int].table_schema.name@ == name@,
        r is None ==> spec_find_table(tables@, name@) is None && forall|i: int|
            0 <= i < tables@.len() ==> (#[trigger] tables@[i]).table_schema.name@ != name@,
{
    let n = tables.len();
    let mut i: usize = 0;
    while i < n
        invariant
            n == tables@.len(),
            0 <= i <= n,
            forall|j: int| 0 <= j < i ==> (#[trigger] tables@[j]).table_schema.name@ != name@,
        decreases n - i,
    {
        if strings_equal(tables[i].table_schema.name.as_str(), name) {
            proof {
                lemma_find_table_at(tables@, name@, i as int);
            }
            return Some(i);
        }
        i = i + 1;
    }
    proof {
        lemma_find_table_none(tables@, name@);
    }
    None
}

/// `spec_find_table` points at the first match.
proof fn lemma_find_table_at(tables: Seq<Table>, name: Seq<char>, i: int)
    requires
        0 <= i < tables.len(),
        tables[i].table_schema.name@ == name,
        forall|j: int| 0 <= j < i ==> (#[trigger] tables[j]).table_schema.name@ != name,
    ensures
        spec_find_table(tables, name) == Some(i),
    decreases i,
{
    if i > 0 {
        assert(tables[0].table_schema.name@ != name);
        lemma_find_table_at(tables.drop_first(), name, i - 1);
    }
}

/// Without a match `spec_find_table` comes back empty.
proof fn lemma_find_table_none(tables: Seq<Table>, name: Seq<char>)
    requires
        forall|j: int| 0 <= j < tables.len() ==> (#[trigger] tables[j]).table_schema.name@ != name,
    ensures
        spec_find_table(tables, name) is None,
    decreases tables.len(),
{
    if tables.len() > 0 {
        assert forall|j: int| 0 <= j < tables.drop_first().len() implies (
        #[trigger] tables.drop_first()[j]).table_schema.name@ != name by {
            assert(tables.drop_first()[j] == tables[j + 1]);
        }
        lemma_find_table_none(tables.drop_first(), name);
    }
}

/// Whether a row is shaped for a schema: hash key within its budget, one
/// value per column under the column's name, each fitting its type.
pub fn row_fits(row: &Row, s: &crate::schema::TableSchema) -> (r: bool)
    requires
        crate::schema::wf_schema(*s),
    ensures
        r == crate::codec::row_matches_schema(*row, *s),
{
    if crate::validation::str_byte_len(row.hash_key.as_str()) > crate::HASH_KEY_BYTE_SIZE {
        return false;
    }
    if !crate::validation::check_fits(&row.sort_key, &s.sort_key_type) {
        return false;
    }
    let n = s.columns.len();
    if row.values.len() != n {
        return false;
    }
    let mut i: usize = 0;
    while i < n
        invariant
            crate::schema::wf_schema(*s),
            n == s.columns@.len(),
            row.values@.len() == n,
            0 <= i <= n,
            forall|j: int|
                0 <= j < i ==> (#[trigger] row.values@[j]).0@ == s.columns@[j].0@
                    && crate::codec::value_fits(row.values@[j].1, s.columns@[j].1.column_type),
        decreases n - i,
    {
        if !strings_equal(row.values[i].0.as_str(), s.columns[i].0.as_str()) {
            return false;
        }
        if !crate::validation::check_fits(&row.values[i].1, &s.columns[i].1.column_type) {
            return false;
        }
        i = i + 1;
    }
    true
}

} // verus!
