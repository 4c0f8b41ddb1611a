//! One open table: its schema bound to its live memtable. The commit-log
//! file itself lives with the process around the engine; the table keeps
//! the log's naming tag so replay can tell whose log is whose.
use crate::codec::row_matches_schema;
use crate::memtable::{merged_replay, merged_update, pk_bytes, rows_map, Memtable};
use crate::row::{spec_primary_key, Row};
use crate::schema::{wf_schema, TableSchema};
use vstd::prelude::*;

verus! {

/// A schema with its in-memory write buffer and the partition tag its
/// live commit log is named by.
pub struct Table {
    pub memtable: Memtable,
    pub table_schema: TableSchema,
    pub commit_log_partition: usize,
}

/// A row the table may hold: shaped for the schema, with the primary key
/// derived from its hash and sort keys.
pub open spec fn row_wf_for(row: Row, s: TableSchema) -> bool {
    row_matches_schema(row, s) && row.primary_key@ == spec_primary_key(row.hash_key@, row.sort_key)
}

impl Table {
    /// A sorted memtable under a well-formed schema, holding only rows
    /// shaped for that schema.
    pub open spec fn wf(&self) -> bool {
        &&& self.memtable.wf()
        &&& wf_schema(self.table_schema)
        &&& forall|k: Seq<u8>|
            self.memtable.view_map().contains_key(k) ==> row_wf_for(
                #[trigger] self.memtable.view_map()[k],
                self.table_schema,
            )
    }

    /// A fresh table over a schema: an empty memtable and the commit
    /// log's naming tag.
    pub fn new(memtable: Memtable, table_schema: TableSchema, commit_log_partition: usize) -> (r:
        Table)
        requires
            memtable.wf(),
            wf_schema(table_schema),
            forall|k: Seq<u8>|
                memtable.view_map().contains_key(k) ==> row_wf_for(
                    #[trigger] memtable.view_map()[k],
                    table_schema,
                ),
        ensures
            r.wf(),
            r.memtable == memtable,
            r.table_schema == table_schema,
            r.commit_log_partition == commit_log_partition,
    {
        Table { memtable, table_schema, commit_log_partition }
    }

    /// Upserts a row shaped for this table's schema; the memtable's
    /// last-writer-wins contract carries over, and the table stays
    /// well-formed.
    pub fn insert_row(&mut self, row: Row, from_commit_log: bool)
        requires
            old(self).wf(),
            row_wf_for(row, old(self).table_schema),
        ensures
            final(self).wf(),
            final(self).table_schema == old(self).table_schema,
            final(self).commit_log_partition == old(self).commit_log_partition,
            final(self).memtable.view_map().dom() == old(self).memtable.view_map().dom().insert(
                pk_bytes(row),
            ),
            forall|k: Seq<u8>|
                old(self).memtable.view_map().contains_key(k) && k != pk_bytes(row)
                    ==> final(self).memtable.view_map()[k] == old(self).memtable.view_map()[k],
            (!old(self).memtable.view_map().contains_key(pk_bytes(row))
                ==> final(self).memtable.view_map()[pk_bytes(row)] == row),
            (old(self).memtable.view_map().contains_key(pk_bytes(row)) && from_commit_log
                ==> final(self).memtable.view_map()[pk_bytes(row)] == merged_replay(
                old(self).memtable.view_map()[pk_bytes(row)],
                row,
            )),
            (old(self).memtable.view_map().contains_key(pk_bytes(row)) && !from_commit_log
                ==> exists|now: u128|
                final(self).memtable.view_map()[pk_bytes(row)] == merged_update(
                    old(self).memtable.view_map()[pk_bytes(row)],
                    row,
                    now,
                )),
            (!old(self).memtable.view_map().contains_key(pk_bytes(row))
                ==> final(self).memtable.memory_size == crate::memtable::clamp_usize(
                old(self).memtable.memory_size + crate::memtable::clamp_usize(
                    crate::memtable::spec_row_footprint(row),
                ),
            )),
            (old(self).memtable.view_map().contains_key(pk_bytes(row))
                ==> final(self).memtable.memory_size == old(self).memtable.memory_size),
    {
        let ghost oldmap = self.memtable.view_map();
        let ghost rowg = row;
        self.memtable.insert(row, from_commit_log);
        proof {
            assert forall|k: Seq<u8>| self.memtable.view_map().contains_key(k) implies row_wf_for(
                #[trigger] self.memtable.view_map()[k],
                self.table_schema,
            ) by {
                if k == pk_bytes(rowg) {
                    if oldmap.contains_key(k) {
                        let cur = oldmap[k];
                        assert(row_wf_for(cur, self.table_schema));
                        if from_commit_log {
                            assert(row_wf_for(merged_replay(cur, rowg), self.table_schema));
                        } else {
                            let now = choose|now: u128|
                                self.memtable.view_map()[pk_bytes(rowg)] == merged_update(
                                    cur,
                                    rowg,
                                    now,
                                );
                            assert(row_wf_for(merged_update(cur, rowg, now), self.table_schema));
                        }
                    }
                } else {
                    assert(self.memtable.view_map()[k] == oldmap[k]);
                }
            }
        }
    }

    /// Tombstones a key; the memtable's contract carries over and the
    /// table stays well-formed.
    pub fn delete_row(&mut self, primary_key: &String, timestamp: Option<u128>) -> (r: bool)
        requires
            old(self).wf(),
        ensures
            final(self).wf(),
            final(self).table_schema == old(self).table_schema,
            final(self).commit_log_partition == old(self).commit_log_partition,
            final(self).memtable.view_map().dom() == old(self).memtable.view_map().dom(),
            forall|k: Seq<u8>|
                old(self).memtable.view_map().contains_key(k) && k != crate::order::str_bytes(
                    primary_key@,
                ) ==> final(self).memtable.view_map()[k] == old(self).memtable.view_map()[k],
            (!old(self).memtable.view_map().contains_key(crate::order::str_bytes(primary_key@))
                ==> r == false && final(self).memtable.view_map() == old(
                self,
            ).memtable.view_map()),
            (old(self).memtable.view_map().contains_key(crate::order::str_bytes(primary_key@))
                ==> {
                let cur = old(self).memtable.view_map()[crate::order::str_bytes(primary_key@)];
                match timestamp {
                    Some(ts) => {
                        &&& (cur.timestamp >= ts ==> r == false && final(self).memtable.view_map()
                            == old(self).memtable.view_map())
                        &&& (cur.timestamp < ts ==> r == true
                            && final(self).memtable.view_map()[crate::order::str_bytes(
                            primary_key@,
                        )] == Row { timestamp: ts, marked_for_deletion: true, ..cur })
                    },
                    None => {
                        &&& (cur.marked_for_deletion ==> r == false
                            && final(self).memtable.view_map() == old(self).memtable.view_map())
                        &&& (!cur.marked_for_deletion ==> r == true && exists|now: u128|
                            final(self).memtable.view_map()[crate::order::str_bytes(primary_key@)]
                                == (Row { timestamp: now, marked_for_deletion: true, ..cur }))
                    },
                }
            }),
    {
        let ghost oldmap = self.memtable.view_map();
        let r = self.memtable.delete(primary_key, timestamp);
        proof {
            assert forall|k: Seq<u8>| self.memtable.view_map().contains_key(k) implies row_wf_for(
                #[trigger] self.memtable.view_map()[k],
                self.table_schema,
            ) by {
                assert(oldmap.contains_key(k));
                if k != crate::order::str_bytes(primary_key@) {
                    assert(self.memtable.view_map()[k] == oldmap[k]);
                } else {
                    let cur = oldmap[k];
                    assert(row_wf_for(cur, self.table_schema));
                    if self.memtable.view_map()[k] != cur {
                        assert(self.memtable.view_map()[k].values == cur.values);
                        assert(self.memtable.view_map()[k].hash_key == cur.hash_key);
                        assert(self.memtable.view_map()[k].sort_key == cur.sort_key);
                        assert(self.memtable.view_map()[k].primary_key == cur.primary_key);
                    }
                }
            }
        }
        r
    }

    /// Swaps in an empty memtable and hands the drained rows out in
    /// primary-key order, for a flush to a segment.
    pub fn drain_memtable(&mut self) -> (r: Vec<Row>)
        requires
            old(self).wf(),
        ensures
            final(self).wf(),
            final(self).table_schema == old(self).table_schema,
            final(self).commit_log_partition == old(self).commit_log_partition,
            final(self).memtable.view_map() == Map::<Seq<u8>, Row>::empty(),
            final(self).memtable.memory_size == 0,
            r@ == old(self).memtable.spec_rows(),
            crate::memtable::rows_sorted(r@),
            rows_map(r@) == old(self).memtable.view_map(),
            forall|i: int| 0 <= i < r@.len() ==> row_wf_for(#[trigger] r@[i], old(self).table_schema),
    {
        let mut fresh = Memtable::default();
        core::mem::swap(&mut self.memtable, &mut fresh);
        let rows = fresh.to_sstable_rows();
        proof {
            crate::memtable::lemma_rows_map_full(rows@);
            assert(rows_map(rows@) == old(self).memtable.view_map());
            assert forall|i: int| 0 <= i < rows@.len() implies row_wf_for(
                #[trigger] rows@[i],
                old(self).table_schema,
            ) by {
                assert(rows_map(rows@).contains_key(pk_bytes(rows@[i])));
                assert(rows_map(rows@)[pk_bytes(rows@[i])] == rows@[i]);
                assert(old(self).memtable.view_map().contains_key(pk_bytes(rows@[i])));
                assert(row_wf_for(
                    old(self).memtable.view_map()[pk_bytes(rows@[i])],
                    old(self).table_schema,
                ));
            }
        }
        rows
    }
}

} // verus!
