//! The memtable: the ordered in-memory index of one table, mapping
//! primary keys to rows with last-writer-wins semantics. Rows are held
//! sorted by the byte form of their primary keys; point operations
//! binary-search that order.
use crate::order::{bytes_lt, compare_bytes, str_bytes, Rank};
use crate::row::Row;
use crate::value::Value;
use crate::MEGABYTE;
use vstd::prelude::*;
use vstd::string::StrSliceExecFns;
use vstd::string::StringSliceAdditionalSpecFns;

verus! {

/// Byte cap of one memtable; above it the table is flushed.
pub const MEMTABLE_MAX_SIZE_MEGABYTES: usize = 16;

/// The ordering key of a row: the UTF-8 bytes of its primary key.
pub open spec fn pk_bytes(r: Row) -> Seq<u8> {
    str_bytes(r.primary_key@)
}

/// Rows strictly ascending by primary-key bytes.
pub open spec fn rows_sorted(rows: Seq<Row>) -> bool {
    forall|i: int, j: int|
        0 <= i < j < rows.len() ==> bytes_lt(pk_bytes(#[trigger] rows[i]), pk_bytes(
            #[trigger] rows[j],
        ))
}

/// The key-to-row association a row list holds; a later entry for the
/// same key wins.
pub open spec fn rows_map(rows: Seq<Row>) -> Map<Seq<u8>, Row>
    decreases rows.len(),
{
    if rows.len() == 0 {
        Map::empty()
    } else {
        rows_map(rows.drop_last()).insert(pk_bytes(rows.last()), rows.last())
    }
}

/// The next version of a row after an update; the counter holds at its
/// ceiling rather than wrap.
pub open spec fn bump_version(v: u32) -> u32 {
    if v < u32::MAX {
        (v + 1) as u32
    } else {
        v
    }
}

/// Of two records for one key, the one with the strictly greater
/// timestamp; on a tie the stored one stands. The whole record wins,
/// tombstone flag included.
pub open spec fn newest_of(cur: Row, incoming: Row) -> Row {
    if cur.timestamp >= incoming.timestamp {
        cur
    } else {
        incoming
    }
}

/// The stored row after an insert replayed from the commit log finds an
/// existing entry: the incoming values win only with a strictly newer
/// timestamp, and the tombstone is cleared.
pub open spec fn merged_replay(cur: Row, incoming: Row) -> Row {
    if cur.timestamp >= incoming.timestamp {
        cur
    } else {
        Row {
            values: incoming.values,
            timestamp: incoming.timestamp,
            marked_for_deletion: false,
            ..cur
        }
    }
}

/// The stored row after a live insert finds an existing entry: fresh
/// values and timestamp, a bumped version, and a cleared tombstone.
pub open spec fn merged_update(cur: Row, incoming: Row, now: u128) -> Row {
    Row {
        values: incoming.values,
        timestamp: now,
        version: bump_version(cur.version),
        marked_for_deletion: false,
        ..cur
    }
}

/// The ordered in-memory write buffer of one table.
pub struct Memtable {
    /// The rows, strictly ascending by primary-key bytes.
    pub rows: Vec<Row>,
    /// Estimate of the heap bytes the rows take.
    pub memory_size: usize,
    /// Number of live entries.
    pub size: usize,
}

impl Memtable {
    /// Sorted, with one entry per key.
    pub open spec fn wf(&self) -> bool {
        rows_sorted(self.rows@) && self.size == self.rows@.len()
    }

    /// The key-to-row association this memtable holds.
    pub open spec fn view_map(&self) -> Map<Seq<u8>, Row> {
        rows_map(self.rows@)
    }

    /// The rows in primary-key order.
    pub open spec fn spec_rows(&self) -> Seq<Row> {
        self.rows@
    }

    /// An empty memtable.
    pub fn new() -> (r: Memtable)
        ensures
            r.wf(),
            r.view_map() == Map::<Seq<u8>, Row>::empty(),
            r.spec_rows().len() == 0,
            r.memory_size == 0,
    {
        Memtable { rows: Vec::new(), memory_size: 0, size: 0 }
    }

    /// An empty memtable with the default configuration.
    pub fn default() -> (r: Memtable)
        ensures
            r.wf(),
            r.view_map() == Map::<Seq<u8>, Row>::empty(),
            r.spec_rows().len() == 0,
            r.memory_size == 0,
    {
        Memtable::new()
    }

    /// Finds a key's position, or where it would be put: every earlier
    /// row is below the key, every row from the position on is above it,
    /// unless the row at the position holds the key itself.
    fn locate(&self, key: &str) -> (r: (bool, usize))
        requires
            self.wf(),
        ensures
            r.1 <= self.rows@.len(),
            r.0 ==> r.1 < self.rows@.len() && pk_bytes(self.rows@[r.1 as int]) == str_bytes(key@),
            !r.0 ==> forall|j: int|
                0 <= j < self.rows@.len() ==> pk_bytes(#[trigger] self.rows@[j]) != str_bytes(key@),
            !r.0 ==> forall|j: int|
                0 <= j < r.1 ==> bytes_lt(pk_bytes(#[trigger] self.rows@[j]), str_bytes(key@)),
            !r.0 ==> forall|j: int|
                r.1 <= j < self.rows@.len() ==> bytes_lt(
                    str_bytes(key@),
                    pk_bytes(#[trigger] self.rows@[j]),
                ),
    {
        let kb = key.as_bytes();
        let mut lo: usize = 0;
        let mut hi: usize = self.rows.len();
        while lo < hi
            invariant
                self.wf(),
                0 <= lo <= hi <= self.rows@.len(),
                kb@ == str_bytes(key@),
                forall|j: int|
                    0 <= j < lo ==> bytes_lt(pk_bytes(#[trigger] self.rows@[j]), str_bytes(key@)),
                forall|j: int|
                    hi <= j < self.rows@.len() ==> bytes_lt(
                        str_bytes(key@),
                        pk_bytes(#[trigger] self.rows@[j]),
                    ),
            decreases hi - lo,
        {
            let mid = lo + (hi - lo) / 2;
            let cmp = compare_bytes(self.rows[mid].primary_key.as_str().as_bytes(), kb);
            if cmp == Rank::Equal {
                proof {
                    vstd::utf8::encode_utf8_decode_utf8(self.rows@[mid as int].primary_key@);
                    vstd::utf8::encode_utf8_decode_utf8(key@);
                }
                return (true, mid);
            } else if cmp == Rank::Below {
                proof {
                    assert forall|j: int| 0 <= j < mid + 1 implies bytes_lt(
                        pk_bytes(#[trigger] self.rows@[j]),
                        str_bytes(key@),
                    ) by {
                        if j < mid {
                            crate::order::lemma_bytes_lt_trans(
                                pk_bytes(self.rows@[j]),
                                pk_bytes(self.rows@[mid as int]),
                                str_bytes(key@),
                            );
                        }
                    }
                }
                lo = mid + 1;
            } else {
                proof {
                    assert forall|j: int| mid <= j < self.rows@.len() implies bytes_lt(
                        str_bytes(key@),
                        pk_bytes(#[trigger] self.rows@[j]),
                    ) by {
                        if j > mid {
                            crate::order::lemma_bytes_lt_trans(
                                str_bytes(key@),
                                pk_bytes(self.rows@[mid as int]),
                                pk_bytes(self.rows@[j]),
                            );
                        }
                    }
                }
                hi = mid;
            }
        }
        proof {
            assert forall|j: int| 0 <= j < self.rows@.len() implies pk_bytes(#[trigger] self.rows@[j])
                != str_bytes(key@) by {
                crate::order::lemma_bytes_lt_irrefl(str_bytes(key@));
            }
        }
        (false, lo)
    }

    /// Point lookup: the stored row under the key, unless it is absent
    /// or stands tombstoned.
    pub fn get(&self, primary_key: &String) -> (r: Option<&Row>)
        requires
            self.wf(),
        ensures
            r matches Some(row) ==> {
                &&& self.view_map().contains_key(str_bytes(primary_key@))
                &&& *row == self.view_map()[str_bytes(primary_key@)]
                &&& pk_bytes(*row) == str_bytes(primary_key@)
                &&& !row.marked_for_deletion
            },
            r is None ==> !self.view_map().contains_key(str_bytes(primary_key@))
                || self.view_map()[str_bytes(primary_key@)].marked_for_deletion,
    {
        let (found, idx) = self.locate(primary_key.as_str());
        proof {
            lemma_rows_map_full(self.rows@);
        }
        if found {
            let row = &self.rows[idx];
            if row.marked_for_deletion {
                None
            } else {
                Some(row)
            }
        } else {
            proof {
                if self.view_map().contains_key(str_bytes(primary_key@)) {
                    let i = choose|i: int|
                        0 <= i < self.rows@.len() && pk_bytes(self.rows@[i]) == str_bytes(
                            primary_key@,
                        );
                }
            }
            None
        }
    }

    /// The stored entry under a key, tombstoned or not.
    pub fn get_entry(&self, primary_key: &String) -> (r: Option<&Row>)
        requires
            self.wf(),
        ensures
            r matches Some(row) ==> {
                &&& self.view_map().contains_key(str_bytes(primary_key@))
                &&& *row == self.view_map()[str_bytes(primary_key@)]
                &&& pk_bytes(*row) == str_bytes(primary_key@)
            },
            r is None ==> !self.view_map().contains_key(str_bytes(primary_key@)),
    {
        let (found, idx) = self.locate(primary_key.as_str());
        proof {
            lemma_rows_map_full(self.rows@);
        }
        if found {
            Some(&self.rows[idx])
        } else {
            proof {
                if self.view_map().contains_key(str_bytes(primary_key@)) {
                    let i = choose|i: int|
                        0 <= i < self.rows@.len() && pk_bytes(self.rows@[i]) == str_bytes(
                            primary_key@,
                        );
                }
            }
            None
        }
    }

    /// Upsert. A fresh key is put in as given. An existing key keeps its
    /// row identity: a live insert renews values and timestamp and bumps
    /// the version, a replayed insert wins only by strictly newer
    /// timestamp; either way the tombstone is cleared.
    pub fn insert(&mut self, row: Row, from_commit_log: bool)
        requires
            old(self).wf(),
        ensures
            final(self).wf(),
            final(self).view_map().dom() == old(self).view_map().dom().insert(pk_bytes(row)),
            forall|k: Seq<u8>|
                old(self).view_map().contains_key(k) && k != pk_bytes(row)
                    ==> final(self).view_map()[k] == old(self).view_map()[k],
            !old(self).view_map().contains_key(pk_bytes(row)) ==> final(self).view_map()[pk_bytes(
                row,
            )] == row,
            (old(self).view_map().contains_key(pk_bytes(row)) && from_commit_log
                ==> final(self).view_map()[pk_bytes(row)] == merged_replay(
                old(self).view_map()[pk_bytes(row)],
                row,
            )),
            (old(self).view_map().contains_key(pk_bytes(row)) && !from_commit_log
                ==> exists|now: u128|
                final(self).view_map()[pk_bytes(row)] == merged_update(
                    old(self).view_map()[pk_bytes(row)],
                    row,
                    now,
                )),
            (!old(self).view_map().contains_key(pk_bytes(row)) ==> final(self).size == old(
                self,
            ).size + 1 && final(self).memory_size == clamp_usize(
                old(self).memory_size + clamp_usize(spec_row_footprint(row)),
            )),
            (old(self).view_map().contains_key(pk_bytes(row)) ==> final(self).size == old(
                self,
            ).size && final(self).memory_size == old(self).memory_size),
    {
        proof {
            lemma_rows_map_full(old(self).rows@);
        }
        let (found, idx) = self.locate(row.primary_key.as_str());
        if found {
            let cur = &self.rows[idx];
            let ghost curg = self.rows@[idx as int];
            if from_commit_log && cur.timestamp >= row.timestamp {
                proof {
                    assert(self.view_map() =~= old(self).view_map().insert(
                        pk_bytes(row),
                        merged_replay(curg, row),
                    ));
                    assert(self.view_map().dom() =~= old(self).view_map().dom().insert(
                        pk_bytes(row),
                    ));
                }
                return ;
            }
            let timestamp: u128 = if from_commit_log {
                row.timestamp
            } else {
                crate::exttrust::millis_from_epoch()
            };
            let version: u32 = if from_commit_log {
                cur.version
            } else {
                if cur.version < u32::MAX {
                    cur.version + 1
                } else {
                    cur.version
                }
            };
            let updated = Row {
                hash_key: cur.hash_key.clone(),
                sort_key: cur.sort_key.clone(),
                primary_key: cur.primary_key.clone(),
                values: row.values,
                version,
                timestamp,
                marked_for_deletion: false,
            };
            proof {
                if from_commit_log {
                    assert(updated == merged_replay(curg, row));
                } else {
                    assert(updated == merged_update(curg, row, timestamp));
                }
            }
            self.rows.set(idx, updated);
            proof {
                lemma_rows_map_update(old(self).rows@, idx as int, updated);
                assert(self.view_map() =~= old(self).view_map().insert(
                    pk_bytes(row),
                    updated,
                ));
                assert(self.view_map().dom() =~= old(self).view_map().dom().insert(
                    pk_bytes(row),
                ));
                assert(rows_sorted(self.rows@)) by {
                    assert(forall|j: int|
                        0 <= j < self.rows@.len() && j != idx ==> #[trigger] self.rows@[j]
                            == old(self).rows@[j]);
                    assert(pk_bytes(self.rows@[idx as int]) == pk_bytes(old(self).rows@[
                    idx as int]));
                }
            }
        } else {
            let size_estimate = row_heap_estimate(&row);
            self.rows.insert(idx, row);
            self.memory_size = self.memory_size.saturating_add(size_estimate);
            self.size = self.rows.len();
            proof {
                lemma_rows_map_insert(old(self).rows@, idx as int, row);
                assert(self.view_map() =~= old(self).view_map().insert(pk_bytes(row), row));
                assert(self.view_map().dom() =~= old(self).view_map().dom().insert(
                    pk_bytes(row),
                ));
                assert(rows_sorted(self.rows@)) by {
                    assert forall|a: int, b: int|
                        0 <= a < b < self.rows@.len() implies bytes_lt(
                        pk_bytes(#[trigger] self.rows@[a]),
                        pk_bytes(#[trigger] self.rows@[b]),
                    ) by {
                        if a < idx && b > idx {
                            assert(self.rows@[a] == old(self).rows@[a]);
                            assert(self.rows@[b] == old(self).rows@[b - 1]);
                            crate::order::lemma_bytes_lt_trans(
                                pk_bytes(self.rows@[a]),
                                pk_bytes(row),
                                pk_bytes(self.rows@[b]),
                            );
                        } else if a > idx && b > idx {
                            assert(self.rows@[a] == old(self).rows@[a - 1]);
                            assert(self.rows@[b] == old(self).rows@[b - 1]);
                        } else if a < idx && b == idx {
                            assert(self.rows@[a] == old(self).rows@[a]);
                        } else if a == idx && b > idx {
                            assert(self.rows@[b] == old(self).rows@[b - 1]);
                        }
                    }
                }
            }
        }
    }

    /// Takes a whole row in by last-writer-wins on timestamps: a fresh
    /// key stores the row as given, an existing key keeps whichever
    /// record carries the strictly greater timestamp — the tombstone
    /// flag travels with the winning record. This is the compaction
    /// merge, which must retain tombstones.
    pub fn absorb_newest(&mut self, row: Row)
        requires
            old(self).wf(),
        ensures
            final(self).wf(),
            final(self).view_map().dom() == old(self).view_map().dom().insert(pk_bytes(row)),
            forall|k: Seq<u8>|
                old(self).view_map().contains_key(k) && k != pk_bytes(row)
                    ==> final(self).view_map()[k] == old(self).view_map()[k],
            (!old(self).view_map().contains_key(pk_bytes(row)) ==> final(self).view_map()[pk_bytes(
                row,
            )] == row),
            (old(self).view_map().contains_key(pk_bytes(row)) ==> final(self).view_map()[pk_bytes(
                row,
            )] == newest_of(old(self).view_map()[pk_bytes(row)], row)),
            (!old(self).view_map().contains_key(pk_bytes(row)) ==> final(self).size == old(
                self,
            ).size + 1),
            (old(self).view_map().contains_key(pk_bytes(row)) ==> final(self).size == old(
                self,
            ).size),
    {
        proof {
            lemma_rows_map_full(old(self).rows@);
        }
        let (found, idx) = self.locate(row.primary_key.as_str());
        if found {
            if self.rows[idx].timestamp >= row.timestamp {
                proof {
                    assert(self.view_map().dom() =~= old(self).view_map().dom().insert(
                        pk_bytes(row),
                    ));
                }
                return ;
            }
            let ghost rowg = row;
            self.rows.set(idx, row);
            proof {
                lemma_rows_map_update(old(self).rows@, idx as int, rowg);
                assert(self.view_map() =~= old(self).view_map().insert(pk_bytes(rowg), rowg));
                assert(self.view_map().dom() =~= old(self).view_map().dom().insert(
                    pk_bytes(rowg),
                ));
                assert(rows_sorted(self.rows@)) by {
                    assert(forall|j: int|
                        0 <= j < self.rows@.len() && j != idx ==> #[trigger] self.rows@[j] == old(
                            self,
                        ).rows@[j]);
                    assert(pk_bytes(self.rows@[idx as int]) == pk_bytes(
                        old(self).rows@[idx as int],
                    ));
                }
            }
        } else {
            let ghost rowg = row;
            let size_estimate = row_heap_estimate(&row);
            self.rows.insert(idx, row);
            self.memory_size = self.memory_size.saturating_add(size_estimate);
            self.size = self.rows.len();
            proof {
                lemma_rows_map_insert(old(self).rows@, idx as int, rowg);
                assert(self.view_map() =~= old(self).view_map().insert(pk_bytes(rowg), rowg));
                assert(self.view_map().dom() =~= old(self).view_map().dom().insert(
                    pk_bytes(rowg),
                ));
                assert(rows_sorted(self.rows@)) by {
                    assert forall|a: int, b: int|
                        0 <= a < b < self.rows@.len() implies bytes_lt(
                        pk_bytes(#[trigger] self.rows@[a]),
                        pk_bytes(#[trigger] self.rows@[b]),
                    ) by {
                        if a < idx && b > idx {
                            assert(self.rows@[a] == old(self).rows@[a]);
                            assert(self.rows@[b] == old(self).rows@[b - 1]);
                            crate::order::lemma_bytes_lt_trans(
                                pk_bytes(self.rows@[a]),
                                pk_bytes(rowg),
                                pk_bytes(self.rows@[b]),
                            );
                        } else if a > idx && b > idx {
                            assert(self.rows@[a] == old(self).rows@[a - 1]);
                            assert(self.rows@[b] == old(self).rows@[b - 1]);
                        } else if a < idx && b == idx {
                            assert(self.rows@[a] == old(self).rows@[a]);
                        } else if a == idx && b > idx {
                            assert(self.rows@[b] == old(self).rows@[b - 1]);
                        }
                    }
                }
            }
        }
    }

    /// Tombstones the entry under a key; an entry already tombstoned
    /// reads as absent. Without an override the timestamp is renewed
    /// from the clock; a replayed delete carries its own timestamp and
    /// wins only when strictly newer.
    pub fn delete(&mut self, primary_key: &String, timestamp: Option<u128>) -> (r: bool)
        requires
            old(self).wf(),
        ensures
            final(self).wf(),
            final(self).view_map().dom() == old(self).view_map().dom(),
            forall|k: Seq<u8>|
                old(self).view_map().contains_key(k) && k != str_bytes(primary_key@)
                    ==> final(self).view_map()[k] == old(self).view_map()[k],
            (!old(self).view_map().contains_key(str_bytes(primary_key@)) ==> r == false
                && final(self).view_map() == old(self).view_map()),
            final(self).size == old(self).size,
            final(self).memory_size == old(self).memory_size,
            old(self).view_map().contains_key(str_bytes(primary_key@)) ==> {
                let cur = old(self).view_map()[str_bytes(primary_key@)];
                let now = final(self).view_map()[str_bytes(primary_key@)];
                now.values == cur.values && now.hash_key == cur.hash_key && now.sort_key
                    == cur.sort_key && now.primary_key == cur.primary_key && now.version
                    == cur.version
            },
            old(self).view_map().contains_key(str_bytes(primary_key@)) ==> {
                let cur = old(self).view_map()[str_bytes(primary_key@)];
                match timestamp {
                    Some(ts) => {
                        &&& (cur.timestamp >= ts ==> r == false && final(self).view_map()
                            == old(self).view_map())
                        &&& (cur.timestamp < ts ==> r == true && final(self).view_map()[str_bytes(
                            primary_key@,
                        )] == Row { timestamp: ts, marked_for_deletion: true, ..cur })
                    },
                    None => {
                        &&& (cur.marked_for_deletion ==> r == false && final(self).view_map()
                            == old(self).view_map())
                        &&& (!cur.marked_for_deletion ==> r == true && exists|now: u128|
                            final(self).view_map()[str_bytes(primary_key@)] == (Row {
                                timestamp: now,
                                marked_for_deletion: true,
                                ..cur
                            }))
                    },
                }
            },
    {
        proof {
            lemma_rows_map_full(old(self).rows@);
        }
        let (found, idx) = self.locate(primary_key.as_str());
        if !found {
            proof {
                if self.view_map().contains_key(str_bytes(primary_key@)) {
                    let i = choose|i: int|
                        0 <= i < self.rows@.len() && pk_bytes(self.rows@[i]) == str_bytes(
                            primary_key@,
                        );
                }
            }
            return false;
        }
        let ghost curg = self.rows@[idx as int];
        let ts: u128 = match timestamp {
            Some(ts) => {
                if self.rows[idx].timestamp >= ts {
                    return false;
                }
                ts
            },
            None => {
                if self.rows[idx].marked_for_deletion {
                    // an entry already tombstoned reads as absent
                    return false;
                }
                crate::exttrust::millis_from_epoch()
            },
        };
        let mut updated = self.rows.remove(idx);
        updated.timestamp = ts;
        updated.marked_for_deletion = true;
        proof {
            assert(updated == (Row { timestamp: ts, marked_for_deletion: true, ..curg }));
        }
        self.rows.insert(idx, updated);
        proof {
            assert(self.rows@ =~= old(self).rows@.update(idx as int, updated));
            lemma_rows_map_update(old(self).rows@, idx as int, updated);
            assert(self.view_map() =~= old(self).view_map().insert(
                str_bytes(primary_key@),
                updated,
            ));
            assert(self.view_map().dom() =~= old(self).view_map().dom());
            assert(rows_sorted(self.rows@)) by {
                assert(forall|j: int|
                    0 <= j < self.rows@.len() && j != idx ==> #[trigger] self.rows@[j] == old(
                        self,
                    ).rows@[j]);
                assert(pk_bytes(self.rows@[idx as int]) == pk_bytes(old(self).rows@[idx as int]));
            }
        }
        true
    }

    /// Whether the byte cap is passed and the memtable should flush.
    pub fn max_size_reached(&self) -> (r: bool)
        ensures
            r == (self.memory_size > MEMTABLE_MAX_SIZE_MEGABYTES * MEGABYTE),
    {
        self.memory_size > MEMTABLE_MAX_SIZE_MEGABYTES * MEGABYTE
    }

    /// Hands the rows out in primary-key order, consuming the memtable.
    pub fn to_sstable_rows(self) -> (r: Vec<Row>)
        requires
            self.wf(),
        ensures
            r@ == self.spec_rows(),
            rows_sorted(r@),
    {
        self.rows
    }
}

/// Law: a lookup right after a live insert, with nothing in between,
/// finds the inserted row — the same values under the same key, not
/// tombstoned, with the version one above the replaced row's (or the
/// inserted row itself where the key was fresh). The premises are what
/// `insert` with a live (non-replay) origin ensures; the conclusion is
/// what `get` then hands back.
pub proof fn lemma_insert_then_get(m1: Memtable, m2: Memtable, row: Row, now: u128)
    requires
        !row.marked_for_deletion,
        m2.view_map().dom() == m1.view_map().dom().insert(pk_bytes(row)),
        m1.view_map().contains_key(pk_bytes(row)) ==> m2.view_map()[pk_bytes(row)]
            == merged_update(m1.view_map()[pk_bytes(row)], row, now),
        !m1.view_map().contains_key(pk_bytes(row)) ==> m2.view_map()[pk_bytes(row)] == row,
    ensures
        m2.view_map().contains_key(pk_bytes(row)),
        m2.view_map()[pk_bytes(row)].values == row.values,
        !m2.view_map()[pk_bytes(row)].marked_for_deletion,
        m1.view_map().contains_key(pk_bytes(row)) ==> m2.view_map()[pk_bytes(row)].version
            == bump_version(m1.view_map()[pk_bytes(row)].version),
        !m1.view_map().contains_key(pk_bytes(row)) ==> m2.view_map()[pk_bytes(row)] == row,
{
    assert(m2.view_map().dom().contains(pk_bytes(row)));
}

/// Law: a lookup right after a delete, with nothing in between, comes
/// back empty. The premise is what `delete` ensures of the stored row
/// when it answers true; `get` then reports the key absent, since the
/// stored row stands tombstoned.
pub proof fn lemma_delete_then_get(m1: Memtable, m2: Memtable, k: Seq<u8>, now: u128)
    requires
        m1.view_map().contains_key(k),
        m2.view_map().dom() == m1.view_map().dom(),
        m2.view_map()[k] == (Row {
            timestamp: now,
            marked_for_deletion: true,
            ..m1.view_map()[k]
        }),
    ensures
        m2.view_map().contains_key(k),
        m2.view_map()[k].marked_for_deletion,
{
}

/// Byte accounting of one value: a string's UTF-8 length, a scalar's
/// width.
pub open spec fn spec_value_footprint(v: Value) -> int {
    match v {
        Value::Varchar(s) => vstd::utf8::encode_utf8(s@).len() as int,
        Value::Int32(_) => 4,
        Value::Int64(_) => 8,
        Value::Unsigned32(_) => 4,
        Value::Unsigned64(_) => 8,
        Value::Float32(_) => 4,
        Value::Float64(_) => 8,
        Value::Boolean(_) => 1,
        Value::Null => 0,
    }
}

/// Byte accounting of a value list: names, values, and a fixed
/// per-entry overhead.
pub open spec fn spec_values_footprint(values: Seq<(String, Value)>) -> int
    decreases values.len(),
{
    if values.len() == 0 {
        0
    } else {
        spec_values_footprint(values.drop_last()) + vstd::utf8::encode_utf8(
            values.last().0@,
        ).len() + spec_value_footprint(values.last().1) + 64
    }
}

/// Byte accounting of one stored row: its strings, its values, and a
/// fixed per-row overhead. This is the estimate the flush threshold
/// tracks.
pub open spec fn spec_row_footprint(row: Row) -> int {
    vstd::utf8::encode_utf8(row.hash_key@).len() + vstd::utf8::encode_utf8(
        row.primary_key@,
    ).len() + spec_values_footprint(row.values@) + 96
}

/// The accounting sum clamped into `usize`.
pub open spec fn clamp_usize(n: int) -> int {
    if n <= usize::MAX {
        n
    } else {
        usize::MAX as int
    }
}

/// Rough heap footprint of one row, for the flush threshold.
fn row_heap_estimate(row: &Row) -> (r: usize)
    ensures
        r == clamp_usize(spec_row_footprint(*row)),
{
    let mut total: usize = crate::validation::str_byte_len(row.hash_key.as_str());
    total = total.saturating_add(crate::validation::str_byte_len(row.primary_key.as_str()));
    let n = row.values.len();
    let mut i: usize = 0;
    while i < n
        invariant
            n == row.values@.len(),
            0 <= i <= n,
            total == clamp_usize(
                vstd::utf8::encode_utf8(row.hash_key@).len() + vstd::utf8::encode_utf8(
                    row.primary_key@,
                ).len() + spec_values_footprint(row.values@.take(i as int)),
            ),
        decreases n - i,
    {
        proof {
            assert(row.values@.take(i + 1).drop_last() =~= row.values@.take(i as int));
            assert(row.values@.take(i + 1).last() == row.values@[i as int]);
            lemma_values_footprint_nonneg(row.values@.take(i as int));
        }
        total = total.saturating_add(crate::validation::str_byte_len(row.values[i].0.as_str()));
        total = total.saturating_add(value_heap_estimate(&row.values[i].1));
        total = total.saturating_add(64);
        i = i + 1;
    }
    proof {
        assert(row.values@.take(n as int) =~= row.values@);
        lemma_values_footprint_nonneg(row.values@);
    }
    total.saturating_add(96)
}

/// The value-list accounting never goes negative.
proof fn lemma_values_footprint_nonneg(values: Seq<(String, Value)>)
    ensures
        spec_values_footprint(values) >= 0,
    decreases values.len(),
{
    if values.len() > 0 {
        lemma_values_footprint_nonneg(values.drop_last());
    }
}

/// Rough heap footprint of one value.
fn value_heap_estimate(v: &Value) -> (r: usize)
    ensures
        r == clamp_usize(spec_value_footprint(*v)),
{
    match v {
        Value::Varchar(s) => crate::validation::str_byte_len(s.as_str()),
        Value::Int32(_) => 4,
        Value::Int64(_) => 8,
        Value::Unsigned32(_) => 4,
        Value::Unsigned64(_) => 8,
        Value::Float32(_) => 4,
        Value::Float64(_) => 8,
        Value::Boolean(_) => 1,
        Value::Null => 0,
    }
}

/// Every row of a sorted list stands in its association under its key,
/// and every key of the association is some row's.
pub proof fn lemma_rows_map_full(rows: Seq<Row>)
    requires
        rows_sorted(rows),
    ensures
        forall|i: int|
            0 <= i < rows.len() ==> rows_map(rows).contains_key(pk_bytes(#[trigger] rows[i]))
                && rows_map(rows)[pk_bytes(rows[i])] == rows[i],
        forall|k: Seq<u8>|
            rows_map(rows).contains_key(k) ==> exists|i: int|
                0 <= i < rows.len() && pk_bytes(#[trigger] rows[i]) == k,
    decreases rows.len(),
{
    if rows.len() > 0 {
        assert(rows_sorted(rows.drop_last())) by {
            assert(forall|j: int|
                0 <= j < rows.drop_last().len() ==> #[trigger] rows.drop_last()[j] == rows[j]);
        }
        lemma_rows_map_full(rows.drop_last());
        assert forall|i: int| 0 <= i < rows.len() implies rows_map(rows).contains_key(pk_bytes(
            #[trigger] rows[i],
        )) && rows_map(rows)[pk_bytes(rows[i])] == rows[i] by {
            if i < rows.len() - 1 {
                assert(rows.drop_last()[i] == rows[i]);
                assert(bytes_lt(pk_bytes(rows[i]), pk_bytes(rows.last())));
                crate::order::lemma_bytes_lt_irrefl(pk_bytes(rows[i]));
                assert(pk_bytes(rows[i]) != pk_bytes(rows.last()));
            }
        }
        assert forall|k: Seq<u8>| rows_map(rows).contains_key(k) implies exists|i: int|
            0 <= i < rows.len() && pk_bytes(#[trigger] rows[i]) == k by {
            if k == pk_bytes(rows.last()) {
                assert(rows[rows.len() - 1] == rows.last());
                assert(pk_bytes(rows[rows.len() - 1]) == k);
            } else {
                assert(rows_map(rows.drop_last()).contains_key(k));
                let i = choose|i: int|
                    0 <= i < rows.drop_last().len() && pk_bytes(
                        #[trigger] rows.drop_last()[i],
                    ) == k;
                assert(rows.drop_last()[i] == rows[i]);
                assert(pk_bytes(rows[i]) == k);
            }
        }
        assert(!rows_map(rows.drop_last()).contains_key(pk_bytes(rows.last()))) by {
            if rows_map(rows.drop_last()).contains_key(pk_bytes(rows.last())) {
                let i = choose|i: int|
                    0 <= i < rows.drop_last().len() && pk_bytes(
                        #[trigger] rows.drop_last()[i],
                    ) == pk_bytes(rows.last());
                assert(bytes_lt(pk_bytes(rows[i]), pk_bytes(rows.last())));
                crate::order::lemma_bytes_lt_irrefl(pk_bytes(rows.last()));
            }
        }
    }
}

/// Replacing the row at a position under the same key updates the
/// association at that key alone.
proof fn lemma_rows_map_update(rows: Seq<Row>, i: int, updated: Row)
    requires
        rows_sorted(rows),
        0 <= i < rows.len(),
        pk_bytes(updated) == pk_bytes(rows[i]),
    ensures
        rows_map(rows.update(i, updated)) =~= rows_map(rows).insert(pk_bytes(rows[i]), updated),
    decreases rows.len(),
{
    let u = rows.update(i, updated);
    if i == rows.len() - 1 {
        assert(u.drop_last() =~= rows.drop_last());
        assert(u.last() == updated);
    } else {
        assert(u.last() == rows.last());
        assert(u.drop_last() =~= rows.drop_last().update(i, updated));
        assert(rows_sorted(rows.drop_last())) by {
            assert(forall|j: int|
                0 <= j < rows.drop_last().len() ==> #[trigger] rows.drop_last()[j] == rows[j]);
        }
        lemma_rows_map_update(rows.drop_last(), i, updated);
        assert(bytes_lt(pk_bytes(rows[i]), pk_bytes(rows.last())));
        crate::order::lemma_bytes_lt_irrefl(pk_bytes(rows[i]));
    }
}

/// Putting a row in strictly between its sorted neighbours adds one
/// binding to the association.
proof fn lemma_rows_map_insert(rows: Seq<Row>, i: int, row: Row)
    requires
        rows_sorted(rows),
        0 <= i <= rows.len(),
        forall|j: int| 0 <= j < i ==> bytes_lt(pk_bytes(#[trigger] rows[j]), pk_bytes(row)),
        forall|j: int|
            i <= j < rows.len() ==> bytes_lt(pk_bytes(row), pk_bytes(#[trigger] rows[j])),
    ensures
        rows_map(rows.insert(i, row)) =~= rows_map(rows).insert(pk_bytes(row), row),
    decreases rows.len(),
{
    let u = rows.insert(i, row);
    if i == rows.len() {
        assert(u.drop_last() =~= rows);
        assert(u.last() == row);
    } else {
        assert(u.last() == rows.last());
        assert(u.drop_last() =~= rows.drop_last().insert(i, row));
        assert(rows_sorted(rows.drop_last())) by {
            assert(forall|j: int|
                0 <= j < rows.drop_last().len() ==> #[trigger] rows.drop_last()[j] == rows[j]);
        }
        lemma_rows_map_insert(rows.drop_last(), i, row);
        assert(bytes_lt(pk_bytes(row), pk_bytes(rows.last())));
        crate::order::lemma_bytes_lt_irrefl(pk_bytes(row));
    }
}

} // verus!
