//! Commit-log records and their replay. A record is an operation tag,
//! its payload, and a closing newline: tag 1 carries one encoded row,
//! tag 2 a 16-byte big-endian timestamp and the raw primary-key bytes.
//! Replay applies the records to a fresh memtable in order with
//! last-writer-wins semantics; the newest write for each key survives.
use crate::codec::{encode_row, row_matches_schema, spec_encode_row};
use crate::intbytes::be_bytes;
use crate::memtable::{merged_replay, pk_bytes, Memtable};
use crate::order::str_bytes;
use crate::row::Row;
use crate::schema::{spec_row_size, wf_schema, TableSchema};
use crate::table::row_wf_for;
use vstd::prelude::*;
use vstd::string::StringSliceAdditionalSpecFns;

verus! {

/// Tag byte of an insert record.
pub const OP_INSERT: u8 = 1;

/// Tag byte of a delete record.
pub const OP_DELETE: u8 = 2;

/// One replayable operation recovered from (or bound for) a commit log.
pub enum LogRecord {
    Insert(Row),
    Delete(u128, String),
}

/// The key a record lands on.
pub open spec fn record_key(rec: LogRecord) -> Seq<u8> {
    match rec {
        LogRecord::Insert(row) => pk_bytes(row),
        LogRecord::Delete(_, pk) => str_bytes(pk@),
    }
}

/// The timestamp a record carries.
pub open spec fn record_ts(rec: LogRecord) -> u128 {
    match rec {
        LogRecord::Insert(row) => row.timestamp,
        LogRecord::Delete(ts, _) => ts,
    }
}

/// What one replayed record leaves under its key.
pub open spec fn apply_record(m: Map<Seq<u8>, Row>, rec: LogRecord) -> Map<Seq<u8>, Row> {
    match rec {
        LogRecord::Insert(row) => {
            if m.contains_key(pk_bytes(row)) {
                m.insert(pk_bytes(row), merged_replay(m[pk_bytes(row)], row))
            } else {
                m.insert(pk_bytes(row), row)
            }
        },
        LogRecord::Delete(ts, pk) => {
            if m.contains_key(str_bytes(pk@)) && m[str_bytes(pk@)].timestamp < ts {
                m.insert(
                    str_bytes(pk@),
                    Row { timestamp: ts, marked_for_deletion: true, ..m[str_bytes(pk@)] },
                )
            } else {
                m
            }
        },
    }
}

/// The key-to-row state that replaying records in order leaves behind.
pub open spec fn spec_replay(records: Seq<LogRecord>) -> Map<Seq<u8>, Row>
    decreases records.len(),
{
    if records.len() == 0 {
        Map::empty()
    } else {
        apply_record(spec_replay(records.drop_last()), records.last())
    }
}

/// The byte form of an insert record.
pub fn encode_insert_record(row: &Row, table_schema: &TableSchema) -> (r: Vec<u8>)
    requires
        wf_schema(*table_schema),
        row_matches_schema(*row, *table_schema),
    ensures
        r@ == seq![OP_INSERT] + spec_encode_row(*row, *table_schema) + seq![10u8],
{
    let mut out: Vec<u8> = Vec::new();
    out.push(OP_INSERT);
    let mut body = encode_row(row, table_schema);
    out.append(&mut body);
    out.push(10u8);
    proof {
        assert(out@ =~= seq![OP_INSERT] + spec_encode_row(*row, *table_schema) + seq![10u8]);
    }
    out
}

/// The byte form of a delete record.
pub fn encode_delete_record(primary_key: &str, timestamp: u128) -> (r: Vec<u8>)
    ensures
        r@ == seq![OP_DELETE] + be_bytes(timestamp as int, 16) + primary_key.spec_bytes() + seq![
            10u8,
        ],
{
    let mut out: Vec<u8> = Vec::new();
    out.push(OP_DELETE);
    crate::intbytes::append_u128_be(&mut out, timestamp, 16);
    let mut pk = vstd::string::StrSliceExecFns::as_bytes_vec(primary_key);
    out.append(&mut pk);
    out.push(10u8);
    proof {
        assert(out@ =~= seq![OP_DELETE] + be_bytes(timestamp as int, 16)
            + primary_key.spec_bytes() + seq![10u8]);
    }
    out
}

/// Position of the first newline byte at or after `from`; the length
/// when absent.
pub open spec fn first_newline_from(bytes: Seq<u8>, from: int) -> int
    decreases bytes.len() - from,
{
    if from < 0 || from >= bytes.len() {
        bytes.len() as int
    } else if bytes[from] == 10 {
        from
    } else {
        first_newline_from(bytes, from + 1)
    }
}

/// What `first_newline_from` returns: bounded, a newline if within, with
/// no earlier newline from `from` on.
pub proof fn lemma_first_newline_from(bytes: Seq<u8>, from: int)
    requires
        0 <= from,
    ensures
        from <= first_newline_from(bytes, from) || from > bytes.len(),
        first_newline_from(bytes, from) <= bytes.len(),
        first_newline_from(bytes, from) < bytes.len() ==> bytes[first_newline_from(bytes, from)]
            == 10,
        forall|t: int| from <= t < first_newline_from(bytes, from) ==> bytes[t] != 10,
    decreases bytes.len() - from,
{
    if from < bytes.len() && bytes[from] != 10 {
        lemma_first_newline_from(bytes, from + 1);
    }
}

/// Bytes that are a well-formed sequence of commit-log records for this
/// schema: each record's tag, payload bounds, decodability and closing
/// newline in turn, down to the empty tail.
pub open spec fn records_wf(bytes: Seq<u8>, s: TableSchema) -> bool
    decreases bytes.len(),
{
    if spec_row_size(s) < 0 {
        false
    } else if bytes.len() == 0 {
        true
    } else if bytes[0] == OP_INSERT {
        if bytes.len() < 2 + spec_row_size(s) {
            false
        } else {
            &&& crate::codec::row_decodable(bytes.subrange(1, 1 + spec_row_size(s)), s)
            &&& bytes[1 + spec_row_size(s)] == 10
            &&& records_wf(bytes.skip(2 + spec_row_size(s)), s)
        }
    } else if bytes[0] == OP_DELETE {
        let j = first_newline_from(bytes, 17);
        if bytes.len() < 18 || !(17 <= j < bytes.len()) {
            false
        } else {
            &&& vstd::utf8::valid_utf8(bytes.subrange(17, j))
            &&& records_wf(bytes.skip(j + 1), s)
        }
    } else {
        false
    }
}

/// The records are exactly what the bytes say: the first record reads
/// off the front of the bytes, and the rest reads off the tail.
pub open spec fn records_decode(bytes: Seq<u8>, s: TableSchema, records: Seq<LogRecord>) -> bool
    decreases bytes.len(),
{
    if spec_row_size(s) < 0 {
        false
    } else if bytes.len() == 0 {
        records.len() == 0
    } else if bytes[0] == OP_INSERT {
        if bytes.len() < 2 + spec_row_size(s) {
            false
        } else {
            &&& records.len() >= 1
            &&& records[0] matches LogRecord::Insert(row) && crate::codec::row_decodes(
                bytes.subrange(1, 1 + spec_row_size(s)),
                s,
                row,
            )
            &&& bytes[1 + spec_row_size(s)] == 10
            &&& records_decode(bytes.skip(2 + spec_row_size(s)), s, records.drop_first())
        }
    } else if bytes[0] == OP_DELETE {
        let j = first_newline_from(bytes, 17);
        if bytes.len() < 18 || !(17 <= j < bytes.len()) {
            false
        } else {
            &&& records.len() >= 1
            &&& records[0] matches LogRecord::Delete(ts, pk) && ts == crate::intbytes::be_val(
                bytes.subrange(1, 17),
            ) && vstd::utf8::encode_utf8(pk@) == bytes.subrange(17, j)
            &&& records_decode(bytes.skip(j + 1), s, records.drop_first())
        }
    } else {
        false
    }
}

/// A record parsed off the front extends a decoded prefix: if `a`
/// decodes to `rs` and `c` decodes to the one record `rec`, then `a + c`
/// decodes to `rs` with `rec` appended.
proof fn lemma_records_decode_append(
    a: Seq<u8>,
    c: Seq<u8>,
    s: TableSchema,
    rs: Seq<LogRecord>,
    rec: LogRecord,
)
    requires
        records_decode(a, s, rs),
        records_decode(c, s, seq![rec]),
    ensures
        records_decode(a + c, s, rs.push(rec)),
    decreases a.len(),
{
    let ac = a + c;
    if a.len() == 0 {
        assert(ac =~= c);
        assert(rs.push(rec) =~= seq![rec]);
    } else if a[0] == OP_INSERT {
        let step = 2 + spec_row_size(s);
        assert(ac[0] == a[0]);
        assert(ac.subrange(1, 1 + spec_row_size(s)) =~= a.subrange(1, 1 + spec_row_size(s)));
        assert(ac[1 + spec_row_size(s)] == a[1 + spec_row_size(s)]);
        assert(ac.skip(step) =~= a.skip(step) + c);
        lemma_records_decode_append(a.skip(step), c, s, rs.drop_first(), rec);
        assert(rs.push(rec).drop_first() =~= rs.drop_first().push(rec));
        assert(rs.push(rec)[0] == rs[0]);
    } else {
        let j = first_newline_from(a, 17);
        lemma_first_newline_stable(a, c, 17);
        assert(first_newline_from(ac, 17) == j);
        assert(ac[0] == a[0]);
        assert(ac.subrange(1, 17) =~= a.subrange(1, 17));
        assert(ac.subrange(17, j) =~= a.subrange(17, j));
        assert(ac.skip(j + 1) =~= a.skip(j + 1) + c);
        lemma_records_decode_append(a.skip(j + 1), c, s, rs.drop_first(), rec);
        assert(rs.push(rec).drop_first() =~= rs.drop_first().push(rec));
        assert(rs.push(rec)[0] == rs[0]);
    }
}

/// A well-formed prefix followed by one well-formed record is a
/// well-formed whole.
proof fn lemma_records_wf_append(a: Seq<u8>, c: Seq<u8>, s: TableSchema)
    requires
        records_wf(a, s),
        records_wf(c, s),
    ensures
        records_wf(a + c, s),
    decreases a.len(),
{
    let ac = a + c;
    if a.len() == 0 {
        assert(ac =~= c);
    } else if a[0] == OP_INSERT {
        let step = 2 + spec_row_size(s);
        assert(ac[0] == a[0]);
        assert(ac.subrange(1, 1 + spec_row_size(s)) =~= a.subrange(1, 1 + spec_row_size(s)));
        assert(ac[1 + spec_row_size(s)] == a[1 + spec_row_size(s)]);
        assert(ac.skip(step) =~= a.skip(step) + c);
        lemma_records_wf_append(a.skip(step), c, s);
    } else {
        let j = first_newline_from(a, 17);
        lemma_first_newline_stable(a, c, 17);
        assert(first_newline_from(ac, 17) == j);
        assert(ac[0] == a[0]);
        assert(ac.subrange(17, j) =~= a.subrange(17, j));
        assert(ac.skip(j + 1) =~= a.skip(j + 1) + c);
        lemma_records_wf_append(a.skip(j + 1), c, s);
    }
}

/// A newline found inside `a` stays the first newline of `a + c`.
proof fn lemma_first_newline_stable(a: Seq<u8>, c: Seq<u8>, from: int)
    requires
        0 <= from,
        first_newline_from(a, from) < a.len(),
    ensures
        first_newline_from(a + c, from) == first_newline_from(a, from),
    decreases a.len() - from,
{
    if from < a.len() && a[from] != 10 {
        assert((a + c)[from] == a[from]);
        lemma_first_newline_stable(a, c, from + 1);
    } else {
        assert((a + c)[from] == a[from]);
    }
}

/// Reads the records out of raw commit-log bytes: each record is bounded
/// by its tag's fixed-size payload (the schema's row size for an insert)
/// and its closing newline; a delete's key runs up to that newline.
/// Exactly the well-formed record sequences are accepted, and the
/// records handed back are the bytes' own decoding.
#[verifier::rlimit(100)]
pub fn parse_records(bytes: &[u8], table_schema: &TableSchema) -> (r: Result<Vec<LogRecord>, String
>)
    requires
        wf_schema(*table_schema),
    ensures
        r is Ok <==> records_wf(bytes@, *table_schema),
        r matches Ok(records) ==> records_decode(bytes@, *table_schema, records@),
        r matches Ok(records) ==> forall|i: int|
            0 <= i < records@.len() ==> match #[trigger] records@[i] {
                LogRecord::Insert(row) => row_wf_for(row, *table_schema),
                LogRecord::Delete(_, _) => true,
            },
{
    let blen: usize = bytes.len();
    let row_size = table_schema.row_byte_size();
    let mut records: Vec<LogRecord> = Vec::new();
    let mut i: usize = 0;
    proof {
        assert(bytes@.take(0) =~= Seq::<u8>::empty());
        assert(bytes@.skip(0) =~= bytes@);
        assert(spec_row_size(*table_schema) >= 0);
    }
    while i < blen
        invariant
            wf_schema(*table_schema),
            blen == bytes@.len(),
            row_size == spec_row_size(*table_schema),
            0 <= i <= blen,
            records_decode(bytes@.take(i as int), *table_schema, records@),
            records_wf(bytes@.take(i as int), *table_schema),
            records_wf(bytes@, *table_schema) ==> records_wf(
                bytes@.skip(i as int),
                *table_schema,
            ),
            forall|j: int|
                0 <= j < records@.len() ==> match #[trigger] records@[j] {
                    LogRecord::Insert(row) => row_wf_for(row, *table_schema),
                    LogRecord::Delete(_, _) => true,
                },
        decreases blen - i,
    {
        let ghost sfx = bytes@.skip(i as int);
        let ghost pre_records = records@;
        proof {
            assert(sfx[0] == bytes@[i as int]);
        }
        let tag = bytes[i];
        if tag == OP_INSERT {
            if blen - i < 2 || blen - i - 2 < row_size {
                proof {
                    if records_wf(bytes@, *table_schema) {
                        assert(sfx.len() < 2 + spec_row_size(*table_schema));
                        assert(false);
                    }
                }
                return Err("Truncated commit log record".to_owned());
            }
            let body = vstd::slice::slice_subrange(bytes, i + 1, i + 1 + row_size);
            proof {
                assert(body@ =~= sfx.subrange(1, 1 + spec_row_size(*table_schema)));
            }
            let row = match crate::codec::decode_row(body, table_schema) {
                Ok(row) => row,
                Err(e) => {
                    proof {
                        if records_wf(bytes@, *table_schema) {
                            assert(crate::codec::row_decodable(
                                sfx.subrange(1, 1 + spec_row_size(*table_schema)),
                                *table_schema,
                            ));
                            assert(false);
                        }
                    }
                    return Err(e);
                },
            };
            if bytes[i + 1 + row_size] != 10u8 {
                proof {
                    if records_wf(bytes@, *table_schema) {
                        assert(sfx[1 + spec_row_size(*table_schema)] == bytes@[i + 1
                            + spec_row_size(*table_schema)]);
                        assert(false);
                    }
                }
                return Err("Malformed commit log record".to_owned());
            }
            records.push(LogRecord::Insert(row));
            proof {
                let step = 2 + spec_row_size(*table_schema);
                let c = bytes@.subrange(i as int, i + step);
                assert(c[0] == bytes@[i as int]);
                assert(c.subrange(1, 1 + spec_row_size(*table_schema)) =~= body@);
                assert(c[1 + spec_row_size(*table_schema)] == bytes@[i + 1 + spec_row_size(
                    *table_schema,
                )]);
                assert(c.skip(step) =~= Seq::<u8>::empty());
                let rec = LogRecord::Insert(row);
                assert(records_decode(c, *table_schema, seq![rec])) by {
                    assert(spec_row_size(*table_schema) >= 0);
                    assert(c.len() == step);
                    assert(c[0] == OP_INSERT);
                    assert(crate::codec::row_decodes(
                        c.subrange(1, 1 + spec_row_size(*table_schema)),
                        *table_schema,
                        row,
                    ));
                    assert(seq![rec].drop_first() =~= Seq::<LogRecord>::empty());
                    assert(records_decode(
                        Seq::<u8>::empty(),
                        *table_schema,
                        Seq::<LogRecord>::empty(),
                    ));
                }
                assert(records_wf(c, *table_schema)) by {
                    assert(spec_row_size(*table_schema) >= 0);
                    assert(c[0] == OP_INSERT);
                    assert(crate::codec::row_decodable(
                        c.subrange(1, 1 + spec_row_size(*table_schema)),
                        *table_schema,
                    ));
                    assert(records_wf(Seq::<u8>::empty(), *table_schema));
                }
                lemma_records_decode_append(
                    bytes@.take(i as int),
                    c,
                    *table_schema,
                    pre_records,
                    rec,
                );
                lemma_records_wf_append(bytes@.take(i as int), c, *table_schema);
                assert(bytes@.take(i as int) + c =~= bytes@.take(i + step));
                assert(records@ =~= pre_records.push(rec));
                if records_wf(bytes@, *table_schema) {
                    assert(sfx.skip(step) =~= bytes@.skip(i + step));
                }
            }
            i = i + 2 + row_size;
        } else if tag == OP_DELETE {
            if blen - i < 18 {
                proof {
                    if records_wf(bytes@, *table_schema) {
                        assert(sfx.len() < 18);
                        assert(false);
                    }
                }
                return Err("Truncated commit log record".to_owned());
            }
            let ts = crate::intbytes::u128_from_be(bytes, i + 1, 16);
            let mut j: usize = i + 17;
            while j < blen && bytes[j] != 10u8
                invariant
                    blen == bytes@.len(),
                    i + 17 <= j <= blen,
                    forall|t: int| i + 17 <= t < j ==> bytes@[t] != 10,
                decreases blen - j,
            {
                j = j + 1;
            }
            proof {
                lemma_first_newline_from(sfx, 17);
                assert(forall|t: int| 0 <= t < sfx.len() ==> sfx[t] == bytes@[i + t]);
            }
            if j >= blen {
                proof {
                    assert(first_newline_from(sfx, 17) == sfx.len()) by {
                        let f = first_newline_from(sfx, 17);
                        if f < sfx.len() {
                            assert(sfx[f] == 10);
                            assert(bytes@[i + f] != 10);
                        }
                    }
                    if records_wf(bytes@, *table_schema) {
                        assert(false);
                    }
                }
                return Err("Truncated commit log record".to_owned());
            }
            proof {
                assert(first_newline_from(sfx, 17) == j - i) by {
                    let f = first_newline_from(sfx, 17);
                    if f < j - i {
                        assert(sfx[f] == 10);
                        assert(bytes@[i + f] != 10);
                    }
                    if f > j - i {
                        assert(sfx[j - i] == bytes@[j as int]);
                        assert(sfx[j - i] != 10);
                    }
                }
            }
            let pk_bytes_vec = vstd::slice::slice_to_vec(
                vstd::slice::slice_subrange(bytes, i + 17, j),
            );
            proof {
                assert(pk_bytes_vec@ =~= sfx.subrange(17, j - i));
            }
            let pk = match crate::exttrust::string_from_utf8(pk_bytes_vec) {
                Some(pk) => pk,
                None => {
                    proof {
                        if records_wf(bytes@, *table_schema) {
                            assert(vstd::utf8::valid_utf8(sfx.subrange(17, j - i)));
                            assert(false);
                        }
                    }
                    return Err("Malformed commit log record".to_owned());
                },
            };
            records.push(LogRecord::Delete(ts, pk));
            proof {
                let c = bytes@.subrange(i as int, j + 1);
                assert(c[0] == bytes@[i as int]);
                assert(forall|t: int| 0 <= t < c.len() ==> c[t] == bytes@[i + t]);
                assert(first_newline_from(c, 17) == j - i) by {
                    lemma_first_newline_from(c, 17);
                    let f = first_newline_from(c, 17);
                    assert(c[j - i] == bytes@[j as int]);
                    if f < j - i {
                        assert(c[f] == 10);
                        assert(bytes@[i + f] != 10);
                    }
                    if f > j - i {
                        assert(c[j - i] != 10);
                    }
                }
                assert(c.subrange(1, 17) =~= sfx.subrange(1, 17));
                assert(sfx.subrange(1, 17) =~= bytes@.subrange(i + 1, i + 17));
                assert(c.subrange(17, j - i) =~= sfx.subrange(17, j - i));
                assert(c.skip(j - i + 1) =~= Seq::<u8>::empty());
                let rec = LogRecord::Delete(ts, pk);
                assert(records_decode(c, *table_schema, seq![rec])) by {
                    assert(spec_row_size(*table_schema) >= 0);
                    assert(c[0] == OP_DELETE);
                    assert(c.len() == j - i + 1 >= 18);
                    assert(ts == crate::intbytes::be_val(c.subrange(1, 17)));
                    assert(vstd::utf8::encode_utf8(pk@) == c.subrange(17, j - i));
                    assert(seq![rec].drop_first() =~= Seq::<LogRecord>::empty());
                    assert(records_decode(
                        Seq::<u8>::empty(),
                        *table_schema,
                        Seq::<LogRecord>::empty(),
                    ));
                }
                assert(records_wf(c, *table_schema)) by {
                    assert(spec_row_size(*table_schema) >= 0);
                    assert(c[0] == OP_DELETE);
                    assert(vstd::utf8::valid_utf8(c.subrange(17, j - i)));
                    assert(records_wf(Seq::<u8>::empty(), *table_schema));
                }
                lemma_records_decode_append(
                    bytes@.take(i as int),
                    c,
                    *table_schema,
                    pre_records,
                    rec,
                );
                lemma_records_wf_append(bytes@.take(i as int), c, *table_schema);
                assert(bytes@.take(i as int) + c =~= bytes@.take(j + 1));
                assert(records@ =~= pre_records.push(rec));
                if records_wf(bytes@, *table_schema) {
                    assert(sfx.skip(j - i + 1) =~= bytes@.skip(j + 1));
                }
            }
            i = j + 1;
        } else {
            proof {
                if records_wf(bytes@, *table_schema) {
                    assert(false);
                }
            }
            return Err("Invalid operation code".to_owned());
        }
    }
    proof {
        assert(bytes@.take(blen as int) =~= bytes@);
    }
    Ok(records)
}

/// Replays records into a fresh memtable, in order, with last-writer-wins
/// semantics: the state left behind is exactly the replay fold of the
/// record list.
pub fn replay_records(records: Vec<LogRecord>, table_schema: &TableSchema) -> (r: Memtable)
    requires
        wf_schema(*table_schema),
        forall|i: int|
            0 <= i < records@.len() ==> match #[trigger] records@[i] {
                LogRecord::Insert(row) => row_wf_for(row, *table_schema),
                LogRecord::Delete(_, _) => true,
            },
    ensures
        r.wf(),
        r.view_map() == spec_replay(records@),
        forall|k: Seq<u8>|
            r.view_map().contains_key(k) ==> row_wf_for(#[trigger] r.view_map()[k], *table_schema),
{
    let schema = clone_schema(table_schema);
    proof {
        assert(wf_schema(schema));
        assert forall|row: Row| row_wf_for(row, schema) == row_wf_for(row, *table_schema) by {}
    }
    let mut table = crate::table::Table::new(Memtable::new(), schema, 0);
    let mut rest = records;
    let total: usize = rest.len();
    let ghost orig = rest@;
    let mut idx: usize = 0;
    proof {
        assert(orig.take(0) =~= Seq::<LogRecord>::empty());
        assert(rest@ =~= orig.skip(0));
    }
    while rest.len() > 0
        invariant
            wf_schema(*table_schema),
            wf_schema(table.table_schema),
            forall|row: Row|
                #[trigger] row_wf_for(row, table.table_schema) == row_wf_for(row, *table_schema),
            forall|j: int|
                0 <= j < orig.len() ==> match #[trigger] orig[j] {
                    LogRecord::Insert(row) => row_wf_for(row, *table_schema),
                    LogRecord::Delete(_, _) => true,
                },
            0 <= idx <= orig.len() == total,
            rest@ == orig.skip(idx as int),
            table.wf(),
            table.memtable.view_map() == spec_replay(orig.take(idx as int)),
        decreases rest@.len(),
    {
        let rec = rest.remove(0);
        proof {
            assert(rec == orig[idx as int]) by {
                assert(orig.skip(idx as int)[0] == orig[idx as int]);
            }
            assert(rest@ =~= orig.skip(idx as int + 1));
            assert(orig.take(idx + 1).drop_last() =~= orig.take(idx as int));
            assert(orig.take(idx + 1).last() == orig[idx as int]);
        }
        match rec {
            LogRecord::Insert(row) => {
                proof {
                    assert(row_wf_for(row, *table_schema)) by {
                        assert(orig[idx as int] == LogRecord::Insert(row));
                    }
                }
                table.insert_row(row, true);
                proof {
                    assert(table.memtable.view_map() =~= spec_replay(orig.take(idx + 1)));
                }
            },
            LogRecord::Delete(ts, pk) => {
                table.delete_row(&pk, Some(ts));
                proof {
                    assert(table.memtable.view_map() =~= spec_replay(orig.take(idx + 1)));
                }
            },
        }
        idx = idx + 1;
    }
    proof {
        assert(orig.take(idx as int) =~= orig) by {
            assert(rest@.len() == 0);
            assert(orig.skip(idx as int).len() == 0);
        }
    }
    let crate::table::Table { memtable, table_schema: _, commit_log_partition: _ } = table;
    memtable
}

/// Copies a schema: the same name, sort-key type and column list.
pub fn clone_schema(s: &TableSchema) -> (r: TableSchema)
    ensures
        r.name == s.name,
        r.sort_key_type == s.sort_key_type,
        r.columns@ == s.columns@,
{
    let mut columns: Vec<(String, crate::schema::Column)> = Vec::new();
    let n = s.columns.len();
    let mut i: usize = 0;
    while i < n
        invariant
            n == s.columns@.len(),
            0 <= i <= n,
            columns@ == s.columns@.take(i as int),
        decreases n - i,
    {
        columns.push((s.columns[i].0.clone(), s.columns[i].1));
        proof {
            assert(columns@ =~= s.columns@.take(i + 1));
        }
        i = i + 1;
    }
    proof {
        assert(s.columns@.take(n as int) =~= s.columns@);
    }
    TableSchema { name: s.name.clone(), sort_key_type: s.sort_key_type, columns }
}

/// Law: replay is last-writer-wins. Where one insert record carries a
/// strictly newer timestamp than every other record on its key, the
/// replayed state holds exactly that record's row, live.
pub proof fn lemma_replay_lww(records: Seq<LogRecord>, j: int, row: Row)
    requires
        0 <= j < records.len(),
        records[j] == LogRecord::Insert(row),
        !row.marked_for_deletion,
        forall|i: int|
            0 <= i < records.len() && i != j && record_key(#[trigger] records[i]) == pk_bytes(row)
                ==> record_ts(records[i]) < row.timestamp,
    ensures
        spec_replay(records).contains_key(pk_bytes(row)),
        spec_replay(records)[pk_bytes(row)].values == row.values,
        spec_replay(records)[pk_bytes(row)].timestamp == row.timestamp,
        !spec_replay(records)[pk_bytes(row)].marked_for_deletion,
    decreases records.len(),
{
    let k = pk_bytes(row);
    lemma_replay_ts_source(records, k);
    if j == records.len() - 1 {
        let m = spec_replay(records.drop_last());
        lemma_replay_ts_source(records.drop_last(), k);
        if m.contains_key(k) {
            let i = choose|i: int|
                0 <= i < records.drop_last().len() && record_key(
                    #[trigger] records.drop_last()[i],
                ) == k && record_ts(records.drop_last()[i]) >= m[k].timestamp;
            assert(records.drop_last()[i] == records[i]);
            assert(record_ts(records[i]) < row.timestamp);
            assert(m[k].timestamp < row.timestamp);
        }
    } else {
        assert forall|i: int|
            0 <= i < records.drop_last().len() && i != j && record_key(
                #[trigger] records.drop_last()[i],
            ) == k implies record_ts(records.drop_last()[i]) < row.timestamp by {
            assert(records.drop_last()[i] == records[i]);
        }
        assert(records.drop_last()[j] == records[j]);
        lemma_replay_lww(records.drop_last(), j, row);
        let m = spec_replay(records.drop_last());
        let cur = m[k];
        let last = records.last();
        assert(records[records.len() - 1] == last);
        if record_key(last) == k {
            assert(record_ts(last) < row.timestamp);
            match last {
                LogRecord::Insert(r2) => {
                    assert(cur.timestamp >= r2.timestamp);
                    assert(merged_replay(cur, r2) == cur);
                },
                LogRecord::Delete(ts, _) => {
                    assert(!(cur.timestamp < ts));
                },
            }
        }
    }
}

/// Every stored timestamp after a replay is some record's own timestamp
/// on that key.
proof fn lemma_replay_ts_source(records: Seq<LogRecord>, k: Seq<u8>)
    ensures
        spec_replay(records).contains_key(k) ==> exists|i: int|
            0 <= i < records.len() && record_key(#[trigger] records[i]) == k && record_ts(
                records[i],
            ) >= spec_replay(records)[k].timestamp,
    decreases records.len(),
{
    if records.len() > 0 {
        lemma_replay_ts_source(records.drop_last(), k);
        let m = spec_replay(records.drop_last());
        let m2 = spec_replay(records);
        let last = records.last();
        assert(records[records.len() - 1] == last);
        if m2.contains_key(k) {
            if record_key(last) == k {
                if m2[k] == m[k] || m2[k].timestamp <= record_ts(last) {
                    if m2[k].timestamp <= record_ts(last) {
                        assert(record_key(records[records.len() - 1]) == k);
                    } else {
                        let i = choose|i: int|
                            0 <= i < records.drop_last().len() && record_key(
                                #[trigger] records.drop_last()[i],
                            ) == k && record_ts(records.drop_last()[i]) >= m[k].timestamp;
                        assert(records.drop_last()[i] == records[i]);
                    }
                }
            } else {
                assert(m2[k] == m[k]);
                let i = choose|i: int|
                    0 <= i < records.drop_last().len() && record_key(
                        #[trigger] records.drop_last()[i],
                    ) == k && record_ts(records.drop_last()[i]) >= m[k].timestamp;
                assert(records.drop_last()[i] == records[i]);
            }
        }
    }
}

} // verus!
