//! Immutable on-disk segments: the partition index that heads a segment,
//! point lookup by binary search over the fixed-size row blocks of a
//! segment body, and the size-tiered grouping that drives compaction.
//! The process around the engine moves the bytes to and from disk; the
//! layout, the search and the merge live here.
use crate::codec::row_decodes;
use crate::schema::spec_row_size;
use crate::memtable::Memtable;
use crate::numfmt::{dec_str, parse_u64_dec, u64_to_dec_string};
use crate::order::{bytes_lt, compare_bytes, str_bytes, Rank};
use crate::partition::spec_partition;
use crate::row::Row;
use crate::scan::{join_char, split_string};
use crate::schema::{wf_schema, TableSchema};
use crate::table::row_wf_for;
use vstd::prelude::*;
use vstd::string::StrSliceExecFns;
use vstd::string::StringSliceAdditionalSpecFns;

verus! {

/// How many segments a size bucket must gather before it is compacted,
/// and the most it may gather into one pass.
pub const BUCKET_MIN_SEGMENTS: usize = 4;

/// Upper bound of one compaction pass.
pub const BUCKET_MAX_SEGMENTS: usize = 32;

/// Below this byte size segments group together regardless of ratio.
pub const SMALL_SSTABLE_BYTES: u64 = 52428800;

/// What a segment's file name carries: the table, the header length, the
/// row count, and the creation timestamp.
pub struct SSTableMetadata {
    pub file_path: String,
    pub table_name: String,
    pub partition_index_size: usize,
    pub number_of_rows: usize,
    pub timestamp: u128,
    pub file_size: u64,
}

/// The partition a row's hash key maps to.
pub open spec fn row_partition(r: Row, total: int) -> int {
    spec_partition(str_bytes(r.hash_key@), total)
}

/// A well-formed partition index for a row list: each entry points at
/// the first row of its partition, every row's partition has an entry,
/// and no partition has two.
pub open spec fn partition_index_wf(
    entries: Seq<(usize, usize)>,
    rows: Seq<Row>,
    total: int,
) -> bool {
    index_prefix_wf(entries, rows, rows.len() as int, total)
}

/// Computes the partition index of a drained row list: for each
/// partition owning at least one row, the position of its first row.
pub fn compute_partition_index(rows: &Vec<Row>, total_partitions: usize) -> (r: Vec<
    (usize, usize),
>)
    requires
        total_partitions > 0,
    ensures
        partition_index_wf(r@, rows@, total_partitions as int),
{
    let mut entries: Vec<(usize, usize)> = Vec::new();
    let n = rows.len();
    let mut i: usize = 0;
    while i < n
        invariant
            total_partitions > 0,
            n == rows@.len(),
            0 <= i <= n,
            index_prefix_wf(entries@, rows@, i as int, total_partitions as int),
        decreases n - i,
    {
        extend_partition_index(&mut entries, rows, i, total_partitions);
        i = i + 1;
    }
    entries
}

/// The partition index built so far covers the first `upto` rows.
pub open spec fn index_prefix_wf(
    entries: Seq<(usize, usize)>,
    rows: Seq<Row>,
    upto: int,
    total: int,
) -> bool {
    &&& forall|e: int|
        0 <= e < entries.len() ==> {
            &&& (#[trigger] entries[e]).1 < upto
            &&& row_partition(rows[entries[e].1 as int], total) == entries[e].0
            &&& forall|j: int|
                0 <= j < entries[e].1 ==> row_partition(#[trigger] rows[j], total) != entries[e].0
        }
    &&& forall|j: int|
        0 <= j < upto ==> exists|e: int|
            0 <= e < entries.len() && (#[trigger] entries[e]).0 == row_partition(
                #[trigger] rows[j],
                total,
            )
    &&& forall|e1: int, e2: int|
        0 <= e1 < e2 < entries.len() ==> (#[trigger] entries[e1]).0 != (#[trigger] entries[e2]).0
}

/// Takes the next row into the partition index: a fresh partition gains
/// an entry pointing here, a seen one is left alone.
#[verifier::rlimit(100)]
fn extend_partition_index(
    entries: &mut Vec<(usize, usize)>,
    rows: &Vec<Row>,
    i: usize,
    total_partitions: usize,
)
    requires
        total_partitions > 0,
        i < rows@.len(),
        index_prefix_wf(old(entries)@, rows@, i as int, total_partitions as int),
    ensures
        index_prefix_wf(final(entries)@, rows@, i as int + 1, total_partitions as int),
{
    let p = crate::partition::get_hash_key_target_partition(
        rows[i].hash_key.as_str(),
        total_partitions,
    );
    let seen = contains_partition(entries, p);
    if !seen {
        let ghost epre = entries@;
        entries.push((p, i));
        proof {
            let last = entries@.len() - 1;
            assert(entries@[last] == (p, i));
            assert(forall|f: int| 0 <= f < epre.len() ==> #[trigger] entries@[f] == epre[f]);
            assert forall|j: int|
                0 <= j < i + 1 implies exists|e: int|
                0 <= e < entries@.len() && (#[trigger] entries@[e]).0 == row_partition(
                    #[trigger] rows@[j],
                    total_partitions as int,
                ) by {
                if j < i {
                    let f = choose|f: int|
                        0 <= f < epre.len() && (#[trigger] epre[f]).0 == row_partition(
                            rows@[j],
                            total_partitions as int,
                        );
                    assert((#[trigger] entries@[f]).0 == row_partition(
                        rows@[j],
                        total_partitions as int,
                    ));
                } else {
                    assert((#[trigger] entries@[last]).0 == row_partition(
                        rows@[j],
                        total_partitions as int,
                    ));
                }
            }
            assert forall|e: int| 0 <= e < entries@.len() implies {
                &&& (#[trigger] entries@[e]).1 < i + 1
                &&& row_partition(rows@[entries@[e].1 as int], total_partitions as int)
                    == entries@[e].0
                &&& forall|j: int|
                    0 <= j < entries@[e].1 ==> row_partition(
                        #[trigger] rows@[j],
                        total_partitions as int,
                    ) != entries@[e].0
            } by {
                if e < last {
                    assert(entries@[e] == epre[e]);
                }
            }
        }
    } else {
        proof {
            assert forall|j: int|
                0 <= j < i + 1 implies exists|e: int|
                0 <= e < entries@.len() && (#[trigger] entries@[e]).0 == row_partition(
                    #[trigger] rows@[j],
                    total_partitions as int,
                ) by {}
        }
    }
}

/// Whether some entry already names this partition.
fn contains_partition(entries: &Vec<(usize, usize)>, p: usize) -> (r: bool)
    ensures
        r == exists|f: int| 0 <= f < entries@.len() && (#[trigger] entries@[f]).0 == p,
{
    let m = entries.len();
    let mut e: usize = 0;
    while e < m
        invariant
            m == entries@.len(),
            0 <= e <= m,
            forall|f: int| 0 <= f < e ==> (#[trigger] entries@[f]).0 != p,
        decreases m - e,
    {
        if entries[e].0 == p {
            proof {
                assert((#[trigger] entries@[e as int]).0 == p);
            }
            return true;
        }
        e = e + 1;
    }
    false
}

/// The text of one index entry: `partition:row`.
pub open spec fn spec_index_piece(e: (usize, usize)) -> Seq<char> {
    dec_str(e.0 as int) + seq![':'] + dec_str(e.1 as int)
}

/// The header text of a partition index: the entries joined by commas.
pub open spec fn spec_index_string(entries: Seq<(usize, usize)>) -> Seq<char> {
    join_char(entries.map_values(|e: (usize, usize)| spec_index_piece(e)), ',')
}

/// Renders a partition index as header text.
pub fn encode_partition_index(entries: &Vec<(usize, usize)>) -> (r: String)
    requires
        entries@.len() >= 1,
    ensures
        r@ == spec_index_string(entries@),
{
    let mut out = String::new();
    let n = entries.len();
    let mut i: usize = 0;
    let first = u64_to_dec_string(entries[0].0 as u64);
    out.append(first.as_str());
    proof {
        reveal_strlit(":");
        reveal_strlit(",");
    }
    out.append(":");
    let first_row = u64_to_dec_string(entries[0].1 as u64);
    out.append(first_row.as_str());
    proof {
        let pieces = entries@.map_values(|e: (usize, usize)| spec_index_piece(e));
        assert(pieces[0] == spec_index_piece(entries@[0]));
        assert(out@ =~= join_char(pieces.take(1), ','));
    }
    i = 1;
    while i < n
        invariant
            n == entries@.len(),
            1 <= i <= n,
            out@ == join_char(
                entries@.map_values(|e: (usize, usize)| spec_index_piece(e)).take(i as int),
                ',',
            ),
        decreases n - i,
    {
        proof {
            reveal_strlit(":");
            reveal_strlit(",");
        }
        out.append(",");
        let p = u64_to_dec_string(entries[i].0 as u64);
        out.append(p.as_str());
        out.append(":");
        let rno = u64_to_dec_string(entries[i].1 as u64);
        out.append(rno.as_str());
        proof {
            let pieces = entries@.map_values(|e: (usize, usize)| spec_index_piece(e));
            assert(pieces[i as int] == spec_index_piece(entries@[i as int]));
            crate::schema::lemma_join_take_step_pub(pieces, ',', i as int);
            assert(out@ =~= join_char(pieces.take(i + 1), ','));
        }
        i = i + 1;
    }
    proof {
        let pieces = entries@.map_values(|e: (usize, usize)| spec_index_piece(e));
        assert(pieces.take(n as int) =~= pieces);
    }
    out
}

/// An index entry's text holds digits and one colon, nothing else: in
/// particular no comma, and its first colon sits after the first number.
proof fn lemma_index_piece_shape(e: (usize, usize))
    ensures
        !crate::scan::has_char(spec_index_piece(e), ','),
        crate::scan::first_index(spec_index_piece(e), ':') == crate::numfmt::dec_str(
            e.0 as int,
        ).len(),
{
    let a = crate::numfmt::dec_str(e.0 as int);
    let b = crate::numfmt::dec_str(e.1 as int);
    crate::numfmt::lemma_dec_str_val(e.0 as int);
    crate::numfmt::lemma_dec_str_val(e.1 as int);
    let piece = spec_index_piece(e);
    assert forall|j: int| 0 <= j < piece.len() implies piece[j] != ',' by {
        if j < a.len() {
            assert(piece[j] == a[j]);
            assert(crate::numfmt::is_digit_char(a[j]));
        } else if j == a.len() {
            assert(piece[j] == ':');
        } else {
            assert(piece[j] == b[j - a.len() - 1]);
            assert(crate::numfmt::is_digit_char(b[j - a.len() - 1]));
        }
    }
    assert(!crate::scan::has_char(a, ':')) by {
        assert forall|j: int| 0 <= j < a.len() implies a[j] != ':' by {
            assert(crate::numfmt::is_digit_char(a[j]));
        }
    }
    crate::scan::lemma_first_index_concat(a, b, ':');
    assert(a + seq![':'] + b =~= piece);
}

/// Reads a partition index back from header text: comma-separated
/// `partition:row` pairs of decimal numbers. The rendering of any entry
/// list reads back as that list.
#[verifier::rlimit(100)]
pub fn parse_partition_index(header: &str) -> (r: Result<Vec<(u64, u64)>, String>)
    ensures
        r matches Ok(entries) ==> entries@.len() >= 1,
        forall|entries0: Seq<(usize, usize)>|
            entries0.len() >= 1 && header@ == spec_index_string(entries0) ==> (r matches Ok(
                entries,
            ) && entries@.len() == entries0.len() && (forall|i: int|
                0 <= i < entries0.len() ==> (#[trigger] entries@[i]).0 == entries0[i].0
                    && entries@[i].1 == entries0[i].1)),
{
    let pieces = split_string(header, ',');
    proof {
        assert forall|entries0: Seq<(usize, usize)>|
            entries0.len() >= 1 && header@ == spec_index_string(entries0) implies
            crate::schema::piece_views(pieces@) == entries0.map_values(
            |e: (usize, usize)| spec_index_piece(e),
        ) by {
            let p0 = entries0.map_values(|e: (usize, usize)| spec_index_piece(e));
            assert forall|i: int| 0 <= i < p0.len() implies !crate::scan::has_char(
                #[trigger] p0[i],
                ',',
            ) by {
                lemma_index_piece_shape(entries0[i]);
            }
            crate::scan::lemma_split_join(p0, ',');
            assert(crate::schema::piece_views(pieces@) == crate::scan::split_char(header@, ','));
        }
    }
    let mut entries: Vec<(u64, u64)> = Vec::new();
    let n = pieces.len();
    let mut i: usize = 0;
    while i < n
        invariant
            n == pieces@.len(),
            0 <= i <= n,
            entries@.len() == i,
            forall|entries0: Seq<(usize, usize)>|
                entries0.len() >= 1 && header@ == spec_index_string(entries0) ==> {
                    &&& crate::schema::piece_views(pieces@) == entries0.map_values(
                        |e: (usize, usize)| spec_index_piece(e),
                    )
                    &&& n == entries0.len()
                    &&& forall|t: int|
                        0 <= t < i ==> (#[trigger] entries@[t]).0 == entries0[t].0
                            && entries@[t].1 == entries0[t].1
                },
        decreases n - i,
    {
        let piece = &pieces[i];
        let plen = piece.unicode_len();
        let ghost epre = entries@;
        proof {
            assert forall|entries0: Seq<(usize, usize)>|
                entries0.len() >= 1 && header@ == spec_index_string(entries0) implies piece@
                == spec_index_piece(entries0[i as int]) by {
                assert(crate::schema::piece_views(pieces@)[i as int] == piece@);
            }
        }
        match crate::scan::find_char(piece.as_str(), ':') {
            None => {
                proof {
                    assert forall|entries0: Seq<(usize, usize)>|
                        entries0.len() >= 1 && header@ == spec_index_string(entries0) implies
                        false by {
                        lemma_index_piece_shape(entries0[i as int]);
                        crate::scan::lemma_first_index(piece@, ':');
                    }
                }
                return Err("Invalid partition index".to_owned());
            },
            Some(ci) => {
                let left = piece.substring_char(0, ci);
                let right = piece.substring_char(ci + 1, plen);
                proof {
                    assert forall|entries0: Seq<(usize, usize)>|
                        entries0.len() >= 1 && header@ == spec_index_string(entries0) implies
                        left@ == crate::numfmt::dec_str(entries0[i as int].0 as int) && right@
                        == crate::numfmt::dec_str(entries0[i as int].1 as int) by {
                        lemma_index_piece_shape(entries0[i as int]);
                        let a = crate::numfmt::dec_str(entries0[i as int].0 as int);
                        let b = crate::numfmt::dec_str(entries0[i as int].1 as int);
                        assert(left@ =~= a);
                        assert(right@ =~= b);
                    }
                }
                let p = match parse_u64_dec(left) {
                    Some(p) => p,
                    None => {
                        proof {
                            assert forall|entries0: Seq<(usize, usize)>|
                                entries0.len() >= 1 && header@ == spec_index_string(entries0)
                                implies false by {
                                crate::numfmt::lemma_dec_str_val(entries0[i as int].0 as int);
                            }
                        }
                        return Err("Invalid partition index".to_owned());
                    },
                };
                let rno = match parse_u64_dec(right) {
                    Some(rno) => rno,
                    None => {
                        proof {
                            assert forall|entries0: Seq<(usize, usize)>|
                                entries0.len() >= 1 && header@ == spec_index_string(entries0)
                                implies false by {
                                crate::numfmt::lemma_dec_str_val(entries0[i as int].1 as int);
                            }
                        }
                        return Err("Invalid partition index".to_owned());
                    },
                };
                entries.push((p, rno));
                proof {
                    assert forall|entries0: Seq<(usize, usize)>|
                        entries0.len() >= 1 && header@ == spec_index_string(entries0) implies
                        forall|t: int|
                        0 <= t < i + 1 ==> (#[trigger] entries@[t]).0 == entries0[t].0
                            && entries@[t].1 == entries0[t].1 by {
                        crate::numfmt::lemma_dec_str_val(entries0[i as int].0 as int);
                        crate::numfmt::lemma_dec_str_val(entries0[i as int].1 as int);
                        assert(forall|t: int| 0 <= t < i ==> #[trigger] entries@[t] == epre[t]);
                        assert(entries@[i as int] == (p, rno));
                    }
                }
            },
        }
        i = i + 1;
    }
    Ok(entries)
}

/// Whether the block at `i` reads back as a row with this primary key.
pub open spec fn block_has_pk(bytes: Seq<u8>, s: TableSchema, i: int, pk: Seq<char>) -> bool {
    exists|row: Row|
        row_decodes(#[trigger] block_at(bytes, s, i), s, row) && row.primary_key@ == pk
}

/// The bytes of block `i` of a segment body.
pub open spec fn block_at(bytes: Seq<u8>, s: TableSchema, i: int) -> Seq<u8> {
    bytes.subrange(i * spec_row_size(s), (i + 1) * spec_row_size(s))
}

/// A segment body whose blocks stand in strictly ascending primary-key
/// order (as their decoded rows read).
pub open spec fn body_sorted(bytes: Seq<u8>, s: TableSchema, num_rows: int) -> bool {
    forall|i: int, j: int, pi: Seq<char>, pj: Seq<char>|
        0 <= i < j < num_rows && block_has_pk(bytes, s, i, pi) && block_has_pk(bytes, s, j, pj)
            ==> bytes_lt(str_bytes(pi), str_bytes(pj))
}

/// Point lookup in a segment body: binary search over the row blocks of
/// `[left, right]`, by primary key. On a hit the decoded row comes back,
/// tombstone included; on a miss, no block in the range holds the key.
#[verifier::rlimit(100)]
pub fn find_row_in_body(
    body: &[u8],
    table_schema: &TableSchema,
    primary_key: &str,
    left: usize,
    right: usize,
    num_rows: usize,
) -> (r: Result<Option<Row>, String>)
    requires
        wf_schema(*table_schema),
        body@.len() == num_rows * spec_row_size(*table_schema),
        num_rows == 0 || (left <= right < num_rows),
        body_sorted(body@, *table_schema, num_rows as int),
    ensures
        r matches Ok(Some(row)) ==> row.primary_key@ == primary_key@ && exists|i: int|
            left <= i <= right && row_decodes(
                #[trigger] block_at(body@, *table_schema, i),
                *table_schema,
                row,
            ),
        r matches Ok(None) ==> forall|i: int|
            left <= i <= right && i < num_rows ==> !block_has_pk(
                body@,
                *table_schema,
                i,
                primary_key@,
            ),
        (forall|i: int|
            left <= i <= right && i < num_rows ==> crate::codec::row_decodable(
                block_at(body@, *table_schema, i),
                *table_schema,
            )) ==> r is Ok,
{
    if num_rows == 0 {
        return Ok(None);
    }
    proof {
        crate::schema::lemma_cols_size_bound(table_schema.columns@);
    }
    let row_size = table_schema.row_byte_size();
    let blen: usize = body.len();
    let mut lo: usize = left;
    let mut hi: usize = right + 1;
    while lo < hi
        invariant
            wf_schema(*table_schema),
            row_size == spec_row_size(*table_schema),
            body@.len() == num_rows * spec_row_size(*table_schema),
            left <= right < num_rows,
            left <= lo <= hi <= right + 1,
            blen == body@.len(),
            body_sorted(body@, *table_schema, num_rows as int),
            forall|i: int|
                left <= i < lo ==> !block_has_pk(body@, *table_schema, i, primary_key@),
            forall|i: int|
                hi <= i <= right ==> !block_has_pk(body@, *table_schema, i, primary_key@),
        decreases hi - lo,
    {
        let mid = lo + (hi - lo) / 2;
        proof {
            assert(mid < num_rows);
            assert((mid + 1) * spec_row_size(*table_schema) <= num_rows * spec_row_size(
                *table_schema,
            )) by (nonlinear_arith)
                requires
                    mid + 1 <= num_rows,
                    spec_row_size(*table_schema) >= 0,
            ;
            assert(mid * spec_row_size(*table_schema) >= 0) by (nonlinear_arith)
                requires
                    mid >= 0,
                    spec_row_size(*table_schema) >= 0,
            ;
            assert(mid * spec_row_size(*table_schema) <= (mid + 1) * spec_row_size(*table_schema))
                by (nonlinear_arith)
                requires
                    mid >= 0,
                    spec_row_size(*table_schema) >= 0,
            ;
        }
        proof {
            assert((mid + 1) * spec_row_size(*table_schema) == mid * spec_row_size(*table_schema)
                + spec_row_size(*table_schema)) by (nonlinear_arith);
        }
        let block = vstd::slice::slice_subrange(body, mid * row_size, (mid + 1) * row_size);
        proof {
            assert(block@ =~= block_at(body@, *table_schema, mid as int));
            assert(block@.len() == spec_row_size(*table_schema));
        }
        let row = match crate::codec::decode_row(block, table_schema) {
            Ok(row) => row,
            Err(e) => {
                proof {
                    if forall|i: int|
                        left <= i <= right && i < num_rows ==> crate::codec::row_decodable(
                            block_at(body@, *table_schema, i),
                            *table_schema,
                        ) {
                        assert(crate::codec::row_decodable(
                            block_at(body@, *table_schema, mid as int),
                            *table_schema,
                        ));
                    }
                }
                return Err(e);
            },
        };
        let cmp = compare_bytes(primary_key.as_bytes(), row.primary_key.as_str().as_bytes());
        if cmp == Rank::Equal {
            proof {
                vstd::utf8::encode_utf8_decode_utf8(primary_key@);
                vstd::utf8::encode_utf8_decode_utf8(row.primary_key@);
            }
            return Ok(Some(row));
        } else if cmp == Rank::Below {
            // target is below this block: everything from mid up is too big
            proof {
                lemma_no_pk_from(body@, *table_schema, num_rows as int, mid as int, row, primary_key@);
            }
            hi = mid;
        } else {
            proof {
                lemma_no_pk_upto(body@, *table_schema, num_rows as int, mid as int, row, primary_key@);
            }
            lo = mid + 1;
        }
    }
    Ok(None)
}

/// In a sorted body, a key below block `mid`'s key appears nowhere at or
/// beyond `mid`.
proof fn lemma_no_pk_from(
    bytes: Seq<u8>,
    s: TableSchema,
    num_rows: int,
    mid: int,
    row: Row,
    pk: Seq<char>,
)
    requires
        body_sorted(bytes, s, num_rows),
        0 <= mid < num_rows,
        row_decodes(block_at(bytes, s, mid), s, row),
        bytes_lt(str_bytes(pk), str_bytes(row.primary_key@)),
    ensures
        forall|i: int| mid <= i < num_rows ==> !block_has_pk(bytes, s, i, pk),
{
    assert forall|i: int| mid <= i < num_rows implies !block_has_pk(bytes, s, i, pk) by {
        if block_has_pk(bytes, s, i, pk) {
            if i == mid {
                lemma_block_pk_unique(bytes, s, mid, pk, row);
                crate::order::lemma_bytes_lt_irrefl(str_bytes(pk));
            } else {
                assert(block_has_pk(bytes, s, mid, row.primary_key@));
                assert(bytes_lt(str_bytes(row.primary_key@), str_bytes(pk)));
                crate::order::lemma_bytes_lt_trans(
                    str_bytes(pk),
                    str_bytes(row.primary_key@),
                    str_bytes(pk),
                );
                crate::order::lemma_bytes_lt_irrefl(str_bytes(pk));
            }
        }
    }
}

/// In a sorted body, a key above block `mid`'s key appears nowhere at or
/// before `mid`.
proof fn lemma_no_pk_upto(
    bytes: Seq<u8>,
    s: TableSchema,
    num_rows: int,
    mid: int,
    row: Row,
    pk: Seq<char>,
)
    requires
        body_sorted(bytes, s, num_rows),
        0 <= mid < num_rows,
        row_decodes(block_at(bytes, s, mid), s, row),
        bytes_lt(str_bytes(row.primary_key@), str_bytes(pk)),
    ensures
        forall|i: int| 0 <= i <= mid ==> !block_has_pk(bytes, s, i, pk),
{
    assert forall|i: int| 0 <= i <= mid implies !block_has_pk(bytes, s, i, pk) by {
        if block_has_pk(bytes, s, i, pk) {
            if i == mid {
                lemma_block_pk_unique(bytes, s, mid, pk, row);
                crate::order::lemma_bytes_lt_irrefl(str_bytes(pk));
            } else {
                assert(block_has_pk(bytes, s, mid, row.primary_key@));
                assert(bytes_lt(str_bytes(pk), str_bytes(row.primary_key@)));
                crate::order::lemma_bytes_lt_trans(
                    str_bytes(pk),
                    str_bytes(row.primary_key@),
                    str_bytes(pk),
                );
                crate::order::lemma_bytes_lt_irrefl(str_bytes(pk));
            }
        }
    }
}

/// Two rows reading back from the same block carry the same primary key,
/// so a block holds at most one key.
proof fn lemma_block_pk_unique(bytes: Seq<u8>, s: TableSchema, i: int, pk: Seq<char>, row: Row)
    requires
        row_decodes(block_at(bytes, s, i), s, row),
        block_has_pk(bytes, s, i, pk),
    ensures
        row.primary_key@ == pk,
{
    let other = choose|other: Row|
        row_decodes(block_at(bytes, s, i), s, other) && other.primary_key@ == pk;
    crate::codec::lemma_decodes_same_pk(block_at(bytes, s, i), s, row, other);
}

/// The key-to-record state that merging segment rows in order leaves
/// behind: for each key, whichever record carries the greatest
/// timestamp, tombstone flag and all.
pub open spec fn spec_compact_merge(rows: Seq<Row>) -> Map<Seq<u8>, Row>
    decreases rows.len(),
{
    if rows.len() == 0 {
        Map::empty()
    } else {
        let m = spec_compact_merge(rows.drop_last());
        let row = rows.last();
        if m.contains_key(crate::memtable::pk_bytes(row)) {
            m.insert(
                crate::memtable::pk_bytes(row),
                crate::memtable::newest_of(m[crate::memtable::pk_bytes(row)], row),
            )
        } else {
            m.insert(crate::memtable::pk_bytes(row), row)
        }
    }
}

/// Merges segment rows as compaction does: whole-record last-writer-wins
/// by timestamp. Tombstoned records survive the merge as tombstones —
/// a deleted key stays deleted in the merged segment.
pub fn merge_rows_for_compaction(rows: Vec<Row>, table_schema: &TableSchema) -> (r: Memtable)
    requires
        wf_schema(*table_schema),
        forall|i: int| 0 <= i < rows@.len() ==> row_wf_for(#[trigger] rows@[i], *table_schema),
    ensures
        r.wf(),
        r.view_map() == spec_compact_merge(rows@),
        forall|k: Seq<u8>|
            r.view_map().contains_key(k) ==> row_wf_for(#[trigger] r.view_map()[k], *table_schema),
{
    let mut memtable = Memtable::new();
    let mut rest = rows;
    let total: usize = rest.len();
    let ghost orig = rest@;
    let mut idx: usize = 0;
    while rest.len() > 0
        invariant
            wf_schema(*table_schema),
            forall|i: int| 0 <= i < orig.len() ==> row_wf_for(#[trigger] orig[i], *table_schema),
            0 <= idx <= orig.len() == total,
            rest@ == orig.skip(idx as int),
            memtable.wf(),
            memtable.view_map() == spec_compact_merge(orig.take(idx as int)),
            forall|k: Seq<u8>|
                memtable.view_map().contains_key(k) ==> row_wf_for(
                    #[trigger] memtable.view_map()[k],
                    *table_schema,
                ),
        decreases rest@.len(),
    {
        let row = rest.remove(0);
        let ghost rowg = row;
        let ghost mpre = memtable.view_map();
        proof {
            assert(row == orig[idx as int]) by {
                assert(orig.skip(idx as int)[0] == orig[idx as int]);
            }
            assert(rest@ =~= orig.skip(idx as int + 1));
            assert(orig.take(idx + 1).drop_last() =~= orig.take(idx as int));
            assert(orig.take(idx + 1).last() == orig[idx as int]);
        }
        memtable.absorb_newest(row);
        proof {
            assert(memtable.view_map() =~= spec_compact_merge(orig.take(idx + 1)));
            assert forall|k: Seq<u8>| memtable.view_map().contains_key(k) implies row_wf_for(
                #[trigger] memtable.view_map()[k],
                *table_schema,
            ) by {
                if k == crate::memtable::pk_bytes(rowg) {
                    assert(row_wf_for(rowg, *table_schema));
                    if mpre.contains_key(k) {
                        assert(row_wf_for(mpre[k], *table_schema));
                    }
                } else {
                    assert(memtable.view_map()[k] == mpre[k]);
                }
            }
        }
        idx = idx + 1;
    }
    proof {
        assert(orig.take(idx as int) =~= orig) by {
            assert(orig.skip(idx as int).len() == 0);
        }
    }
    memtable
}

/// Law: the compaction merge is last-writer-wins with tombstones
/// retained. Where one record carries a strictly greater timestamp than
/// every other record on its key, the merged state holds exactly that
/// record — tombstone flag included, so a deletion newer than every
/// live write survives the merge as a deletion.
pub proof fn lemma_compact_merge_lww(rows: Seq<Row>, j: int)
    requires
        0 <= j < rows.len(),
        forall|i: int|
            0 <= i < rows.len() && i != j && crate::memtable::pk_bytes(#[trigger] rows[i])
                == crate::memtable::pk_bytes(rows[j]) ==> rows[i].timestamp < rows[j].timestamp,
    ensures
        spec_compact_merge(rows).contains_key(crate::memtable::pk_bytes(rows[j])),
        spec_compact_merge(rows)[crate::memtable::pk_bytes(rows[j])] == rows[j],
    decreases rows.len(),
{
    let k = crate::memtable::pk_bytes(rows[j]);
    lemma_compact_merge_ts_source(rows, k);
    if j == rows.len() - 1 {
        let m = spec_compact_merge(rows.drop_last());
        lemma_compact_merge_ts_source(rows.drop_last(), k);
        if m.contains_key(k) {
            let i = choose|i: int|
                0 <= i < rows.drop_last().len() && crate::memtable::pk_bytes(
                    #[trigger] rows.drop_last()[i],
                ) == k && rows.drop_last()[i].timestamp >= m[k].timestamp;
            assert(rows.drop_last()[i] == rows[i]);
            assert(rows[i].timestamp < rows[j].timestamp);
        }
    } else {
        assert forall|i: int|
            0 <= i < rows.drop_last().len() && i != j && crate::memtable::pk_bytes(
                #[trigger] rows.drop_last()[i],
            ) == k implies rows.drop_last()[i].timestamp < rows[j].timestamp by {
            assert(rows.drop_last()[i] == rows[i]);
        }
        assert(rows.drop_last()[j] == rows[j]);
        lemma_compact_merge_lww(rows.drop_last(), j);
        let last = rows.last();
        assert(rows[rows.len() - 1] == last);
        if crate::memtable::pk_bytes(last) == k {
            assert(last.timestamp < rows[j].timestamp);
            assert(crate::memtable::newest_of(rows[j], last) == rows[j]);
        }
    }
}

/// Every stored timestamp after a merge is some input record's own
/// timestamp on that key.
proof fn lemma_compact_merge_ts_source(rows: Seq<Row>, k: Seq<u8>)
    ensures
        spec_compact_merge(rows).contains_key(k) ==> exists|i: int|
            0 <= i < rows.len() && crate::memtable::pk_bytes(#[trigger] rows[i]) == k && rows[
                i
            ].timestamp >= spec_compact_merge(rows)[k].timestamp,
    decreases rows.len(),
{
    if rows.len() > 0 {
        lemma_compact_merge_ts_source(rows.drop_last(), k);
        let m = spec_compact_merge(rows.drop_last());
        let m2 = spec_compact_merge(rows);
        let last = rows.last();
        assert(rows[rows.len() - 1] == last);
        if m2.contains_key(k) {
            if crate::memtable::pk_bytes(last) == k {
                if m2[k] == last {
                    assert(crate::memtable::pk_bytes(rows[rows.len() - 1]) == k);
                } else {
                    let i = choose|i: int|
                        0 <= i < rows.drop_last().len() && crate::memtable::pk_bytes(
                            #[trigger] rows.drop_last()[i],
                        ) == k && rows.drop_last()[i].timestamp >= m[k].timestamp;
                    assert(rows.drop_last()[i] == rows[i]);
                }
            } else {
                assert(m2[k] == m[k]);
                let i = choose|i: int|
                    0 <= i < rows.drop_last().len() && crate::memtable::pk_bytes(
                        #[trigger] rows.drop_last()[i],
                    ) == k && rows.drop_last()[i].timestamp >= m[k].timestamp;
                assert(rows.drop_last()[i] == rows[i]);
            }
        }
    }
}

/// Segment `j` stands somewhere in the buckets.
pub open spec fn seg_placed(buckets: Seq<Seq<usize>>, j: int) -> bool {
    exists|b: int, e: int|
        0 <= b < buckets.len() && 0 <= e < buckets[b].len() && (#[trigger] buckets[b][e]) == j
}

/// Segment `j` stands somewhere in the bucket vectors.
pub open spec fn seg_placed_vecs(buckets: Seq<Vec<usize>>, j: int) -> bool {
    exists|b: int, e: int|
        0 <= b < buckets.len() && 0 <= e < buckets[b]@.len() && (#[trigger] buckets[b]@[e]) == j
}

/// Every listed position is a valid segment index, each segment lands in
/// exactly one place, and no bucket is empty.
pub open spec fn buckets_wf(buckets: Seq<Seq<usize>>, n: int) -> bool {
    &&& forall|b: int, e: int|
        0 <= b < buckets.len() && 0 <= e < buckets[b].len() ==> (#[trigger] buckets[b][e]) < n
    &&& forall|i: int| 0 <= i < n ==> #[trigger] seg_placed(buckets, i)
    &&& forall|b1: int, e1: int, b2: int, e2: int|
        0 <= b1 < buckets.len() && 0 <= e1 < buckets[b1].len() && 0 <= b2 < buckets.len() && 0
            <= e2 < buckets[b2].len() && (b1 != b2 || e1 != e2) ==> (#[trigger] buckets[b1][e1])
            != (#[trigger] buckets[b2][e2])
    &&& forall|b: int| 0 <= b < buckets.len() ==> (#[trigger] buckets[b]).len() >= 1
}

/// The size rule, over the mathematical sizes: within half to three
/// halves of the bucket's average, or small alongside a small average.
pub open spec fn spec_fits_rule(size: int, total: int, len: int) -> bool {
    (2 * size * len >= total && 2 * size * len < 3 * total) || (size < SMALL_SSTABLE_BYTES
        && total < SMALL_SSTABLE_BYTES * len)
}

/// The first bucket from `b` on whose size rule admits the segment.
pub open spec fn spec_pick_bucket(
    size: int,
    totals: Seq<int>,
    lens: Seq<int>,
    b: int,
) -> Option<int>
    decreases totals.len() - b,
{
    if b < 0 || b >= totals.len() {
        None
    } else if spec_fits_rule(size, totals[b], lens[b]) {
        Some(b)
    } else {
        spec_pick_bucket(size, totals, lens, b + 1)
    }
}

/// The grouping state after the first `i` segments: the buckets and
/// their running byte totals, each segment joining the first admitting
/// bucket or opening its own.
pub open spec fn spec_group_state(sizes: Seq<int>, i: int) -> (Seq<Seq<usize>>, Seq<int>)
    decreases i,
{
    if i <= 0 {
        (Seq::empty(), Seq::empty())
    } else {
        let (bs, ts) = spec_group_state(sizes, i - 1);
        let lens = bs.map_values(|b: Seq<usize>| b.len() as int);
        match spec_pick_bucket(sizes[i - 1], ts, lens, 0) {
            Some(b) => (
                bs.update(b, bs[b].push((i - 1) as usize)),
                ts.update(b, ts[b] + sizes[i - 1]),
            ),
            None => (bs.push(seq![(i - 1) as usize]), ts.push(sizes[i - 1])),
        }
    }
}

/// Groups segments into size-tiered buckets, in the order given (the
/// compactor hands them over largest first): each segment joins the
/// first bucket whose size rule admits it, or opens a bucket of its own.
/// Every segment lands in exactly one bucket, and the grouping is
/// exactly the greedy fold of the size rule.
#[verifier::rlimit(100)]
pub fn group_segments_by_size(sizes: &Vec<u64>) -> (r: Vec<Vec<usize>>)
    requires
        sizes@.len() <= 0x10000,
        forall|i: int| 0 <= i < sizes@.len() ==> (#[trigger] sizes@[i]) <= 0x100_0000_0000,
    ensures
        buckets_wf(r@.map_values(|b: Vec<usize>| b@), sizes@.len() as int),
        r@.map_values(|b: Vec<usize>| b@) == spec_group_state(
            sizes@.map_values(|z: u64| z as int),
            sizes@.len() as int,
        ).0,
{
    let mut buckets: Vec<Vec<usize>> = Vec::new();
    let mut totals: Vec<u64> = Vec::new();
    let n = sizes.len();
    let mut i: usize = 0;
    while i < n
        invariant
            n == sizes@.len() <= 0x10000,
            forall|j: int| 0 <= j < sizes@.len() ==> (#[trigger] sizes@[j]) <= 0x100_0000_0000,
            0 <= i <= n,
            totals@.len() == buckets@.len(),
            forall|b: int|
                0 <= b < buckets@.len() ==> 1 <= (#[trigger] buckets@[b]@.len()) <= i && totals@[b]
                    <= buckets@[b]@.len() * 0x100_0000_0000,
            forall|b: int, e: int|
                0 <= b < buckets@.len() && 0 <= e < buckets@[b]@.len() ==> (
                #[trigger] buckets@[b]@[e]) < i,
            forall|j: int| 0 <= j < i ==> #[trigger] seg_placed_vecs(buckets@, j),
            buckets@.map_values(|b: Vec<usize>| b@) == spec_group_state(
                sizes@.map_values(|z: u64| z as int),
                i as int,
            ).0,
            totals@.map_values(|t: u64| t as int) == spec_group_state(
                sizes@.map_values(|z: u64| z as int),
                i as int,
            ).1,
            forall|b1: int, e1: int, b2: int, e2: int|
                0 <= b1 < buckets@.len() && 0 <= e1 < buckets@[b1]@.len() && 0 <= b2
                    < buckets@.len() && 0 <= e2 < buckets@[b2]@.len() && (b1 != b2 || e1 != e2)
                    ==> (#[trigger] buckets@[b1]@[e1]) != (#[trigger] buckets@[b2]@[e2]),
        decreases n - i,
    {
        let size = sizes[i];
        let m = buckets.len();
        let chosen: usize = match pick_bucket(size, &totals, &buckets) {
            Some(b) => b,
            None => m,
        };
        proof {
            assert(i * 0x100_0000_0000 + 0x100_0000_0000 == (i + 1) * 0x100_0000_0000)
                by (nonlinear_arith);
        }
        if chosen < m {
            let ghost bpre = buckets@;
            let mut bucket = buckets.remove(chosen);
            bucket.push(i);
            buckets.insert(chosen, bucket);
            let total = totals[chosen];
            proof {
                assert(total <= 0x10000 * 0x100_0000_0000) by (nonlinear_arith)
                    requires
                        total <= bpre[chosen as int]@.len() * 0x100_0000_0000,
                        bpre[chosen as int]@.len() <= 0x10000,
                ;
            }
            totals.set(chosen, total + size);
            proof {
                assert(buckets@ =~= bpre.update(chosen as int, buckets@[chosen as int]));
                assert(buckets@[chosen as int]@ =~= bpre[chosen as int]@.push(i));
                assert((bpre[chosen as int]@.len() + 1) * 0x100_0000_0000 == bpre[
                chosen as int]@.len() * 0x100_0000_0000 + 0x100_0000_0000) by (nonlinear_arith);
                let last = buckets@[chosen as int]@.len() - 1;
                assert forall|j: int| 0 <= j < i + 1 implies #[trigger] seg_placed_vecs(
                    buckets@,
                    j,
                ) by {
                    if j < i {
                        assert(seg_placed_vecs(bpre, j));
                        let (b2, e2): (int, int) = choose|b2: int, e2: int|
                            0 <= b2 < bpre.len() && 0 <= e2 < bpre[b2]@.len() && (
                            #[trigger] bpre[b2]@[e2]) == j;
                        assert(buckets@[b2]@[e2] == j);
                    } else {
                        assert(buckets@[chosen as int]@[last] == j);
                    }
                }
                assert forall|b1: int, e1: int, b2: int, e2: int|
                    0 <= b1 < buckets@.len() && 0 <= e1 < buckets@[b1]@.len() && 0 <= b2
                        < buckets@.len() && 0 <= e2 < buckets@[b2]@.len() && (b1 != b2 || e1 != e2)
                    implies (#[trigger] buckets@[b1]@[e1]) != (#[trigger] buckets@[b2]@[e2]) by {
                    if b1 == chosen && e1 == last {
                        assert(buckets@[b1]@[e1] == i);
                        assert(buckets@[b2]@[e2] == bpre[b2]@[e2]);
                    } else if b2 == chosen && e2 == last {
                        assert(buckets@[b2]@[e2] == i);
                        assert(buckets@[b1]@[e1] == bpre[b1]@[e1]);
                    } else {
                        assert(buckets@[b1]@[e1] == bpre[b1]@[e1]);
                        assert(buckets@[b2]@[e2] == bpre[b2]@[e2]);
                    }
                }
            }
        } else {
            let ghost bpre = buckets@;
            let mut fresh: Vec<usize> = Vec::new();
            fresh.push(i);
            buckets.push(fresh);
            totals.push(size);
            proof {
                assert(buckets@[buckets@.len() - 1]@ =~= seq![i as usize]);
                assert(forall|b2: int|
                    0 <= b2 < bpre.len() ==> #[trigger] buckets@[b2] == bpre[b2]);
                let nb = buckets@.len() - 1;
                assert forall|j: int| 0 <= j < i + 1 implies #[trigger] seg_placed_vecs(
                    buckets@,
                    j,
                ) by {
                    if j < i {
                        assert(seg_placed_vecs(bpre, j));
                        let (b2, e2): (int, int) = choose|b2: int, e2: int|
                            0 <= b2 < bpre.len() && 0 <= e2 < bpre[b2]@.len() && (
                            #[trigger] bpre[b2]@[e2]) == j;
                        assert(buckets@[b2]@[e2] == j);
                    } else {
                        assert(buckets@[nb]@[0] == j);
                    }
                }
                assert forall|b1: int, e1: int, b2: int, e2: int|
                    0 <= b1 < buckets@.len() && 0 <= e1 < buckets@[b1]@.len() && 0 <= b2
                        < buckets@.len() && 0 <= e2 < buckets@[b2]@.len() && (b1 != b2 || e1 != e2)
                    implies (#[trigger] buckets@[b1]@[e1]) != (#[trigger] buckets@[b2]@[e2]) by {
                    if b1 == nb {
                        assert(buckets@[b1]@[e1] == i);
                        assert(b2 < nb);
                        assert(buckets@[b2]@[e2] == bpre[b2]@[e2]);
                    } else if b2 == nb {
                        assert(buckets@[b2]@[e2] == i);
                        assert(b1 < nb);
                        assert(buckets@[b1]@[e1] == bpre[b1]@[e1]);
                    } else {
                        assert(buckets@[b1]@[e1] == bpre[b1]@[e1]);
                        assert(buckets@[b2]@[e2] == bpre[b2]@[e2]);
                    }
                }
            }
        }
        i = i + 1;
    }
    proof {
        let view = buckets@.map_values(|b: Vec<usize>| b@);
        assert(forall|b: int, e: int|
            0 <= b < view.len() && 0 <= e < view[b].len() ==> (#[trigger] view[b][e]) == (
            buckets@[b]@[e]));
        assert forall|j: int| 0 <= j < sizes@.len() implies #[trigger] seg_placed(view, j) by {
            assert(seg_placed_vecs(buckets@, j));
            let (b2, e2): (int, int) = choose|b2: int, e2: int|
                0 <= b2 < buckets@.len() && 0 <= e2 < buckets@[b2]@.len() && (
                #[trigger] buckets@[b2]@[e2]) == j;
            assert(view[b2][e2] == j);
        }
        assert(buckets_wf(view, sizes@.len() as int));
    }
    buckets
}

/// The first bucket whose size rule admits a segment of this size.
fn pick_bucket(size: u64, totals: &Vec<u64>, buckets: &Vec<Vec<usize>>) -> (r: Option<usize>)
    requires
        totals@.len() == buckets@.len(),
        size <= 0x100_0000_0000,
        forall|b: int|
            0 <= b < buckets@.len() ==> 1 <= (#[trigger] buckets@[b]@.len()) <= 0x10000
                && totals@[b] <= buckets@[b]@.len() * 0x100_0000_0000,
    ensures
        r matches Some(b) ==> b < buckets@.len(),
        r is Some <==> spec_pick_bucket(
            size as int,
            totals@.map_values(|t: u64| t as int),
            buckets@.map_values(|b: Vec<usize>| b@).map_values(|b: Seq<usize>| b.len() as int),
            0,
        ) is Some,
        r matches Some(b) ==> spec_pick_bucket(
            size as int,
            totals@.map_values(|t: u64| t as int),
            buckets@.map_values(|b: Vec<usize>| b@).map_values(|b: Seq<usize>| b.len() as int),
            0,
        ) == Some(b as int),
{
    let ghost tints = totals@.map_values(|t: u64| t as int);
    let ghost lints = buckets@.map_values(|b: Vec<usize>| b@).map_values(
        |b: Seq<usize>| b.len() as int,
    );
    let m = buckets.len();
    let mut b: usize = 0;
    while b < m
        invariant
            m == buckets@.len() == totals@.len(),
            0 <= b <= m,
            size <= 0x100_0000_0000,
            tints == totals@.map_values(|t: u64| t as int),
            lints == buckets@.map_values(|b: Vec<usize>| b@).map_values(
                |b: Seq<usize>| b.len() as int,
            ),
            forall|b2: int|
                0 <= b2 < buckets@.len() ==> 1 <= (#[trigger] buckets@[b2]@.len()) <= 0x10000
                    && totals@[b2] <= buckets@[b2]@.len() * 0x100_0000_0000,
            spec_pick_bucket(size as int, tints, lints, 0) == spec_pick_bucket(
                size as int,
                tints,
                lints,
                b as int,
            ),
        decreases m - b,
    {
        proof {
            assert(totals@[b as int] <= 0x10000 * 0x100_0000_0000) by (nonlinear_arith)
                requires
                    totals@[b as int] <= buckets@[b as int]@.len() * 0x100_0000_0000,
                    buckets@[b as int]@.len() <= 0x10000,
            ;
            assert(tints[b as int] == totals@[b as int] as int);
            assert(lints[b as int] == buckets@[b as int]@.len() as int);
        }
        if size_fits_bucket(size, totals[b], buckets[b].len()) {
            proof {
                assert(spec_fits_rule(size as int, tints[b as int], lints[b as int]));
            }
            return Some(b);
        }
        proof {
            assert(!spec_fits_rule(size as int, tints[b as int], lints[b as int]));
        }
        b = b + 1;
    }
    None
}

/// Position `p` stands somewhere in the order.
pub open spec fn position_listed(order: Seq<usize>, p: int) -> bool {
    exists|i: int| 0 <= i < order.len() && (#[trigger] order[i]) == p
}

/// The `[left, right]` row bounds the partition index gives a partition:
/// its entry's row first, up to just before the next entry's row (or
/// the last row). The bounds confine the search only where each
/// partition's rows sit together; a caller may always widen to the
/// whole body, which stays sound.
pub fn partition_bounds(entries: &Vec<(u64, u64)>, partition: u64, num_rows: usize) -> (r: Option<
    (usize, usize),
>)
    requires
        num_rows >= 1,
    ensures
        r is None ==> forall|e: int|
            0 <= e < entries@.len() ==> (#[trigger] entries@[e]).0 != partition,
        r matches Some(b) ==> b.0 <= b.1 < num_rows && exists|e: int|
            0 <= e < entries@.len() && (#[trigger] entries@[e]).0 == partition && (b.0
                == entries@[e].1 || b.0 == 0) && ((e + 1 < entries@.len() && b.1 + 1 == entries@[e
                + 1].1) || b.1 == num_rows - 1),
        r is Some <==> exists|e: int|
            0 <= e < entries@.len() && (#[trigger] entries@[e]).0 == partition,
{
    let n = entries.len();
    let mut e: usize = 0;
    while e < n
        invariant
            n == entries@.len(),
            0 <= e <= n,
            num_rows >= 1,
            forall|f: int| 0 <= f < e ==> (#[trigger] entries@[f]).0 != partition,
        decreases n - e,
    {
        if entries[e].0 == partition {
            // a malformed entry widens to the whole body, which is sound
            let left_u64 = entries[e].1;
            let left: usize = if left_u64 < num_rows as u64 {
                left_u64 as usize
            } else {
                0
            };
            let right: usize = if e + 1 < n {
                let next = entries[e + 1].1;
                if next >= 1 && next <= num_rows as u64 && (next as usize) - 1 >= left {
                    (next as usize) - 1
                } else {
                    num_rows - 1
                }
            } else {
                num_rows - 1
            };
            let (left, right): (usize, usize) = if left > right {
                (0, num_rows - 1)
            } else {
                (left, right)
            };
            proof {
                assert((#[trigger] entries@[e as int]).0 == partition);
            }
            return Some((left, right));
        }
        e = e + 1;
    }
    None
}

/// Sorting positions by their timestamps: the order replay walks commit
/// logs (ascending created time) and lookups walk segments (reversed).
pub fn order_by_timestamp(stamps: &Vec<u128>) -> (r: Vec<usize>)
    ensures
        r@.len() == stamps@.len(),
        forall|i: int| 0 <= i < r@.len() ==> (#[trigger] r@[i]) < stamps@.len(),
        forall|i: int, j: int| 0 <= i < j < r@.len() ==> (#[trigger] r@[i]) != (#[trigger] r@[j]),
        forall|i: int, j: int|
            0 <= i < j < r@.len() ==> stamps@[(#[trigger] r@[i]) as int] <= stamps@[(
            #[trigger] r@[j]) as int],
        forall|p: int| 0 <= p < stamps@.len() ==> #[trigger] position_listed(r@, p),
{
    let n = stamps.len();
    let mut out: Vec<usize> = Vec::new();
    let mut p: usize = 0;
    while p < n
        invariant
            n == stamps@.len(),
            0 <= p <= n,
            out@.len() == p,
            forall|i: int| 0 <= i < out@.len() ==> (#[trigger] out@[i]) < p,
            forall|i: int, j: int|
                0 <= i < j < out@.len() ==> (#[trigger] out@[i]) != (#[trigger] out@[j]),
            forall|i: int, j: int|
                0 <= i < j < out@.len() ==> stamps@[(#[trigger] out@[i]) as int] <= stamps@[(
                #[trigger] out@[j]) as int],
            forall|q: int| 0 <= q < p ==> #[trigger] position_listed(out@, q),
        decreases n - p,
    {
        let stamp = stamps[p];
        let m = out.len();
        let mut pos: usize = 0;
        while pos < m && stamps[out[pos]] <= stamp
            invariant
                n == stamps@.len(),
                m == out@.len(),
                0 <= pos <= m,
                p < n,
                stamp == stamps@[p as int],
                forall|i: int| 0 <= i < out@.len() ==> (#[trigger] out@[i]) < p,
                forall|i: int|
                    0 <= i < pos ==> stamps@[(#[trigger] out@[i]) as int] <= stamp,
            decreases m - pos,
        {
            pos = pos + 1;
        }
        let ghost opre = out@;
        out.insert(pos, p);
        proof {
            assert(out@[pos as int] == p);
            assert forall|q: int| 0 <= q < p + 1 implies #[trigger] position_listed(out@, q) by {
                if q < p {
                    assert(position_listed(opre, q));
                    let i = choose|i: int| 0 <= i < opre.len() && (#[trigger] opre[i]) == q;
                    if i < pos {
                        assert(out@[i] == q);
                    } else {
                        assert(out@[i + 1] == q);
                    }
                } else {
                    assert(out@[pos as int] == q);
                }
            }
            assert forall|i: int, j: int| 0 <= i < j < out@.len() implies stamps@[(
            #[trigger] out@[i]) as int] <= stamps@[(#[trigger] out@[j]) as int] && out@[i]
                != out@[j] by {
                let iv: int = if i < pos {
                    i
                } else {
                    i - 1
                };
                let jv: int = if j < pos {
                    j
                } else {
                    j - 1
                };
                if i == pos && j > pos {
                    assert(out@[j] == opre[j - 1]);
                    assert(j - 1 >= pos);
                    if pos < opre.len() && j - 1 == pos {
                        assert(stamps@[opre[pos as int] as int] > stamp);
                    } else if pos < opre.len() {
                        assert(stamps@[opre[pos as int] as int] > stamp);
                        assert(stamps@[opre[j - 1] as int] >= stamps@[opre[pos as int] as int]);
                    }
                    assert(out@[i] == p && out@[j] < p);
                } else if j == pos {
                    assert(out@[i] == opre[i]);
                    assert(stamps@[opre[i] as int] <= stamp);
                    assert(out@[i] < p && out@[j] == p);
                } else if i < pos && j < pos {
                    assert(out@[i] == opre[i] && out@[j] == opre[j]);
                } else if i < pos && j > pos {
                    assert(out@[i] == opre[i] && out@[j] == opre[j - 1]);
                } else {
                    assert(out@[i] == opre[i - 1] && out@[j] == opre[j - 1]);
                }
            }
        }
        p = p + 1;
    }
    out
}

/// Whether a segment belongs in a bucket of the given running total:
/// within half-to-three-halves of the bucket's average size, or small
/// alongside a small average.
pub fn size_fits_bucket(size: u64, bucket_total: u64, bucket_len: usize) -> (r: bool)
    requires
        1 <= bucket_len <= 0x10000,
        bucket_total <= 0x100_0000_0000_0000,
        size <= 0x100_0000_0000,
    ensures
        r == ((2 * size * bucket_len >= bucket_total && 2 * size * bucket_len < 3 * bucket_total)
            || (size < SMALL_SSTABLE_BYTES && bucket_total < SMALL_SSTABLE_BYTES * bucket_len)),
{
    proof {
        assert(2 * size * bucket_len <= 2 * 0x100_0000_0000 * 0x10000) by (nonlinear_arith)
            requires
                0 <= size <= 0x100_0000_0000,
                0 <= bucket_len <= 0x10000,
        ;
        assert(SMALL_SSTABLE_BYTES * bucket_len <= SMALL_SSTABLE_BYTES * 0x10000)
            by (nonlinear_arith)
            requires
                0 <= bucket_len <= 0x10000,
        ;
    }
    let doubled: u64 = 2 * size * (bucket_len as u64);
    let in_ratio = doubled >= bucket_total && doubled < 3 * bucket_total;
    let both_small = size < SMALL_SSTABLE_BYTES && bucket_total < SMALL_SSTABLE_BYTES * (
    bucket_len as u64);
    in_ratio || both_small
}

} // verus!
