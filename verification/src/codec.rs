//! The fixed-size binary row layout shared by segments and the commit
//! log: zero-padded hash key, sort key, the column values in schema
//! order, a 16-byte big-endian timestamp, and one tombstone byte.
//!
//! Null is stored as an all-zero field. At a nullable column an
//! all-zero field therefore reads back as null; at a non-nullable
//! column (and the sort key) it reads as the type's zero value, since
//! null cannot stand there. A string ending in a zero byte loses that
//! tail when read back. Rows whose values avoid these shapes round-trip
//! exactly.
use crate::intbytes::{
    be_bytes, be_val, lemma_be_bytes_val, lemma_pow256_u128_bounds, lemma_pow256_u64_bounds,
    pow256, u128_from_be, u64_from_be,
};
use crate::row::{row_equiv_persisted, spec_primary_key, value_equiv, Row};
use crate::schema::{
    spec_cols_size, spec_row_size, spec_type_size, wf_schema, wf_type, Column, ColumnType,
    TableSchema,
};
use crate::value::{i32_bits, i64_bits, spec_value_bytes, Value};
use crate::HASH_KEY_BYTE_SIZE;
use vstd::prelude::*;
use vstd::slice::{slice_subrange, slice_to_vec};
use vstd::string::StrSliceExecFns;
use vstd::string::StringSliceAdditionalSpecFns;
use vstd::utf8::{encode_utf8, encode_utf8_decode_utf8, valid_utf8};

verus! {

/// A run of zero bytes.
pub open spec fn zeros(n: int) -> Seq<u8> {
    Seq::new(if n >= 0 {
        n as nat
    } else {
        0
    }, |i: int| 0u8)
}

/// The bytes padded with zeros up to `width`.
pub open spec fn pad_to(b: Seq<u8>, width: int) -> Seq<u8> {
    b + zeros(width - b.len())
}

/// Every byte is zero.
pub open spec fn all_zero(b: Seq<u8>) -> bool {
    forall|i: int| 0 <= i < b.len() ==> b[i] == 0
}

/// The bytes with any zero tail removed.
pub open spec fn strip_zeros(b: Seq<u8>) -> Seq<u8>
    decreases b.len(),
{
    if b.len() > 0 && b.last() == 0 {
        strip_zeros(b.drop_last())
    } else {
        b
    }
}

/// The stored field of one value under its column type.
pub open spec fn spec_encoded_value(v: Value, t: ColumnType) -> Seq<u8> {
    pad_to(spec_value_bytes(v), spec_type_size(t))
}

/// Whether a value can live in a column of this type: null always, any
/// other value when its variant matches and, for strings, its UTF-8 form
/// stays within the declared budget.
pub open spec fn value_fits(v: Value, t: ColumnType) -> bool {
    match v {
        Value::Null => true,
        Value::Varchar(s) => t matches ColumnType::Varchar(n) && encode_utf8(s@).len() <= n,
        Value::Int32(_) => t == ColumnType::Int32,
        Value::Int64(_) => t == ColumnType::Int64,
        Value::Unsigned32(_) => t == ColumnType::Unsigned32,
        Value::Unsigned64(_) => t == ColumnType::Unsigned64,
        Value::Float32(_) => t == ColumnType::Float32,
        Value::Float64(_) => t == ColumnType::Float64,
        Value::Boolean(_) => t == ColumnType::Boolean,
    }
}

/// The stored form of the column values, in schema order.
pub open spec fn spec_encode_values(
    values: Seq<(String, Value)>,
    cols: Seq<(String, Column)>,
) -> Seq<u8>
    decreases cols.len(),
{
    if cols.len() == 0 || values.len() != cols.len() {
        Seq::empty()
    } else {
        spec_encode_values(values.drop_last(), cols.drop_last()) + spec_encoded_value(
            values.last().1,
            cols.last().1.column_type,
        )
    }
}

/// A row shaped for a schema: hash key within its budget, one value per
/// column under the column's name, each value fitting its type.
pub open spec fn row_matches_schema(row: Row, s: TableSchema) -> bool {
    &&& encode_utf8(row.hash_key@).len() <= HASH_KEY_BYTE_SIZE
    &&& value_fits(row.sort_key, s.sort_key_type)
    &&& row.values@.len() == s.columns@.len()
    &&& forall|i: int|
        0 <= i < s.columns@.len() ==> (#[trigger] row.values@[i]).0@ == s.columns@[i].0@
            && value_fits(row.values@[i].1, s.columns@[i].1.column_type)
}

/// The full stored form of one row.
pub open spec fn spec_encode_row(row: Row, s: TableSchema) -> Seq<u8> {
    pad_to(encode_utf8(row.hash_key@), HASH_KEY_BYTE_SIZE as int) + spec_encoded_value(
        row.sort_key,
        s.sort_key_type,
    ) + spec_encode_values(row.values@, s.columns@) + be_bytes(row.timestamp as int, 16) + seq![
        if row.marked_for_deletion {
            1u8
        } else {
            0u8
        },
    ]
}

/// Offset of column `i`'s field inside an encoded row.
pub open spec fn col_offset(s: TableSchema, i: int) -> int {
    HASH_KEY_BYTE_SIZE + spec_type_size(s.sort_key_type) + spec_cols_size(s.columns@.take(i))
}

/// What a stored field says under a column type: at a nullable column,
/// all zeros stand for null; anywhere else the bytes read by the
/// column's type (so an all-zero field of a non-nullable column is the
/// type's zero value), with any zero tail of a string removed.
pub open spec fn value_decodes(b: Seq<u8>, t: ColumnType, nullable: bool, v: Value) -> bool {
    if all_zero(b) && nullable {
        v == Value::Null
    } else {
        match t {
            ColumnType::Varchar(_) => v matches Value::Varchar(s) && encode_utf8(s@)
                == strip_zeros(b),
            ColumnType::Int32 => v matches Value::Int32(x) && i32_bits(x) == be_val(b),
            ColumnType::Int64 => v matches Value::Int64(x) && i64_bits(x) == be_val(b),
            ColumnType::Unsigned32 => v matches Value::Unsigned32(x) && x == be_val(b),
            ColumnType::Unsigned64 => v matches Value::Unsigned64(x) && x == be_val(b),
            ColumnType::Float32 => v matches Value::Float32(x) && x == be_val(b),
            ColumnType::Float64 => v matches Value::Float64(x) && x == be_val(b),
            ColumnType::Boolean => v matches Value::Boolean(x) && x == (b[0] == 1),
        }
    }
}

/// Whether a stored field reads back as some value: only a string field
/// that is read as text and does not hold UTF-8 fails.
pub open spec fn value_decodable(b: Seq<u8>, t: ColumnType, nullable: bool) -> bool {
    (all_zero(b) && nullable) || match t {
        ColumnType::Varchar(_) => valid_utf8(strip_zeros(b)),
        _ => true,
    }
}

/// Whether a whole stored row reads back: its hash-key field and every
/// string field hold valid UTF-8.
pub open spec fn row_decodable(bytes: Seq<u8>, s: TableSchema) -> bool {
    &&& valid_utf8(strip_zeros(bytes.take(HASH_KEY_BYTE_SIZE as int)))
    &&& value_decodable(
        bytes.subrange(HASH_KEY_BYTE_SIZE as int, col_offset(s, 0)),
        s.sort_key_type,
        false,
    )
    &&& forall|i: int|
        0 <= i < s.columns@.len() ==> value_decodable(
            bytes.subrange(col_offset(s, i), col_offset(s, i + 1)),
            (#[trigger] s.columns@[i]).1.column_type,
            s.columns@[i].1.nullable,
        )
}

/// What the row read back from stored bytes holds.
pub open spec fn row_decodes(bytes: Seq<u8>, s: TableSchema, row: Row) -> bool {
    &&& encode_utf8(row.hash_key@) == strip_zeros(bytes.take(HASH_KEY_BYTE_SIZE as int))
    &&& value_decodes(
        bytes.subrange(HASH_KEY_BYTE_SIZE as int, col_offset(s, 0)),
        s.sort_key_type,
        false,
        row.sort_key,
    )
    &&& row.values@.len() == s.columns@.len()
    &&& forall|i: int|
        0 <= i < s.columns@.len() ==> (#[trigger] row.values@[i]).0@ == s.columns@[i].0@
            && value_decodes(
            bytes.subrange(col_offset(s, i), col_offset(s, i + 1)),
            s.columns@[i].1.column_type,
            s.columns@[i].1.nullable,
            row.values@[i].1,
        )
    &&& row.timestamp == be_val(
        bytes.subrange(col_offset(s, s.columns@.len() as int), col_offset(
            s,
            s.columns@.len() as int,
        ) + 16),
    )
    &&& row.marked_for_deletion == (bytes.last() == 1)
    &&& row.primary_key@ == spec_primary_key(row.hash_key@, row.sort_key)
    &&& row.version == 0
}

/// The stored field of a value has exactly its column's width.
pub proof fn lemma_encoded_value_len(v: Value, t: ColumnType)
    requires
        value_fits(v, t),
        wf_type(t),
    ensures
        spec_encoded_value(v, t).len() == spec_type_size(t),
        spec_value_bytes(v).len() <= spec_type_size(t),
{
    lemma_value_bytes_len(v);
}

/// The raw byte form of each value variant has its fixed width; strings
/// have their UTF-8 length.
pub proof fn lemma_value_bytes_len(v: Value)
    ensures
        spec_value_bytes(v).len() == match v {
            Value::Varchar(s) => encode_utf8(s@).len() as int,
            Value::Int32(_) => 4,
            Value::Int64(_) => 8,
            Value::Unsigned32(_) => 4,
            Value::Unsigned64(_) => 8,
            Value::Float32(_) => 4,
            Value::Float64(_) => 8,
            Value::Boolean(_) => 1,
            Value::Null => 0,
        },
{
    match v {
        Value::Int32(x) => lemma_be_bytes_len(i32_bits(x), 4),
        Value::Int64(x) => lemma_be_bytes_len(i64_bits(x), 8),
        Value::Unsigned32(x) => lemma_be_bytes_len(x as int, 4),
        Value::Unsigned64(x) => lemma_be_bytes_len(x as int, 8),
        Value::Float32(x) => lemma_be_bytes_len(x as int, 4),
        Value::Float64(x) => lemma_be_bytes_len(x as int, 8),
        _ => {},
    }
}

/// A big-endian encoding has its requested width.
pub proof fn lemma_be_bytes_len(n: int, len: nat)
    ensures
        be_bytes(n, len).len() == len,
    decreases len,
{
    if len > 0 {
        lemma_be_bytes_len(n / 256, (len - 1) as nat);
    }
}

/// The stored column section has the combined column width.
pub proof fn lemma_encode_values_len(values: Seq<(String, Value)>, cols: Seq<(String, Column)>)
    requires
        values.len() == cols.len(),
        forall|i: int|
            0 <= i < cols.len() ==> value_fits((#[trigger] values[i]).1, cols[i].1.column_type)
                && wf_type(cols[i].1.column_type),
    ensures
        spec_encode_values(values, cols).len() == spec_cols_size(cols),
    decreases cols.len(),
{
    if cols.len() > 0 {
        let v2 = values.drop_last();
        let c2 = cols.drop_last();
        assert forall|j: int| 0 <= j < c2.len() implies value_fits(
            (#[trigger] v2[j]).1,
            c2[j].1.column_type,
        ) && wf_type(c2[j].1.column_type) by {
            assert(v2[j] == values[j]);
            assert(c2[j] == cols[j]);
        }
        lemma_encode_values_len(v2, c2);
        assert(values.last() == values[cols.len() - 1]);
        assert(cols.last() == cols[cols.len() - 1]);
        lemma_encoded_value_len(values.last().1, cols.last().1.column_type);
    }
}

/// A stored row has exactly the schema's fixed row size.
pub proof fn lemma_encode_row_len(row: Row, s: TableSchema)
    requires
        wf_schema(s),
        row_matches_schema(row, s),
    ensures
        spec_encode_row(row, s).len() == spec_row_size(s),
{
    lemma_encoded_value_len(row.sort_key, s.sort_key_type);
    lemma_encode_values_len(row.values@, s.columns@);
    lemma_be_bytes_len(row.timestamp as int, 16);
}

/// Appends `count` zero bytes.
fn append_zeros(out: &mut Vec<u8>, count: usize)
    ensures
        final(out)@ == old(out)@ + zeros(count as int),
{
    let mut i: usize = 0;
    while i < count
        invariant
            0 <= i <= count,
            out@ == old(out)@ + zeros(i as int),
        decreases count - i,
    {
        out.push(0u8);
        proof {
            assert(out@ =~= old(out)@ + zeros(i + 1));
        }
        i = i + 1;
    }
    proof {
        assert(out@ =~= old(out)@ + zeros(count as int));
    }
}

/// Appends one value's stored field: its bytes, zero-padded to the
/// column width.
fn append_padded_value(out: &mut Vec<u8>, v: &Value, t: &ColumnType)
    requires
        value_fits(*v, *t),
        wf_type(*t),
    ensures
        final(out)@ == old(out)@ + spec_encoded_value(*v, *t),
{
    proof {
        lemma_encoded_value_len(*v, *t);
    }
    let start = out.len();
    v.append_bytes(out);
    let width = t.byte_size();
    let written = out.len() - start;
    append_zeros(out, width - written);
    proof {
        assert(out@ =~= old(out)@ + spec_encoded_value(*v, *t));
    }
}

/// Encodes one row under a schema. The result always has the schema's
/// fixed row size.
pub fn encode_row(row: &Row, table_schema: &TableSchema) -> (r: Vec<u8>)
    requires
        wf_schema(*table_schema),
        row_matches_schema(*row, *table_schema),
    ensures
        r@ == spec_encode_row(*row, *table_schema),
        r@.len() == spec_row_size(*table_schema),
{
    let mut out: Vec<u8> = Vec::new();
    let mut hk = row.hash_key.as_str().as_bytes_vec();
    let hklen = hk.len();
    out.append(&mut hk);
    append_zeros(&mut out, HASH_KEY_BYTE_SIZE - hklen);
    proof {
        assert(out@ =~= pad_to(encode_utf8(row.hash_key@), HASH_KEY_BYTE_SIZE as int));
    }
    append_padded_value(&mut out, &row.sort_key, &table_schema.sort_key_type);
    let n = table_schema.columns.len();
    let mut i: usize = 0;
    while i < n
        invariant
            wf_schema(*table_schema),
            row_matches_schema(*row, *table_schema),
            n == table_schema.columns@.len(),
            0 <= i <= n,
            out@ == pad_to(encode_utf8(row.hash_key@), HASH_KEY_BYTE_SIZE as int)
                + spec_encoded_value(row.sort_key, table_schema.sort_key_type)
                + spec_encode_values(row.values@.take(i as int), table_schema.columns@.take(
                i as int,
            )),
        decreases n - i,
    {
        append_padded_value(
            &mut out,
            &row.values[i].1,
            &table_schema.columns[i].1.column_type,
        );
        proof {
            assert(row.values@.take(i + 1).drop_last() =~= row.values@.take(i as int));
            assert(table_schema.columns@.take(i + 1).drop_last() =~= table_schema.columns@.take(
                i as int,
            ));
            assert(row.values@.take(i + 1).last() == row.values@[i as int]);
            assert(table_schema.columns@.take(i + 1).last() == table_schema.columns@[i as int]);
            assert(out@ =~= pad_to(encode_utf8(row.hash_key@), HASH_KEY_BYTE_SIZE as int)
                + spec_encoded_value(row.sort_key, table_schema.sort_key_type)
                + spec_encode_values(row.values@.take(i + 1), table_schema.columns@.take(i + 1)));
        }
        i = i + 1;
    }
    proof {
        assert(row.values@.take(n as int) =~= row.values@);
        assert(table_schema.columns@.take(n as int) =~= table_schema.columns@);
    }
    crate::intbytes::append_u128_be(&mut out, row.timestamp, 16);
    if row.marked_for_deletion {
        out.push(1u8);
    } else {
        out.push(0u8);
    }
    proof {
        assert(out@ =~= spec_encode_row(*row, *table_schema));
        lemma_encode_row_len(*row, *table_schema);
    }
    out
}

/// Copies a byte range with its zero tail removed.
fn strip_zeros_range(b: &[u8], start: usize, end: usize) -> (r: Vec<u8>)
    requires
        start <= end <= b@.len(),
    ensures
        r@ == strip_zeros(b@.subrange(start as int, end as int)),
{
    let mut stop = end;
    while stop > start && b[stop - 1] == 0
        invariant
            start <= stop <= end <= b@.len(),
            strip_zeros(b@.subrange(start as int, end as int)) == strip_zeros(b@.subrange(
                start as int,
                stop as int,
            )),
        decreases stop,
    {
        proof {
            assert(b@.subrange(start as int, stop as int).drop_last() =~= b@.subrange(
                start as int,
                stop as int - 1,
            ));
            assert(b@.subrange(start as int, stop as int).last() == b@[stop as int - 1]);
        }
        stop = stop - 1;
    }
    proof {
        let sub = b@.subrange(start as int, stop as int);
        if sub.len() > 0 {
            assert(sub.last() == b@[stop as int - 1]);
        }
        assert(strip_zeros(sub) == sub);
    }
    slice_to_vec(slice_subrange(b, start, stop))
}

/// Reads one stored field back as a value.
fn decode_value(b: &[u8], start: usize, width: usize, t: &ColumnType, nullable: bool) -> (r:
    Option<Value>)
    requires
        start + width <= b@.len(),
        wf_type(*t),
        width == spec_type_size(*t),
    ensures
        r matches Some(v) ==> value_decodes(
            b@.subrange(start as int, start as int + width),
            *t,
            nullable,
            v,
        ),
        r is Some <==> value_decodable(
            b@.subrange(start as int, start as int + width),
            *t,
            nullable,
        ),
{
    let ghost seg = b@.subrange(start as int, start as int + width);
    let blen: usize = b.len();
    let mut allz = true;
    let mut i: usize = 0;
    while i < width
        invariant
            start + width <= blen == b@.len(),
            0 <= i <= width,
            seg == b@.subrange(start as int, start as int + width),
            allz == forall|j: int| 0 <= j < i ==> seg[j] == 0,
        decreases width - i,
    {
        if b[start + i] != 0 {
            proof {
                assert(seg[i as int] == b@[start + i]);
            }
            allz = false;
        }
        i = i + 1;
    }
    if allz && nullable {
        proof {
            assert(all_zero(seg));
        }
        return Some(Value::Null);
    }
    proof {
        if allz {
            assert(all_zero(seg));
        } else {
            assert(!all_zero(seg));
        }
    }
    match t {
        ColumnType::Varchar(_) => {
            let stripped = strip_zeros_range(b, start, start + width);
            match crate::exttrust::string_from_utf8(stripped) {
                Some(s) => {
                    proof {
                        encode_utf8_decode_utf8(s@);
                    }
                    Some(Value::Varchar(s))
                },
                None => None,
            }
        },
        ColumnType::Int32 => {
            let bits = u64_from_be(b, start, 4);
            proof {
                crate::intbytes::lemma_be_val_bound(seg);
                lemma_pow256_u64_bounds();
            }
            let x: i32 = if bits < 0x8000_0000 {
                bits as i32
            } else {
                ((bits as i64) - 0x1_0000_0000i64) as i32
            };
            Some(Value::Int32(x))
        },
        ColumnType::Int64 => {
            let bits = u64_from_be(b, start, 8);
            let x: i64 = if bits < 0x8000_0000_0000_0000 {
                bits as i64
            } else {
                ((bits as i128) - 0x1_0000_0000_0000_0000i128) as i64
            };
            Some(Value::Int64(x))
        },
        ColumnType::Unsigned32 => {
            let bits = u64_from_be(b, start, 4);
            proof {
                crate::intbytes::lemma_be_val_bound(seg);
                lemma_pow256_u64_bounds();
            }
            Some(Value::Unsigned32(bits as u32))
        },
        ColumnType::Unsigned64 => {
            let bits = u64_from_be(b, start, 8);
            Some(Value::Unsigned64(bits))
        },
        ColumnType::Float32 => {
            let bits = u64_from_be(b, start, 4);
            proof {
                crate::intbytes::lemma_be_val_bound(seg);
                lemma_pow256_u64_bounds();
            }
            Some(Value::Float32(bits as u32))
        },
        ColumnType::Float64 => {
            let bits = u64_from_be(b, start, 8);
            Some(Value::Float64(bits))
        },
        ColumnType::Boolean => {
            let byte = b[start];
            proof {
                assert(seg[0] == b@[start as int]);
            }
            Some(Value::Boolean(byte == 1))
        },
    }
}

/// Reads one column's stored field back, named for its column.
fn decode_one_column(bytes: &[u8], table_schema: &TableSchema, i: usize, offset: usize) -> (r:
    Option<(String, Value)>)
    requires
        wf_schema(*table_schema),
        bytes@.len() == spec_row_size(*table_schema),
        i < table_schema.columns@.len(),
        offset == col_offset(*table_schema, i as int),
        offset + spec_type_size(table_schema.columns@[i as int].1.column_type) <= bytes@.len(),
    ensures
        r matches Some(pair) ==> pair.0@ == table_schema.columns@[i as int].0@ && value_decodes(
            bytes@.subrange(
                col_offset(*table_schema, i as int),
                col_offset(*table_schema, i as int + 1),
            ),
            table_schema.columns@[i as int].1.column_type,
            table_schema.columns@[i as int].1.nullable,
            pair.1,
        ),
        r is Some <==> value_decodable(
            bytes@.subrange(
                col_offset(*table_schema, i as int),
                col_offset(*table_schema, i as int + 1),
            ),
            table_schema.columns@[i as int].1.column_type,
            table_schema.columns@[i as int].1.nullable,
        ),
{
    proof {
        lemma_cols_size_take_step(table_schema.columns@, i as int);
    }
    let width = table_schema.columns[i].1.column_type.byte_size();
    match decode_value(
        bytes,
        offset,
        width,
        &table_schema.columns[i].1.column_type,
        table_schema.columns[i].1.nullable,
    ) {
        Some(v) => Some((table_schema.columns[i].0.clone(), v)),
        None => None,
    }
}

/// Reads the column section of a stored row back, one field per column,
/// and hands back the offset just past it.
#[verifier::rlimit(100)]
fn decode_columns(bytes: &[u8], table_schema: &TableSchema, start: usize) -> (r: Option<
    (Vec<(String, Value)>, usize),
>)
    requires
        wf_schema(*table_schema),
        bytes@.len() == spec_row_size(*table_schema),
        start == col_offset(*table_schema, 0),
    ensures
        r matches Some(pair) ==> {
            &&& pair.0@.len() == table_schema.columns@.len()
            &&& forall|j: int|
                0 <= j < table_schema.columns@.len() ==> (#[trigger] pair.0@[j]).0@
                    == table_schema.columns@[j].0@ && value_decodes(
                    bytes@.subrange(
                        col_offset(*table_schema, j),
                        col_offset(*table_schema, j + 1),
                    ),
                    table_schema.columns@[j].1.column_type,
                    table_schema.columns@[j].1.nullable,
                    pair.0@[j].1,
                )
            &&& pair.1 == col_offset(*table_schema, table_schema.columns@.len() as int)
        },
        r is Some <==> forall|j: int|
            0 <= j < table_schema.columns@.len() ==> value_decodable(
                bytes@.subrange(col_offset(*table_schema, j), col_offset(*table_schema, j + 1)),
                (#[trigger] table_schema.columns@[j]).1.column_type,
                table_schema.columns@[j].1.nullable,
            ),
{
    proof {
        crate::schema::lemma_cols_size_bound(table_schema.columns@);
        assert(table_schema.columns@.take(0) =~= Seq::<(String, Column)>::empty());
    }
    let mut values: Vec<(String, Value)> = Vec::new();
    let mut offset: usize = start;
    let n = table_schema.columns.len();
    let mut i: usize = 0;
    while i < n
        invariant
            wf_schema(*table_schema),
            bytes@.len() == spec_row_size(*table_schema),
            n == table_schema.columns@.len(),
            0 <= i <= n,
            offset == col_offset(*table_schema, i as int),
            offset <= bytes@.len() - 17,
            values@.len() == i,
            forall|j: int|
                0 <= j < i ==> (#[trigger] values@[j]).0@ == table_schema.columns@[j].0@
                    && value_decodes(
                    bytes@.subrange(
                        col_offset(*table_schema, j),
                        col_offset(*table_schema, j + 1),
                    ),
                    table_schema.columns@[j].1.column_type,
                    table_schema.columns@[j].1.nullable,
                    values@[j].1,
                ),
            forall|j: int|
                0 <= j < i ==> value_decodable(
                    bytes@.subrange(
                        col_offset(*table_schema, j),
                        col_offset(*table_schema, j + 1),
                    ),
                    (#[trigger] table_schema.columns@[j]).1.column_type,
                    table_schema.columns@[j].1.nullable,
                ),
        decreases n - i,
    {
        proof {
            crate::schema::lemma_cols_size_bound(table_schema.columns@);
            lemma_cols_size_take_step(table_schema.columns@, i as int);
            lemma_cols_size_take_mono(table_schema.columns@, i as int + 1);
            assert(wf_type(table_schema.columns@[i as int].1.column_type));
        }
        let width = table_schema.columns[i].1.column_type.byte_size();
        let pair = match decode_one_column(bytes, table_schema, i, offset) {
            Some(pair) => pair,
            None => {
                return None;
            },
        };
        values.push(pair);
        offset = offset + width;
        i = i + 1;
    }
    Some((values, offset))
}

/// Reads a stored row back under its schema. Only a string field that
/// does not hold UTF-8 is turned away.
#[verifier::rlimit(100)]
pub fn decode_row(bytes: &[u8], table_schema: &TableSchema) -> (r: Result<Row, String>)
    requires
        wf_schema(*table_schema),
        bytes@.len() == spec_row_size(*table_schema),
    ensures
        r matches Ok(row) ==> row_decodes(bytes@, *table_schema, row),
        r is Ok <==> row_decodable(bytes@, *table_schema),
        r matches Ok(row) ==> row_matches_schema(row, *table_schema) && row.primary_key@
            == spec_primary_key(row.hash_key@, row.sort_key),
{
    proof {
        crate::schema::lemma_cols_size_bound(table_schema.columns@);
    }
    let stripped_hk = strip_zeros_range(bytes, 0, HASH_KEY_BYTE_SIZE);
    proof {
        assert(bytes@.subrange(0, HASH_KEY_BYTE_SIZE as int) =~= bytes@.take(
            HASH_KEY_BYTE_SIZE as int,
        ));
    }
    let hash_key = match crate::exttrust::string_from_utf8(stripped_hk) {
        Some(s) => s,
        None => {
            return Err("Invalid UTF-8 in encoded row".to_owned());
        },
    };
    proof {
        encode_utf8_decode_utf8(hash_key@);
    }
    let sk_size = table_schema.sort_key_type.byte_size();
    let sort_key = match decode_value(
        bytes,
        HASH_KEY_BYTE_SIZE,
        sk_size,
        &table_schema.sort_key_type,
        false,
    ) {
        Some(v) => v,
        None => {
            proof {
                assert(table_schema.columns@.take(0) =~= Seq::<(String, Column)>::empty());
            }
            return Err("Invalid UTF-8 in encoded row".to_owned());
        },
    };
    proof {
        assert(table_schema.columns@.take(0) =~= Seq::<(String, Column)>::empty());
        assert(col_offset(*table_schema, 0) == HASH_KEY_BYTE_SIZE + spec_type_size(
            table_schema.sort_key_type,
        ));
    }
    let (values, offset) = match decode_columns(bytes, table_schema, HASH_KEY_BYTE_SIZE + sk_size) {
        Some(pair) => pair,
        None => {
            return Err("Invalid UTF-8 in encoded row".to_owned());
        },
    };
    let ghost n = table_schema.columns@.len();
    proof {
        assert(table_schema.columns@.take(n as int) =~= table_schema.columns@);
    }
    let timestamp = u128_from_be(bytes, offset, 16);
    let tombstone = bytes[offset + 16] == 1;
    proof {
        assert(bytes@[offset + 16] == bytes@.last());
    }
    let mut row = Row::new_from_sstable(hash_key, sort_key, values, timestamp);
    row.marked_for_deletion = tombstone;
    proof {
        lemma_decoded_row_matches(bytes@, *table_schema, row);
    }
    Ok(row)
}

/// Two rows read back from the same stored bytes carry the same primary
/// key text.
pub proof fn lemma_decodes_same_pk(bytes: Seq<u8>, s: TableSchema, a: Row, b: Row)
    requires
        row_decodes(bytes, s, a),
        row_decodes(bytes, s, b),
    ensures
        a.primary_key@ == b.primary_key@,
{
    encode_utf8_decode_utf8(a.hash_key@);
    encode_utf8_decode_utf8(b.hash_key@);
    lemma_value_decodes_unique(
        bytes.subrange(HASH_KEY_BYTE_SIZE as int, col_offset(s, 0)),
        s.sort_key_type,
        false,
        a.sort_key,
        b.sort_key,
    );
    lemma_display_equiv(a.sort_key, b.sort_key);
}

/// Stripping a zero tail never lengthens the bytes.
pub proof fn lemma_strip_zeros_len(b: Seq<u8>)
    ensures
        strip_zeros(b).len() <= b.len(),
    decreases b.len(),
{
    if b.len() > 0 && b.last() == 0 {
        lemma_strip_zeros_len(b.drop_last());
    }
}

/// A row read back from stored bytes is shaped for the schema it was
/// read under, with its primary key derived from its keys.
pub proof fn lemma_decoded_row_matches(bytes: Seq<u8>, s: TableSchema, row: Row)
    requires
        wf_schema(s),
        bytes.len() == spec_row_size(s),
        row_decodes(bytes, s, row),
    ensures
        row_matches_schema(row, s),
        row.primary_key@ == spec_primary_key(row.hash_key@, row.sort_key),
{
    crate::schema::lemma_cols_size_bound(s.columns@);
    lemma_strip_zeros_len(bytes.take(HASH_KEY_BYTE_SIZE as int));
    assert(encode_utf8(row.hash_key@).len() <= HASH_KEY_BYTE_SIZE);
    assert(s.columns@.take(0) =~= Seq::<(String, Column)>::empty());
    assert(bytes.subrange(HASH_KEY_BYTE_SIZE as int, col_offset(s, 0)).len() == spec_type_size(
        s.sort_key_type,
    ));
    lemma_decoded_value_fits(
        bytes.subrange(HASH_KEY_BYTE_SIZE as int, col_offset(s, 0)),
        s.sort_key_type,
        false,
        row.sort_key,
    );
    assert forall|i: int| 0 <= i < s.columns@.len() implies (#[trigger] row.values@[i]).0@
        == s.columns@[i].0@ && value_fits(row.values@[i].1, s.columns@[i].1.column_type) by {
        lemma_cols_size_take_step(s.columns@, i);
        lemma_cols_size_take_mono(s.columns@, i);
        lemma_cols_size_take_mono(s.columns@, i + 1);
        assert(bytes.subrange(col_offset(s, i), col_offset(s, i + 1)).len() == spec_type_size(
            s.columns@[i].1.column_type,
        ));
        lemma_decoded_value_fits(
            bytes.subrange(col_offset(s, i), col_offset(s, i + 1)),
            s.columns@[i].1.column_type,
            s.columns@[i].1.nullable,
            row.values@[i].1,
        );
    }
}

/// A value read back from a field of a column's width fits that column.
proof fn lemma_decoded_value_fits(b: Seq<u8>, t: ColumnType, nullable: bool, v: Value)
    requires
        wf_type(t),
        b.len() == spec_type_size(t),
        value_decodes(b, t, nullable, v),
    ensures
        value_fits(v, t),
{
    if !(all_zero(b) && nullable) {
        match t {
            ColumnType::Varchar(n) => {
                lemma_strip_zeros_len(b);
            },
            _ => {},
        }
    }
}

/// A value whose stored field reads back as itself. At a nullable
/// column nothing may look like the all-zero null form; at a
/// non-nullable column only null itself (which cannot stand there) and
/// zero-tailed strings are out.
pub open spec fn value_roundtrip_safe(v: Value, nullable: bool) -> bool {
    if nullable {
        match v {
            Value::Null => true,
            Value::Varchar(s) => encode_utf8(s@).len() > 0 && encode_utf8(s@).last() != 0,
            Value::Int32(x) => i32_bits(x) != 0,
            Value::Int64(x) => i64_bits(x) != 0,
            Value::Unsigned32(x) => x != 0,
            Value::Unsigned64(x) => x != 0,
            Value::Float32(x) => x != 0,
            Value::Float64(x) => x != 0,
            Value::Boolean(b) => b,
        }
    } else {
        match v {
            Value::Null => false,
            Value::Varchar(s) => encode_utf8(s@).len() == 0 || encode_utf8(s@).last() != 0,
            _ => true,
        }
    }
}

/// A row whose stored form reads back as itself, field for field, under
/// its schema's nullability.
pub open spec fn row_roundtrip_safe(row: Row, s: TableSchema) -> bool {
    &&& encode_utf8(row.hash_key@).len() == 0 || encode_utf8(row.hash_key@).last() != 0
    &&& value_roundtrip_safe(row.sort_key, false)
    &&& row.values@.len() == s.columns@.len()
    &&& forall|i: int|
        0 <= i < row.values@.len() ==> value_roundtrip_safe(
            (#[trigger] row.values@[i]).1,
            s.columns@[i].1.nullable,
        )
}

/// Stripping the padding gives the unpadded bytes back, provided they
/// have no zero tail of their own.
proof fn lemma_strip_pad(b: Seq<u8>, width: int)
    requires
        b.len() <= width,
        b.len() == 0 || b.last() != 0,
    ensures
        strip_zeros(pad_to(b, width)) == b,
    decreases width - b.len(),
{
    if width == b.len() {
        assert(pad_to(b, width) =~= b);
    } else {
        let p = pad_to(b, width);
        assert(p.len() == width);
        assert(p.last() == 0);
        assert(p.drop_last() =~= pad_to(b, width - 1));
        lemma_strip_pad(b, width - 1);
    }
}

/// All-zero bytes carry the value zero.
proof fn lemma_be_val_all_zero(b: Seq<u8>)
    requires
        all_zero(b),
    ensures
        be_val(b) == 0,
    decreases b.len(),
{
    if b.len() > 0 {
        assert(all_zero(b.drop_last()));
        lemma_be_val_all_zero(b.drop_last());
    }
}

/// A safe value's stored field reads back as that value.
proof fn lemma_value_roundtrip(v: Value, t: ColumnType, nullable: bool)
    requires
        value_fits(v, t),
        wf_type(t),
        value_roundtrip_safe(v, nullable),
    ensures
        value_decodes(spec_encoded_value(v, t), t, nullable, v),
        value_decodable(spec_encoded_value(v, t), t, nullable),
{
    let seg = spec_encoded_value(v, t);
    lemma_value_bytes_len(v);
    match v {
        Value::Null => {
            assert(all_zero(seg));
        },
        Value::Varchar(s) => {
            let enc = encode_utf8(s@);
            if enc.len() > 0 && enc.last() != 0 {
                assert(seg[enc.len() - 1] == enc.last());
                assert(!all_zero(seg));
            }
            lemma_strip_pad(enc, spec_type_size(t));
            vstd::utf8::encode_utf8_valid_utf8(s@);
        },
        Value::Int32(x) => {
            assert(seg =~= be_bytes(i32_bits(x), 4));
            lemma_pow256_u64_bounds();
            lemma_be_bytes_val(i32_bits(x), 4);
            if all_zero(seg) {
                lemma_be_val_all_zero(seg);
            }
        },
        Value::Int64(x) => {
            assert(seg =~= be_bytes(i64_bits(x), 8));
            lemma_pow256_u64_bounds();
            lemma_be_bytes_val(i64_bits(x), 8);
            if all_zero(seg) {
                lemma_be_val_all_zero(seg);
            }
        },
        Value::Unsigned32(x) => {
            assert(seg =~= be_bytes(x as int, 4));
            lemma_pow256_u64_bounds();
            lemma_be_bytes_val(x as int, 4);
            if all_zero(seg) {
                lemma_be_val_all_zero(seg);
            }
        },
        Value::Unsigned64(x) => {
            assert(seg =~= be_bytes(x as int, 8));
            lemma_pow256_u64_bounds();
            lemma_be_bytes_val(x as int, 8);
            if all_zero(seg) {
                lemma_be_val_all_zero(seg);
            }
        },
        Value::Float32(x) => {
            assert(seg =~= be_bytes(x as int, 4));
            lemma_pow256_u64_bounds();
            lemma_be_bytes_val(x as int, 4);
            if all_zero(seg) {
                lemma_be_val_all_zero(seg);
            }
        },
        Value::Float64(x) => {
            assert(seg =~= be_bytes(x as int, 8));
            lemma_pow256_u64_bounds();
            lemma_be_bytes_val(x as int, 8);
            if all_zero(seg) {
                lemma_be_val_all_zero(seg);
            }
        },
        Value::Boolean(b) => {
            if b {
                assert(seg =~= seq![1u8]);
                assert(seg[0] == 1);
                assert(!all_zero(seg));
            } else {
                assert(seg =~= seq![0u8]);
                assert(seg[0] == 0);
            }
        },
    }
}

/// Two values read back from the same stored field are the same value.
proof fn lemma_value_decodes_unique(b: Seq<u8>, t: ColumnType, nullable: bool, v1: Value, v2: Value)
    requires
        value_decodes(b, t, nullable, v1),
        value_decodes(b, t, nullable, v2),
    ensures
        value_equiv(v1, v2),
{
    if !(all_zero(b) && nullable) {
        match t {
            ColumnType::Varchar(_) => {
                let s1 = v1->Varchar_0;
                let s2 = v2->Varchar_0;
                encode_utf8_decode_utf8(s1@);
                encode_utf8_decode_utf8(s2@);
            },
            _ => {},
        }
    }
}

/// Equal values show the same text.
proof fn lemma_display_equiv(a: Value, b: Value)
    requires
        value_equiv(a, b),
    ensures
        crate::value::spec_value_display(a) == crate::value::spec_value_display(b),
{
}

/// The stored form of a well-shaped, safe row always reads back.
pub proof fn lemma_encode_row_decodable(row: Row, s: TableSchema)
    requires
        wf_schema(s),
        row_matches_schema(row, s),
        row_roundtrip_safe(row, s),
    ensures
        row_decodable(spec_encode_row(row, s), s),
{
    lemma_encode_row_segments(row, s);
    let bytes = spec_encode_row(row, s);
    lemma_strip_pad(encode_utf8(row.hash_key@), HASH_KEY_BYTE_SIZE as int);
    vstd::utf8::encode_utf8_valid_utf8(row.hash_key@);
    lemma_value_roundtrip(row.sort_key, s.sort_key_type, false);
    assert forall|i: int| 0 <= i < s.columns@.len() implies value_decodable(
        bytes.subrange(col_offset(s, i), col_offset(s, i + 1)),
        (#[trigger] s.columns@[i]).1.column_type,
        s.columns@[i].1.nullable,
    ) by {
        lemma_value_roundtrip(
            row.values@[i].1,
            s.columns@[i].1.column_type,
            s.columns@[i].1.nullable,
        );
    }
}

/// Round trip of one row: what is read back from a row's stored form is
/// the row itself, up to string views and the version counter (the
/// version is not persisted).
pub proof fn lemma_row_roundtrip(row: Row, s: TableSchema, row2: Row)
    requires
        wf_schema(s),
        row_matches_schema(row, s),
        row_roundtrip_safe(row, s),
        row.primary_key@ == spec_primary_key(row.hash_key@, row.sort_key),
        row_decodes(spec_encode_row(row, s), s, row2),
    ensures
        row_equiv_persisted(row2, row),
{
    lemma_encode_row_segments(row, s);
    let bytes = spec_encode_row(row, s);
    lemma_strip_pad(encode_utf8(row.hash_key@), HASH_KEY_BYTE_SIZE as int);
    encode_utf8_decode_utf8(row.hash_key@);
    encode_utf8_decode_utf8(row2.hash_key@);
    lemma_value_roundtrip(row.sort_key, s.sort_key_type, false);
    lemma_value_decodes_unique(
        bytes.subrange(HASH_KEY_BYTE_SIZE as int, col_offset(s, 0)),
        s.sort_key_type,
        false,
        row2.sort_key,
        row.sort_key,
    );
    assert forall|i: int| 0 <= i < row2.values@.len() implies (#[trigger] row2.values@[i]).0@
        == row.values@[i].0@ && value_equiv(row2.values@[i].1, row.values@[i].1) by {
        lemma_value_roundtrip(
            row.values@[i].1,
            s.columns@[i].1.column_type,
            s.columns@[i].1.nullable,
        );
        lemma_value_decodes_unique(
            bytes.subrange(col_offset(s, i), col_offset(s, i + 1)),
            s.columns@[i].1.column_type,
            s.columns@[i].1.nullable,
            row2.values@[i].1,
            row.values@[i].1,
        );
    }
    lemma_pow256_u128_bounds();
    lemma_be_bytes_val(row.timestamp as int, 16);
    lemma_display_equiv(row2.sort_key, row.sort_key);
    assert(row2.primary_key@ == row.primary_key@);
}

/// Where each field of a row's stored form lies.
proof fn lemma_encode_row_segments(row: Row, s: TableSchema)
    requires
        wf_schema(s),
        row_matches_schema(row, s),
    ensures
        spec_encode_row(row, s).take(HASH_KEY_BYTE_SIZE as int) == pad_to(
            encode_utf8(row.hash_key@),
            HASH_KEY_BYTE_SIZE as int,
        ),
        spec_encode_row(row, s).subrange(HASH_KEY_BYTE_SIZE as int, col_offset(s, 0))
            == spec_encoded_value(row.sort_key, s.sort_key_type),
        forall|i: int|
            0 <= i < s.columns@.len() ==> spec_encode_row(row, s).subrange(
                col_offset(s, i),
                col_offset(s, i + 1),
            ) == spec_encoded_value(
                (#[trigger] row.values@[i]).1,
                s.columns@[i].1.column_type,
            ),
        spec_encode_row(row, s).subrange(
            col_offset(s, s.columns@.len() as int),
            col_offset(s, s.columns@.len() as int) + 16,
        ) == be_bytes(row.timestamp as int, 16),
        spec_encode_row(row, s).last() == (if row.marked_for_deletion {
            1u8
        } else {
            0u8
        }),
        spec_encode_row(row, s).len() == spec_row_size(s),
{
    let bytes = spec_encode_row(row, s);
    lemma_encode_row_len(row, s);
    lemma_encoded_value_len(row.sort_key, s.sort_key_type);
    lemma_encode_values_len(row.values@, s.columns@);
    lemma_be_bytes_len(row.timestamp as int, 16);
    assert(bytes.take(HASH_KEY_BYTE_SIZE as int) =~= pad_to(
        encode_utf8(row.hash_key@),
        HASH_KEY_BYTE_SIZE as int,
    ));
    assert(s.columns@.take(0) =~= Seq::<(String, Column)>::empty());
    assert(bytes.subrange(HASH_KEY_BYTE_SIZE as int, col_offset(s, 0)) =~= spec_encoded_value(
        row.sort_key,
        s.sort_key_type,
    ));
    let vals = spec_encode_values(row.values@, s.columns@);
    let base = HASH_KEY_BYTE_SIZE + spec_type_size(s.sort_key_type);
    assert forall|i: int| 0 <= i < s.columns@.len() implies bytes.subrange(
        col_offset(s, i),
        col_offset(s, i + 1),
    ) == spec_encoded_value((#[trigger] row.values@[i]).1, s.columns@[i].1.column_type) by {
        lemma_encode_values_segment(row.values@, s.columns@, i);
        lemma_cols_size_take_step(s.columns@, i);
        lemma_cols_size_take_mono(s.columns@, i);
        lemma_cols_size_take_mono(s.columns@, i + 1);
        lemma_encoded_value_len(row.values@[i].1, s.columns@[i].1.column_type);
        assert(bytes.subrange(col_offset(s, i), col_offset(s, i + 1)) =~= vals.subrange(
            spec_cols_size(s.columns@.take(i)),
            spec_cols_size(s.columns@.take(i + 1)),
        ));
    }
    lemma_cols_size_take_mono(s.columns@, s.columns@.len() as int);
    assert(s.columns@.take(s.columns@.len() as int) =~= s.columns@);
    assert(bytes.subrange(
        col_offset(s, s.columns@.len() as int),
        col_offset(s, s.columns@.len() as int) + 16,
    ) =~= be_bytes(row.timestamp as int, 16));
}

/// One column's stored field inside the stored column section.
proof fn lemma_encode_values_segment(
    values: Seq<(String, Value)>,
    cols: Seq<(String, Column)>,
    i: int,
)
    requires
        values.len() == cols.len(),
        0 <= i < cols.len(),
        forall|j: int|
            0 <= j < cols.len() ==> value_fits((#[trigger] values[j]).1, cols[j].1.column_type)
                && wf_type(cols[j].1.column_type),
    ensures
        spec_encode_values(values, cols).subrange(
            spec_cols_size(cols.take(i)),
            spec_cols_size(cols.take(i + 1)),
        ) == spec_encoded_value(values[i].1, cols[i].1.column_type),
    decreases cols.len(),
{
    lemma_encode_values_len(values, cols);
    lemma_cols_size_take_step(cols, i);
    lemma_cols_size_take_mono(cols, i);
    lemma_cols_size_take_mono(cols, i + 1);
    lemma_encoded_value_len(values[i].1, cols[i].1.column_type);
    assert forall|j: int| 0 <= j < cols.drop_last().len() implies value_fits(
        (#[trigger] values.drop_last()[j]).1,
        cols.drop_last()[j].1.column_type,
    ) && wf_type(cols.drop_last()[j].1.column_type) by {
        assert(values.drop_last()[j] == values[j]);
        assert(cols.drop_last()[j] == cols[j]);
    }
    if i == cols.len() - 1 {
        assert(cols.take(i) =~= cols.drop_last());
        assert(cols.take(i + 1) =~= cols);
        lemma_encode_values_len(values.drop_last(), cols.drop_last());
        assert(spec_encode_values(values, cols).subrange(
            spec_cols_size(cols.take(i)),
            spec_cols_size(cols.take(i + 1)),
        ) =~= spec_encoded_value(values[i].1, cols[i].1.column_type));
    } else {
        lemma_encode_values_segment(values.drop_last(), cols.drop_last(), i);
        assert(cols.drop_last().take(i) =~= cols.take(i));
        assert(cols.drop_last().take(i + 1) =~= cols.take(i + 1));
        assert(values.drop_last()[i] == values[i]);
        assert(cols.drop_last()[i] == cols[i]);
        lemma_encode_values_len(values.drop_last(), cols.drop_last());
        lemma_cols_size_take_mono(cols.drop_last(), i + 1);
        assert(spec_cols_size(cols.take(i + 1)) <= spec_cols_size(cols.drop_last()));
        assert(spec_encode_values(values, cols).subrange(
            spec_cols_size(cols.take(i)),
            spec_cols_size(cols.take(i + 1)),
        ) =~= spec_encode_values(values.drop_last(), cols.drop_last()).subrange(
            spec_cols_size(cols.take(i)),
            spec_cols_size(cols.take(i + 1)),
        ));
    }
}

/// Column sizes grow by one column's width at each step.
proof fn lemma_cols_size_take_step(cols: Seq<(String, Column)>, i: int)
    requires
        0 <= i < cols.len(),
    ensures
        spec_cols_size(cols.take(i + 1)) == spec_cols_size(cols.take(i)) + spec_type_size(
            cols[i].1.column_type,
        ),
{
    assert(cols.take(i + 1).drop_last() =~= cols.take(i));
    assert(cols.take(i + 1).last() == cols[i]);
}

/// A prefix of the columns is no wider than the whole.
proof fn lemma_cols_size_take_mono(cols: Seq<(String, Column)>, i: int)
    requires
        0 <= i <= cols.len(),
    ensures
        spec_cols_size(cols.take(i)) <= spec_cols_size(cols),
        spec_cols_size(cols.take(i)) >= 0,
    decreases cols.len() - i,
{
    if i < cols.len() {
        lemma_cols_size_take_step(cols, i);
        lemma_cols_size_take_mono(cols, i + 1);
        lemma_type_size_nonneg(cols[i].1.column_type);
        lemma_cols_size_nonneg(cols.take(i));
    } else {
        assert(cols.take(i) =~= cols);
        lemma_cols_size_nonneg(cols);
    }
}

/// A column's width is never negative.
proof fn lemma_type_size_nonneg(t: ColumnType)
    ensures
        spec_type_size(t) >= 0,
{
}

/// A column list's combined width is never negative.
proof fn lemma_cols_size_nonneg(cols: Seq<(String, Column)>)
    ensures
        spec_cols_size(cols) >= 0,
    decreases cols.len(),
{
    if cols.len() > 0 {
        lemma_cols_size_nonneg(cols.drop_last());
        lemma_type_size_nonneg(cols.last().1.column_type);
    }
}

} // verus!
