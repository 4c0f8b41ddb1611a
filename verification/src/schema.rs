//! Table schemas: the column catalog, fixed on-disk sizing, and the
//! textual form `name>sort_key:TYPE;col:TYPE[?];...` together with its
//! parser. Columns are kept sorted by name, the order the textual form
//! and encoded rows use.
use crate::numfmt::{all_digits, dec_str, dec_val, is_digit_char, lemma_dec_str_val};
use crate::order::{bytes_lt, compare_strings, str_bytes, Rank};
use crate::scan::{
    find_char, first_index, has_char, join_char, lemma_first_index, lemma_first_index_concat,
    lemma_split_join, split_char, split_string,
};
use crate::HASH_KEY_BYTE_SIZE;
use vstd::prelude::*;
use vstd::string::StrSliceExecFns;

verus! {

/// Largest admitted character count of a `VARCHAR` column. A machine
/// limit: every row of a table occupies one fixed-width block, so a
/// column's width must keep the row's byte size well inside `usize`
/// arithmetic on any target.
pub const MAX_VARCHAR_CHARS: usize = 65535;

/// Largest admitted number of non-key columns in one table. A machine
/// limit like the `VARCHAR` cap: it keeps the fixed row width inside
/// `usize` arithmetic, and bounds nothing the data model cares about.
pub const MAX_COLUMNS: usize = 4096;

/// The scalar type of one column. `Varchar` carries its declared byte
/// budget; float columns are stored as their bit patterns.
#[derive(Clone, Copy, Debug, PartialEq)]
pub enum ColumnType {
    Varchar(usize),
    Int32,
    Int64,
    Unsigned32,
    Unsigned64,
    Float32,
    Float64,
    Boolean,
}

/// A column's type and whether null is admitted in it.
#[derive(Clone, Copy, Debug, PartialEq)]
pub struct Column {
    pub column_type: ColumnType,
    pub nullable: bool,
}

/// A table's name, sort-key type and named columns, the latter sorted by
/// name.
#[derive(Debug)]
pub struct TableSchema {
    pub name: String,
    pub sort_key_type: ColumnType,
    pub columns: Vec<(String, Column)>,
}

/// A column type whose `Varchar` budget, if any, is within the admitted
/// range.
pub open spec fn wf_type(t: ColumnType) -> bool {
    match t {
        ColumnType::Varchar(n) => 1 <= n <= MAX_VARCHAR_CHARS,
        _ => true,
    }
}

/// The characters of the reserved first column name.
pub open spec fn sort_key_chars() -> Seq<char> {
    seq!['s', 'o', 'r', 't', '_', 'k', 'e', 'y']
}

/// Column entries strictly ascending by the byte form of their names.
pub open spec fn cols_sorted(cols: Seq<(String, Column)>) -> bool {
    forall|i: int, j: int|
        0 <= i < j < cols.len() ==> bytes_lt(
            str_bytes(#[trigger] cols[i].0@),
            str_bytes(#[trigger] cols[j].0@),
        )
}

/// A well-formed schema: a table name free of `>`, column names free of
/// the delimiters and of the reserved name, types within range, columns
/// sorted and not too many.
pub open spec fn wf_schema(s: TableSchema) -> bool {
    &&& !has_char(s.name@, '>')
    &&& wf_type(s.sort_key_type)
    &&& cols_sorted(s.columns@)
    &&& s.columns@.len() <= MAX_COLUMNS
    &&& forall|i: int|
        0 <= i < s.columns@.len() ==> {
            &&& !has_char((#[trigger] s.columns@[i]).0@, ';')
            &&& !has_char(s.columns@[i].0@, ':')
            &&& s.columns@[i].0@ != sort_key_chars()
            &&& wf_type(s.columns@[i].1.column_type)
        }
}

/// The association of column names to columns that a column list holds;
/// a later entry for the same name wins.
pub open spec fn cols_map(cols: Seq<(String, Column)>) -> Map<Seq<char>, Column>
    decreases cols.len(),
{
    if cols.len() == 0 {
        Map::empty()
    } else {
        cols_map(cols.drop_last()).insert(cols.last().0@, cols.last().1)
    }
}

/// On-disk byte size of one value of this type.
pub open spec fn spec_type_size(t: ColumnType) -> int {
    match t {
        ColumnType::Varchar(n) => n as int,
        ColumnType::Int32 => 4,
        ColumnType::Int64 => 8,
        ColumnType::Unsigned32 => 4,
        ColumnType::Unsigned64 => 8,
        ColumnType::Float32 => 4,
        ColumnType::Float64 => 8,
        ColumnType::Boolean => 1,
    }
}

/// Combined on-disk byte size of the non-key columns.
pub open spec fn spec_cols_size(cols: Seq<(String, Column)>) -> int
    decreases cols.len(),
{
    if cols.len() == 0 {
        0
    } else {
        spec_cols_size(cols.drop_last()) + spec_type_size(cols.last().1.column_type)
    }
}

/// Fixed byte size of one encoded row of this schema: padded hash key,
/// sort key, columns in schema order, timestamp, tombstone.
pub open spec fn spec_row_size(s: TableSchema) -> int {
    HASH_KEY_BYTE_SIZE + spec_type_size(s.sort_key_type) + spec_cols_size(s.columns@) + 16 + 1
}

/// The textual form of a column type.
pub open spec fn spec_type_string(t: ColumnType) -> Seq<char> {
    match t {
        ColumnType::Varchar(n) => seq!['V', 'A', 'R', 'C', 'H', 'A', 'R', '('] + dec_str(n as int)
            + seq![')'],
        ColumnType::Int32 => seq!['I', 'N', 'T', '3', '2'],
        ColumnType::Int64 => seq!['I', 'N', 'T', '6', '4'],
        ColumnType::Unsigned32 => seq!['U', 'N', 'S', 'I', 'G', 'N', 'E', 'D', '3', '2'],
        ColumnType::Unsigned64 => seq!['U', 'N', 'S', 'I', 'G', 'N', 'E', 'D', '6', '4'],
        ColumnType::Float32 => seq!['F', 'L', 'O', 'A', 'T', '3', '2'],
        ColumnType::Float64 => seq!['F', 'L', 'O', 'A', 'T', '6', '4'],
        ColumnType::Boolean => seq!['B', 'O', 'O', 'L', 'E', 'A', 'N'],
    }
}

/// The textual form of one named column: `name:TYPE`, with `?` after a
/// nullable type.
pub open spec fn spec_column_piece(name: Seq<char>, col: Column) -> Seq<char> {
    name + seq![':'] + spec_type_string(col.column_type) + if col.nullable {
        seq!['?']
    } else {
        Seq::empty()
    }
}

/// The piece list of a schema's textual form: the sort key first, then
/// each column in order.
pub open spec fn spec_schema_pieces(s: TableSchema) -> Seq<Seq<char>> {
    seq![
        sort_key_chars() + seq![':'] + spec_type_string(s.sort_key_type),
    ] + s.columns@.map_values(|nc: (String, Column)| spec_column_piece(nc.0@, nc.1))
}

/// The full textual form of a schema.
pub open spec fn spec_schema_string(s: TableSchema) -> Seq<char> {
    s.name@ + seq!['>'] + join_char(spec_schema_pieces(s), ';')
}

/// The name part of one column piece: everything before its first colon.
pub open spec fn piece_name(piece: Seq<char>) -> Seq<char> {
    piece.take(first_index(piece, ':'))
}

/// The type text of one column piece: after the first colon, up to the
/// first question mark (or the end).
pub open spec fn piece_type_text(piece: Seq<char>) -> Seq<char> {
    let rest = piece.subrange(first_index(piece, ':') + 1, piece.len() as int);
    rest.take(first_index(rest, '?'))
}

/// Whether one column piece is marked nullable.
pub open spec fn piece_nullable(piece: Seq<char>) -> bool {
    has_char(piece.subrange(first_index(piece, ':') + 1, piece.len() as int), '?')
}

/// The column pieces of schema text: what stands after the first arrow,
/// split at semicolons.
pub open spec fn schema_text_pieces(s: Seq<char>) -> Seq<Seq<char>> {
    split_char(s.subrange(first_index(s, '>') + 1, s.len() as int), ';')
}

/// Whether `s` is the textual form of the well-formed schema `s0`.
pub open spec fn renders_to(s0: TableSchema, s: Seq<char>) -> bool {
    wf_schema(s0) && s == spec_schema_string(s0)
}

/// The character sequences of a list of strings.
pub open spec fn piece_views(pieces: Seq<String>) -> Seq<Seq<char>> {
    pieces.map_values(|p: String| p@)
}

/// Same column lists up to string views.
pub open spec fn cols_equiv(a: Seq<(String, Column)>, b: Seq<(String, Column)>) -> bool {
    a.len() == b.len() && forall|i: int|
        0 <= i < a.len() ==> (#[trigger] a[i]).0@ == b[i].0@ && a[i].1 == b[i].1
}

/// No piece of a well-formed schema's textual form holds a semicolon.
pub proof fn lemma_schema_pieces_no_semicolon(s0: TableSchema)
    requires
        wf_schema(s0),
    ensures
        spec_schema_pieces(s0).len() >= 1,
        forall|i: int|
            0 <= i < spec_schema_pieces(s0).len() ==> !has_char(
                #[trigger] spec_schema_pieces(s0)[i],
                ';',
            ),
{
    let pieces = spec_schema_pieces(s0);
    assert forall|i: int| 0 <= i < pieces.len() implies !has_char(#[trigger] pieces[i], ';') by {
        if i == 0 {
            lemma_type_string_no_delims(s0.sort_key_type);
            let p = pieces[0];
            assert(p == sort_key_chars() + seq![':'] + spec_type_string(s0.sort_key_type));
            assert forall|j: int| 0 <= j < p.len() implies p[j] != ';' by {
                if j >= 9 {
                    assert(p[j] == spec_type_string(s0.sort_key_type)[j - 9]);
                    assert(!has_char(spec_type_string(s0.sort_key_type), ';'));
                }
            }
        } else {
            let nm = s0.columns@[i - 1].0@;
            let col = s0.columns@[i - 1].1;
            assert(pieces[i] == spec_column_piece(nm, col));
            lemma_type_string_no_delims(col.column_type);
            let p = pieces[i];
            let ts = spec_type_string(col.column_type);
            assert forall|j: int| 0 <= j < p.len() implies p[j] != ';' by {
                assert(!has_char(nm, ';'));
                if j < nm.len() {
                    assert(p[j] == nm[j]);
                } else if j == nm.len() {
                    assert(p[j] == ':');
                } else if j < nm.len() + 1 + ts.len() {
                    assert(p[j] == ts[j - nm.len() - 1]);
                    assert(!has_char(ts, ';'));
                } else {
                    assert(col.nullable && p[j] == '?');
                }
            }
        }
    }
}

/// Same schema content: equal names, sort-key type, and columns.
pub open spec fn schema_equiv(a: TableSchema, b: TableSchema) -> bool {
    &&& a.name@ == b.name@
    &&& a.sort_key_type == b.sort_key_type
    &&& a.columns@.len() == b.columns@.len()
    &&& forall|i: int|
        0 <= i < a.columns@.len() ==> (#[trigger] a.columns@[i]).0@ == b.columns@[i].0@
            && a.columns@[i].1 == b.columns@[i].1
}

impl Column {
    /// A column of the given type and nullability.
    pub fn new(column_type: ColumnType, nullable: bool) -> (r: Column)
        ensures
            r.column_type == column_type,
            r.nullable == nullable,
    {
        Column { column_type, nullable }
    }
}

impl ColumnType {
    /// On-disk byte size of one value of this type.
    pub fn byte_size(&self) -> (r: usize)
        requires
            wf_type(*self),
        ensures
            r == spec_type_size(*self),
    {
        match self {
            ColumnType::Varchar(n) => *n,
            ColumnType::Int32 => 4,
            ColumnType::Int64 => 8,
            ColumnType::Unsigned32 => 4,
            ColumnType::Unsigned64 => 8,
            ColumnType::Float32 => 4,
            ColumnType::Float64 => 8,
            ColumnType::Boolean => 1,
        }
    }

    /// Appends the textual form of this type.
    fn append_type_string(&self, out: &mut String)
        ensures
            final(out)@ == old(out)@ + spec_type_string(*self),
    {
        match self {
            ColumnType::Varchar(n) => {
                proof {
                    reveal_strlit("VARCHAR(");
                    reveal_strlit(")");
                }
                out.append("VARCHAR(");
                let digits = crate::numfmt::u64_to_dec_string(*n as u64);
                out.append(digits.as_str());
                out.append(")");
                assert(out@ =~= old(out)@ + spec_type_string(*self));
            },
            ColumnType::Int32 => {
                proof {
                    reveal_strlit("INT32");
                }
                out.append("INT32");
                assert(out@ =~= old(out)@ + spec_type_string(*self));
            },
            ColumnType::Int64 => {
                proof {
                    reveal_strlit("INT64");
                }
                out.append("INT64");
                assert(out@ =~= old(out)@ + spec_type_string(*self));
            },
            ColumnType::Unsigned32 => {
                proof {
                    reveal_strlit("UNSIGNED32");
                }
                out.append("UNSIGNED32");
                assert(out@ =~= old(out)@ + spec_type_string(*self));
            },
            ColumnType::Unsigned64 => {
                proof {
                    reveal_strlit("UNSIGNED64");
                }
                out.append("UNSIGNED64");
                assert(out@ =~= old(out)@ + spec_type_string(*self));
            },
            ColumnType::Float32 => {
                proof {
                    reveal_strlit("FLOAT32");
                }
                out.append("FLOAT32");
                assert(out@ =~= old(out)@ + spec_type_string(*self));
            },
            ColumnType::Float64 => {
                proof {
                    reveal_strlit("FLOAT64");
                }
                out.append("FLOAT64");
                assert(out@ =~= old(out)@ + spec_type_string(*self));
            },
            ColumnType::Boolean => {
                proof {
                    reveal_strlit("BOOLEAN");
                }
                out.append("BOOLEAN");
                assert(out@ =~= old(out)@ + spec_type_string(*self));
            },
        }
    }
}

/// The opening characters of the textual `VARCHAR` form.
pub open spec fn varchar_prefix() -> Seq<char> {
    seq!['V', 'A', 'R', 'C', 'H', 'A', 'R', '(']
}

/// Text of the shape `VARCHAR(digits)`.
pub open spec fn is_varchar_form(s: Seq<char>) -> bool {
    &&& s.len() >= 10
    &&& s.take(8) == varchar_prefix()
    &&& s.last() == ')'
    &&& all_digits(s.subrange(8, s.len() - 1))
}

/// The digit characters inside a `VARCHAR(digits)` form.
pub open spec fn varchar_digits(s: Seq<char>) -> Seq<char> {
    s.subrange(8, s.len() - 1)
}

/// The column type that a piece of text names, if any: a full-form
/// `VARCHAR(n)` with `n` in range, or one of the scalar type words.
pub open spec fn spec_parse_type(s: Seq<char>) -> Option<ColumnType> {
    if is_varchar_form(s) {
        if 1 <= dec_val(varchar_digits(s)) <= MAX_VARCHAR_CHARS {
            Some(ColumnType::Varchar(dec_val(varchar_digits(s)) as usize))
        } else {
            None
        }
    } else if s == spec_type_string(ColumnType::Int32) {
        Some(ColumnType::Int32)
    } else if s == spec_type_string(ColumnType::Int64) {
        Some(ColumnType::Int64)
    } else if s == spec_type_string(ColumnType::Unsigned32) {
        Some(ColumnType::Unsigned32)
    } else if s == spec_type_string(ColumnType::Unsigned64) {
        Some(ColumnType::Unsigned64)
    } else if s == spec_type_string(ColumnType::Float32) {
        Some(ColumnType::Float32)
    } else if s == spec_type_string(ColumnType::Float64) {
        Some(ColumnType::Float64)
    } else if s == spec_type_string(ColumnType::Boolean) {
        Some(ColumnType::Boolean)
    } else {
        None
    }
}

/// A `VARCHAR` form whose count is outside the admitted range.
pub open spec fn is_varchar_len_error(s: Seq<char>) -> bool {
    is_varchar_form(s) && !(1 <= dec_val(varchar_digits(s)) <= MAX_VARCHAR_CHARS)
}

/// Whether every character of the string is a decimal digit.
fn check_all_digits(s: &str) -> (b: bool)
    ensures
        b == all_digits(s@),
{
    let n = s.unicode_len();
    let mut i: usize = 0;
    while i < n
        invariant
            i <= n == s@.len(),
            forall|j: int| 0 <= j < i ==> is_digit_char(#[trigger] s@[j]),
        decreases n - i,
    {
        if crate::numfmt::digit_of_char(s.get_char(i)).is_none() {
            return false;
        }
        i = i + 1;
    }
    true
}

/// A digit character is none of the delimiter characters of the schema
/// grammar.
proof fn lemma_digit_not_delim(c: char)
    requires
        is_digit_char(c),
    ensures
        c != ';' && c != ':' && c != '?' && c != '>',
{
}

/// A rendered column type holds no delimiter of the schema grammar.
pub proof fn lemma_type_string_no_delims(t: ColumnType)
    requires
        wf_type(t),
    ensures
        !has_char(spec_type_string(t), ';'),
        !has_char(spec_type_string(t), ':'),
        !has_char(spec_type_string(t), '?'),
{
    let s = spec_type_string(t);
    match t {
        ColumnType::Varchar(n) => {
            lemma_dec_str_val(n as int);
            assert forall|i: int| 0 <= i < s.len() implies s[i] != ';' && s[i] != ':' && s[i]
                != '?' by {
                if 8 <= i < s.len() - 1 {
                    assert(s[i] == dec_str(n as int)[i - 8]);
                    lemma_digit_not_delim(dec_str(n as int)[i - 8]);
                }
            }
        },
        _ => {
            assert forall|i: int| 0 <= i < s.len() implies s[i] != ';' && s[i] != ':' && s[i]
                != '?' by {}
        },
    }
}

/// Reading a rendered column type back gives the type itself.
pub proof fn lemma_parse_type_roundtrip(t: ColumnType)
    requires
        wf_type(t),
    ensures
        spec_parse_type(spec_type_string(t)) == Some(t),
{
    let s = spec_type_string(t);
    match t {
        ColumnType::Varchar(n) => {
            lemma_dec_str_val(n as int);
            assert(s.take(8) =~= varchar_prefix());
            assert(s.last() == ')');
            assert(s.subrange(8, s.len() - 1) =~= dec_str(n as int));
            assert(is_varchar_form(s));
            assert(dec_val(varchar_digits(s)) == n);
        },
        _ => {
            assert(s[0] != 'V');
            assert(!is_varchar_form(s)) by {
                if s.len() >= 10 {
                    assert(s.take(8)[0] == s[0]);
                    assert(varchar_prefix()[0] == 'V');
                }
            }
            match t {
                ColumnType::Int32 => {
                    assert(s != spec_type_string(ColumnType::Int64)) by {
                        assert(spec_type_string(ColumnType::Int64)[3] == '6');
                    }
                },
                ColumnType::Int64 => {
                    assert(s != spec_type_string(ColumnType::Int32)) by {
                        assert(spec_type_string(ColumnType::Int32)[3] == '3');
                    }
                },
                ColumnType::Unsigned32 => {
                    assert(s != spec_type_string(ColumnType::Unsigned64)) by {
                        assert(spec_type_string(ColumnType::Unsigned64)[8] == '6');
                    }
                },
                ColumnType::Unsigned64 => {
                    assert(s != spec_type_string(ColumnType::Unsigned32)) by {
                        assert(spec_type_string(ColumnType::Unsigned32)[8] == '3');
                    }
                },
                ColumnType::Float32 => {
                    assert(s != spec_type_string(ColumnType::Float64)) by {
                        assert(spec_type_string(ColumnType::Float64)[5] == '6');
                    }
                    assert(s != spec_type_string(ColumnType::Boolean)) by {
                        assert(spec_type_string(ColumnType::Boolean)[0] == 'B');
                    }
                },
                ColumnType::Float64 => {
                    assert(s != spec_type_string(ColumnType::Float32)) by {
                        assert(spec_type_string(ColumnType::Float32)[5] == '3');
                    }
                    assert(s != spec_type_string(ColumnType::Boolean)) by {
                        assert(spec_type_string(ColumnType::Boolean)[0] == 'B');
                    }
                },
                ColumnType::Boolean => {
                    assert(s != spec_type_string(ColumnType::Float32)) by {
                        assert(spec_type_string(ColumnType::Float32)[0] == 'F');
                    }
                    assert(s != spec_type_string(ColumnType::Float64)) by {
                        assert(spec_type_string(ColumnType::Float64)[0] == 'F');
                    }
                },
                _ => {},
            }
        },
    }
}

impl ColumnType {
    /// Reads a column type from its textual form; `VARCHAR` counts out
    /// of range and unknown type words are each turned away with their
    /// own message.
    pub fn from_string(type_string: &str) -> (r: Result<ColumnType, String>)
        ensures
            match spec_parse_type(type_string@) {
                Some(t) => r matches Ok(t2) && t2 == t,
                None => r matches Err(e) && e@ == (if is_varchar_len_error(type_string@) {
                    "Invalid number of chars for VARCHAR"@
                } else {
                    "Invalid column type"@
                }),
            },
            r matches Ok(t) ==> wf_type(t),
    {
        let n = type_string.unicode_len();
        if n >= 10 {
            let prefix = type_string.substring_char(0, 8);
            proof {
                reveal_strlit("VARCHAR(");
                assert("VARCHAR("@ =~= varchar_prefix());
                assert(prefix@ =~= type_string@.take(8));
            }
            let p_eq = crate::order::strings_equal(prefix, "VARCHAR(");
            let closes = type_string.get_char(n - 1) == ')';
            if p_eq && closes {
                let digits = type_string.substring_char(8, n - 1);
                proof {
                    assert(digits@ =~= type_string@.subrange(8, type_string@.len() - 1));
                }
                if check_all_digits(digits) {
                    proof {
                        assert(is_varchar_form(type_string@));
                    }
                    match crate::numfmt::parse_u64_dec(digits) {
                        Some(v) => {
                            if 1 <= v && v <= MAX_VARCHAR_CHARS as u64 {
                                return Ok(ColumnType::Varchar(v as usize));
                            }
                            return Err("Invalid number of chars for VARCHAR".to_owned());
                        },
                        None => {
                            proof {
                                assert(digits@.len() > 0);
                                assert(dec_val(digits@) > u64::MAX);
                            }
                            return Err("Invalid number of chars for VARCHAR".to_owned());
                        },
                    }
                }
            }
        }
        proof {
            reveal_strlit("INT32");
            reveal_strlit("INT64");
            reveal_strlit("UNSIGNED32");
            reveal_strlit("UNSIGNED64");
            reveal_strlit("FLOAT32");
            reveal_strlit("FLOAT64");
            reveal_strlit("BOOLEAN");
            assert("INT32"@ =~= spec_type_string(ColumnType::Int32));
            assert("INT64"@ =~= spec_type_string(ColumnType::Int64));
            assert("UNSIGNED32"@ =~= spec_type_string(ColumnType::Unsigned32));
            assert("UNSIGNED64"@ =~= spec_type_string(ColumnType::Unsigned64));
            assert("FLOAT32"@ =~= spec_type_string(ColumnType::Float32));
            assert("FLOAT64"@ =~= spec_type_string(ColumnType::Float64));
            assert("BOOLEAN"@ =~= spec_type_string(ColumnType::Boolean));
        }
        if crate::order::strings_equal(type_string, "INT32") {
            Ok(ColumnType::Int32)
        } else if crate::order::strings_equal(type_string, "INT64") {
            Ok(ColumnType::Int64)
        } else if crate::order::strings_equal(type_string, "UNSIGNED32") {
            Ok(ColumnType::Unsigned32)
        } else if crate::order::strings_equal(type_string, "UNSIGNED64") {
            Ok(ColumnType::Unsigned64)
        } else if crate::order::strings_equal(type_string, "FLOAT32") {
            Ok(ColumnType::Float32)
        } else if crate::order::strings_equal(type_string, "FLOAT64") {
            Ok(ColumnType::Float64)
        } else if crate::order::strings_equal(type_string, "BOOLEAN") {
            Ok(ColumnType::Boolean)
        } else {
            Err("Invalid column type".to_owned())
        }
    }
}

impl TableSchema {
    /// A schema with the given name and sort-key type and no further
    /// columns yet.
    pub fn new(table_name: String, sort_key_type: ColumnType) -> (r: TableSchema)
        ensures
            r.name == table_name,
            r.sort_key_type == sort_key_type,
            r.columns@.len() == 0,
    {
        TableSchema { name: table_name, sort_key_type, columns: Vec::new() }
    }

    /// Puts a column in at its sorted place; an existing column of the
    /// same name is replaced.
    pub fn add_column(&mut self, name: String, column: Column)
        requires
            cols_sorted(old(self).columns@),
        ensures
            final(self).name == old(self).name,
            final(self).sort_key_type == old(self).sort_key_type,
            cols_sorted(final(self).columns@),
            cols_map(final(self).columns@) == cols_map(old(self).columns@).insert(name@, column),
            old(self).columns@.len() <= final(self).columns@.len() <= old(self).columns@.len() + 1,
            (forall|i: int|
                0 <= i < old(self).columns@.len() ==> bytes_lt(
                    str_bytes((#[trigger] old(self).columns@[i]).0@),
                    str_bytes(name@),
                )) ==> final(self).columns@ == old(self).columns@.push((name, column)),
            forall|i: int|
                0 <= i < final(self).columns@.len() ==> ((#[trigger] final(self).columns@[i]).0@
                    == name@ && final(self).columns@[i].1 == column) || (exists|j: int|
                    0 <= j < old(self).columns@.len() && old(self).columns@[j]
                        == final(self).columns@[i]),
    {
        let n = self.columns.len();
        let mut i: usize = 0;
        while i < n
            invariant
                n == self.columns@.len(),
                0 <= i <= n,
                *self == *old(self),
                cols_sorted(self.columns@),
                forall|j: int|
                    0 <= j < i ==> bytes_lt(
                        str_bytes((#[trigger] self.columns@[j]).0@),
                        str_bytes(name@),
                    ),
            decreases n - i,
        {
            let r = compare_strings(self.columns[i].0.as_str(), name.as_str());
            if r == Rank::Equal {
                // replace in place
                let ghost oldcols = self.columns@;
                self.columns[i] = (name, column);
                proof {
                    crate::order::lemma_bytes_lt_irrefl(str_bytes(name@));
                    lemma_cols_map_update(oldcols, i as int, name, column);
                    assert(cols_map(self.columns@) =~= cols_map(old(self).columns@).insert(
                        name@,
                        column,
                    ));
                    assert(cols_sorted(self.columns@)) by {
                        assert(forall|j: int|
                            0 <= j < oldcols.len() && j != i
                                ==> (#[trigger] self.columns@[j]).0@ == oldcols[j].0@);
                        assert(self.columns@[i as int].0@ == oldcols[i as int].0@);
                    }
                }
                return ;
            } else if r == Rank::Above {
                // self.columns[i].0 is above name: insert here
                let ghost oldcols = self.columns@;
                proof {
                    assert forall|j: int| i <= j < oldcols.len() implies bytes_lt(
                        str_bytes(name@),
                        str_bytes((#[trigger] oldcols[j]).0@),
                    ) by {
                        if j > i {
                            crate::order::lemma_bytes_lt_trans(
                                str_bytes(name@),
                                str_bytes(oldcols[i as int].0@),
                                str_bytes(oldcols[j].0@),
                            );
                        }
                    }
                    if bytes_lt(str_bytes(oldcols[i as int].0@), str_bytes(name@)) {
                        crate::order::lemma_bytes_lt_trans(
                            str_bytes(name@),
                            str_bytes(oldcols[i as int].0@),
                            str_bytes(name@),
                        );
                        crate::order::lemma_bytes_lt_irrefl(str_bytes(name@));
                    }
                }
                self.columns.insert(i, (name, column));
                proof {
                    lemma_cols_map_insert(oldcols, i as int, name, column);
                    assert(cols_map(self.columns@) =~= cols_map(old(self).columns@).insert(
                        name@,
                        column,
                    ));
                    assert(cols_sorted(self.columns@)) by {
                        assert forall|a: int, b: int|
                            0 <= a < b < self.columns@.len() implies bytes_lt(
                            str_bytes((#[trigger] self.columns@[a]).0@),
                            str_bytes((#[trigger] self.columns@[b]).0@),
                        ) by {
                            if a < i && b == i {
                            } else if a == i && b > i {
                                assert(self.columns@[b] == oldcols[b - 1]);
                            } else if a < i && b > i {
                                assert(self.columns@[a] == oldcols[a]);
                                assert(self.columns@[b] == oldcols[b - 1]);
                            } else if a > i && b > i {
                                assert(self.columns@[a] == oldcols[a - 1]);
                                assert(self.columns@[b] == oldcols[b - 1]);
                            }
                        }
                    }
                }
                return ;
            }
            i = i + 1;
        }
        self.columns.push((name, column));
        proof {
            assert(self.columns@.drop_last() =~= old(self).columns@);
            assert(cols_map(self.columns@) =~= cols_map(old(self).columns@).insert(name@, column));
            assert(cols_sorted(self.columns@)) by {
                assert(forall|j: int|
                    0 <= j < old(self).columns@.len() ==> (#[trigger] self.columns@[j])
                        == old(self).columns@[j]);
            }
        }
    }

    /// Reads a schema from its textual form. The textual form of any
    /// well-formed schema is accepted and gives that schema back; text
    /// without the `name>...` arrow is turned away.
    pub fn from_string(schema_string: &str) -> (r: Result<TableSchema, String>)
        ensures
            r matches Ok(p) ==> wf_schema(p),
            forall|s0: TableSchema|
                renders_to(s0, schema_string@) ==> (r matches Ok(p) && schema_equiv(p, s0)),
            !has_char(schema_string@, '>') ==> (r matches Err(e) && e@ == "Invalid schema string"@),
            r is Ok ==> {
                let pieces = schema_text_pieces(schema_string@);
                &&& has_char(schema_string@, '>')
                &&& forall|i: int| 0 <= i < pieces.len() ==> has_char(#[trigger] pieces[i], ':')
                &&& exists|i: int|
                    0 <= i < pieces.len() && piece_name(#[trigger] pieces[i]) == sort_key_chars()
                &&& forall|i: int|
                    0 <= i < pieces.len() && piece_name(#[trigger] pieces[i]) == sort_key_chars()
                        ==> !piece_nullable(pieces[i])
                &&& forall|i: int|
                    0 <= i < pieces.len() ==> spec_parse_type(
                        piece_type_text(#[trigger] pieces[i]),
                    ) is Some
            },
    {
        let n = schema_string.unicode_len();
        let gi_opt = find_char(schema_string, '>');
        proof {
            assert forall|s0: TableSchema| renders_to(s0, schema_string@) implies gi_opt matches Some(
                gi,
            ) && gi == s0.name@.len() by {
                lemma_first_index_concat(
                    s0.name@,
                    join_char(spec_schema_pieces(s0), ';'),
                    '>',
                );
                assert(schema_string@ == s0.name@ + seq!['>'] + join_char(
                    spec_schema_pieces(s0),
                    ';',
                ));
                assert(schema_string@[s0.name@.len() as int] == '>');
            }
        }
        let gi = match gi_opt {
            Some(gi) => gi,
            None => {
                return Err("Invalid schema string".to_owned());
            },
        };
        let table_name = schema_string.substring_char(0, gi).to_owned();
        let rest = schema_string.substring_char(gi + 1, n);
        proof {
            assert(table_name@ =~= schema_string@.take(gi as int));
            assert(rest@ =~= schema_string@.subrange(gi as int + 1, schema_string@.len() as int));
            assert(!has_char(table_name@, '>')) by {
                crate::scan::lemma_first_index(schema_string@, '>');
                assert forall|j: int| 0 <= j < gi implies table_name@[j] != '>' by {
                    assert(table_name@[j] == schema_string@[j]);
                }
            }
            assert forall|s0: TableSchema| renders_to(s0, schema_string@) implies table_name@
                == s0.name@ && rest@ == join_char(spec_schema_pieces(s0), ';') by {
                assert(table_name@ =~= s0.name@);
                assert(rest@ =~= join_char(spec_schema_pieces(s0), ';'));
            }
        }
        let pieces = split_string(rest, ';');
        let m = pieces.len();
        proof {
            crate::scan::lemma_split_pieces_no_char(rest@, ';');
            assert forall|i: int| 0 <= i < pieces@.len() implies !has_char(
                #[trigger] piece_views(pieces@)[i],
                ';',
            ) by {
                assert(piece_views(pieces@)[i] == split_char(rest@, ';')[i]);
            }
        }
        proof {
            assert forall|s0: TableSchema| renders_to(s0, schema_string@) implies piece_views(
                pieces@,
            ) == spec_schema_pieces(s0) && m == 1 + s0.columns@.len() by {
                lemma_schema_pieces_no_semicolon(s0);
                lemma_split_join(spec_schema_pieces(s0), ';');
                assert(piece_views(pieces@) == split_char(rest@, ';'));
            }
        }
        proof {
            assert(piece_views(pieces@) == schema_text_pieces(schema_string@)) by {
                assert(rest@ == schema_string@.subrange(
                    first_index(schema_string@, '>') + 1,
                    schema_string@.len() as int,
                ));
            }
        }
        let mut schema = TableSchema {
            name: table_name,
            sort_key_type: ColumnType::Boolean,
            columns: Vec::new(),
        };
        let mut skf: Option<ColumnType> = None;
        let mut k: usize = 0;
        while k < m
            invariant
                m == pieces@.len(),
                0 <= k <= m,
                has_char(schema_string@, '>'),
                piece_views(pieces@) == schema_text_pieces(schema_string@),
                forall|i: int|
                    0 <= i < pieces@.len() ==> !has_char(#[trigger] piece_views(pieces@)[i], ';'),
                forall|t: int|
                    0 <= t < k ==> {
                        &&& has_char(#[trigger] piece_views(pieces@)[t], ':')
                        &&& (piece_name(piece_views(pieces@)[t]) == sort_key_chars()
                            ==> !piece_nullable(piece_views(pieces@)[t]))
                        &&& spec_parse_type(piece_type_text(piece_views(pieces@)[t])) is Some
                    },
                skf is Some ==> exists|t: int|
                    0 <= t < k && piece_name(#[trigger] piece_views(pieces@)[t])
                        == sort_key_chars(),
                cols_sorted(schema.columns@),
                schema.columns@.len() <= MAX_COLUMNS,
                !has_char(schema.name@, '>'),
                forall|i: int|
                    0 <= i < schema.columns@.len() ==> {
                        &&& !has_char((#[trigger] schema.columns@[i]).0@, ';')
                        &&& !has_char(schema.columns@[i].0@, ':')
                        &&& schema.columns@[i].0@ != sort_key_chars()
                        &&& wf_type(schema.columns@[i].1.column_type)
                    },
                skf matches Some(t) ==> wf_type(t),
                forall|s0: TableSchema|
                    renders_to(s0, schema_string@) ==> {
                        &&& piece_views(pieces@) == spec_schema_pieces(s0)
                        &&& m == 1 + s0.columns@.len()
                        &&& schema.name@ == s0.name@
                        &&& (k >= 1 ==> skf == Some(s0.sort_key_type))
                        &&& (k >= 1 ==> cols_equiv(
                            schema.columns@,
                            s0.columns@.take(k as int - 1),
                        ))
                        &&& (k == 0 ==> schema.columns@.len() == 0)
                    },
            decreases m - k,
        {
            let piece = &pieces[k];
            let plen = piece.unicode_len();
            proof {
                assert(piece@ == piece_views(pieces@)[k as int]);
                assert forall|s0: TableSchema| renders_to(s0, schema_string@) implies piece@
                    == spec_schema_pieces(s0)[k as int] by {}
            }
            let ci_opt = find_char(piece.as_str(), ':');
            proof {
                assert forall|s0: TableSchema| renders_to(s0, schema_string@) implies ci_opt matches Some(
                    ci,
                ) && (k == 0 ==> ci == sort_key_chars().len()) && (k >= 1 ==> ci == s0.columns@[(k
                    - 1) as int].0@.len()) by {
                    lemma_type_string_no_delims(
                        if k == 0 {
                            s0.sort_key_type
                        } else {
                            s0.columns@[k - 1].1.column_type
                        },
                    );
                    if k == 0 {
                        assert(piece@ == sort_key_chars() + seq![':'] + spec_type_string(
                            s0.sort_key_type,
                        ));
                        assert(!has_char(sort_key_chars(), ':'));
                        lemma_first_index_concat(
                            sort_key_chars(),
                            spec_type_string(s0.sort_key_type),
                            ':',
                        );
                    } else {
                        let nm = s0.columns@[k - 1].0@;
                        let col = s0.columns@[k - 1].1;
                        assert(piece@ == spec_column_piece(nm, col)) by {
                            assert(spec_schema_pieces(s0)[k as int] == spec_column_piece(nm, col));
                        }
                        let tail = spec_type_string(col.column_type) + if col.nullable {
                            seq!['?']
                        } else {
                            Seq::<char>::empty()
                        };
                        assert(piece@ =~= nm + seq![':'] + tail);
                        lemma_first_index_concat(nm, tail, ':');
                    }
                    crate::scan::lemma_first_index(piece@, ':');
                }
            }
            let ci = match ci_opt {
                Some(ci) => ci,
                None => {
                    return Err("Invalid schema string".to_owned());
                },
            };
            let name_part = piece.substring_char(0, ci);
            let type_part0 = piece.substring_char(ci + 1, plen);
            proof {
                assert(name_part@ =~= piece@.take(ci as int));
                assert(type_part0@ =~= piece@.subrange(ci as int + 1, piece@.len() as int));
            }
            let qd_opt = find_char(type_part0, '?');
            let (type_part, nullable): (&str, bool) = match qd_opt {
                Some(qi) => (type_part0.substring_char(0, qi), true),
                None => (type_part0, false),
            };
            proof {
                assert forall|s0: TableSchema| renders_to(s0, schema_string@) implies {
                    &&& (k == 0 ==> name_part@ == sort_key_chars() && type_part@
                        == spec_type_string(s0.sort_key_type) && nullable == false)
                    &&& (k >= 1 ==> name_part@ == s0.columns@[k - 1].0@ && type_part@
                        == spec_type_string(s0.columns@[k - 1].1.column_type) && nullable
                        == s0.columns@[k - 1].1.nullable)
                } by {
                    if k == 0 {
                        assert(piece@ == sort_key_chars() + seq![':'] + spec_type_string(
                            s0.sort_key_type,
                        ));
                        assert(name_part@ =~= sort_key_chars());
                        assert(type_part0@ =~= spec_type_string(s0.sort_key_type));
                        lemma_type_string_no_delims(s0.sort_key_type);
                        assert(qd_opt is None);
                    } else {
                        let nm = s0.columns@[k - 1].0@;
                        let col = s0.columns@[k - 1].1;
                        assert(piece@ == spec_column_piece(nm, col)) by {
                            assert(spec_schema_pieces(s0)[k as int] == spec_column_piece(nm, col));
                        }
                        assert(name_part@ =~= nm);
                        lemma_type_string_no_delims(col.column_type);
                        if col.nullable {
                            assert(type_part0@ =~= spec_type_string(col.column_type) + seq!['?']);
                            lemma_first_index_concat(
                                spec_type_string(col.column_type),
                                Seq::<char>::empty(),
                                '?',
                            );
                            assert(spec_type_string(col.column_type) + seq!['?']
                                + Seq::<char>::empty() =~= type_part0@);
                            assert(qd_opt matches Some(qi) && qi == spec_type_string(
                                col.column_type,
                            ).len());
                            assert(type_part@ =~= spec_type_string(col.column_type));
                        } else {
                            assert(type_part0@ =~= spec_type_string(col.column_type));
                            assert(qd_opt is None);
                        }
                    }
                }
            }
            proof {
                reveal_strlit("sort_key");
                assert("sort_key"@ =~= sort_key_chars());
            }
            let is_sk = crate::order::strings_equal(name_part, "sort_key");
            if is_sk && nullable {
                proof {
                    assert forall|s0: TableSchema| renders_to(s0, schema_string@) implies false by {
                        if k >= 1 {
                            assert(s0.columns@[k - 1].0@ != sort_key_chars());
                        }
                    }
                }
                return Err("sort_key cannot be nullable".to_owned());
            }
            let parsed = ColumnType::from_string(type_part);
            let t = match parsed {
                Ok(t) => t,
                Err(e) => {
                    proof {
                        assert forall|s0: TableSchema| renders_to(s0, schema_string@) implies false by {
                            if k == 0 {
                                lemma_parse_type_roundtrip(s0.sort_key_type);
                            } else {
                                lemma_parse_type_roundtrip(s0.columns@[k - 1].1.column_type);
                            }
                        }
                    }
                    return Err(e);
                },
            };
            proof {
                assert forall|s0: TableSchema| renders_to(s0, schema_string@) implies (k == 0 ==> t
                    == s0.sort_key_type) && (k >= 1 ==> t == s0.columns@[k - 1].1.column_type) by {
                    if k == 0 {
                        lemma_parse_type_roundtrip(s0.sort_key_type);
                    } else {
                        lemma_parse_type_roundtrip(s0.columns@[k - 1].1.column_type);
                    }
                }
                // this piece passed every check: record its shape
                assert(has_char(piece@, ':')) by {
                    crate::scan::lemma_first_index(piece@, ':');
                }
                assert(name_part@ == piece_name(piece@));
                assert(type_part0@ == piece@.subrange(
                    first_index(piece@, ':') + 1,
                    piece@.len() as int,
                ));
                assert(type_part@ == piece_type_text(piece@)) by {
                    match qd_opt {
                        Some(qi) => {
                            assert(type_part@ =~= type_part0@.take(qi as int));
                        },
                        None => {
                            assert(type_part0@.take(type_part0@.len() as int) =~= type_part0@);
                        },
                    }
                }
                assert(nullable == piece_nullable(piece@));
                assert(spec_parse_type(piece_type_text(piece@)) is Some);
                assert(!(piece_name(piece@) == sort_key_chars() && piece_nullable(piece@)) || (
                is_sk && nullable));
            }
            if is_sk {
                skf = Some(t);
                proof {
                    assert(piece_name(#[trigger] piece_views(pieces@)[k as int])
                        == sort_key_chars());
                    assert forall|s0: TableSchema| renders_to(s0, schema_string@) implies k == 0 by {
                        if k >= 1 {
                            assert(s0.columns@[k - 1].0@ != sort_key_chars());
                        }
                    }
                    assert forall|s0: TableSchema| renders_to(s0, schema_string@) implies
                        cols_equiv(schema.columns@, s0.columns@.take(k as int)) by {
                        assert(s0.columns@.take(0) =~= Seq::<(String, Column)>::empty());
                    }
                }
            } else {
                if schema.columns.len() >= MAX_COLUMNS {
                    proof {
                        assert forall|s0: TableSchema| renders_to(s0, schema_string@) implies false by {
                            assert(k >= 1);
                            assert(cols_equiv(schema.columns@, s0.columns@.take(k as int - 1)));
                            assert(s0.columns@.len() <= MAX_COLUMNS);
                        }
                    }
                    return Err("Invalid schema string".to_owned());
                }
                let ghost oldcols = schema.columns@;
                let column = Column { column_type: t, nullable };
                let owned_name = name_part.to_owned();
                let ghost pushed: (String, Column) = (owned_name, column);
                proof {
                    assert(!has_char(name_part@, ';')) by {
                        assert(piece@ == piece_views(pieces@)[k as int]);
                        assert(!has_char(piece@, ';'));
                        assert forall|j: int| 0 <= j < name_part@.len() implies name_part@[j]
                            != ';' by {
                            assert(name_part@[j] == piece@[j]);
                        }
                    }
                    assert(!has_char(name_part@, ':')) by {
                        crate::scan::lemma_first_index(piece@, ':');
                        assert forall|j: int| 0 <= j < name_part@.len() implies name_part@[j]
                            != ':' by {
                            assert(name_part@[j] == piece@[j]);
                        }
                    }
                    assert(name_part@ != sort_key_chars());
                }
                schema.add_column(owned_name, column);
                proof {
                    assert forall|s0: TableSchema| renders_to(s0, schema_string@) implies k >= 1
                        && cols_equiv(schema.columns@, s0.columns@.take(k as int)) by {
                        if k == 0 {
                            assert(name_part@ == sort_key_chars());
                        } else {
                            let nm = s0.columns@[k - 1].0@;
                            assert(cols_equiv(oldcols, s0.columns@.take(k as int - 1)));
                            assert forall|i: int| 0 <= i < oldcols.len() implies bytes_lt(
                                str_bytes((#[trigger] oldcols[i]).0@),
                                str_bytes(name_part@),
                            ) by {
                                assert(oldcols[i].0@ == s0.columns@.take(k as int - 1)[i].0@);
                                assert(s0.columns@.take(k as int - 1)[i] == s0.columns@[i]);
                                assert(bytes_lt(
                                    str_bytes(s0.columns@[i].0@),
                                    str_bytes(s0.columns@[k - 1].0@),
                                ));
                            }
                            assert(schema.columns@ == oldcols.push(pushed));
                            assert(pushed.0@ == name_part@);
                            assert(cols_equiv(schema.columns@, s0.columns@.take(k as int))) by {
                                assert(s0.columns@.take(k as int).len() == k as int);
                                assert forall|i: int|
                                    0 <= i < k implies (#[trigger] schema.columns@[i]).0@
                                    == s0.columns@.take(k as int)[i].0@ && schema.columns@[i].1
                                    == s0.columns@.take(k as int)[i].1 by {
                                    assert(s0.columns@.take(k as int)[i] == s0.columns@[i]);
                                    if i < k - 1 {
                                        assert(schema.columns@[i] == oldcols[i]);
                                        assert(oldcols[i].0@ == s0.columns@.take(
                                            k as int - 1,
                                        )[i].0@);
                                        assert(s0.columns@.take(k as int - 1)[i]
                                            == s0.columns@[i]);
                                    } else {
                                        assert(schema.columns@[i] == pushed);
                                    }
                                }
                            }
                        }
                    }
                }
            }
            k = k + 1;
        }
        let t = match skf {
            Some(t) => t,
            None => {
                proof {
                    assert forall|s0: TableSchema| renders_to(s0, schema_string@) implies false by {
                        assert(m >= 1);
                    }
                }
                return Err("Invalid first column, should be 'sort_key'".to_owned());
            },
        };
        schema.sort_key_type = t;
        proof {
            assert forall|s0: TableSchema| renders_to(s0, schema_string@) implies schema_equiv(
                schema,
                s0,
            ) by {
                assert(m >= 1);
                assert(s0.columns@.take(m as int - 1) =~= s0.columns@);
            }
        }
        Ok(schema)
    }

    /// Fixed byte size of one encoded row of this schema.
    pub fn row_byte_size(&self) -> (r: usize)
        requires
            wf_schema(*self),
        ensures
            r == spec_row_size(*self),
            r <= 0x1100_0000,
    {
        proof {
            lemma_cols_size_bound(self.columns@);
        }
        let mut values_byte_size: usize = 0;
        let n = self.columns.len();
        let mut i: usize = 0;
        while i < n
            invariant
                wf_schema(*self),
                n == self.columns@.len(),
                0 <= i <= n,
                values_byte_size == spec_cols_size(self.columns@.take(i as int)),
                values_byte_size <= i * 0x10000,
            decreases n - i,
        {
            proof {
                assert(self.columns@.take(i + 1).drop_last() =~= self.columns@.take(i as int));
                assert(self.columns@.take(i + 1).last() == self.columns@[i as int]);
                assert(wf_type(self.columns@[i as int].1.column_type));
                assert((i + 1) * 0x10000 == i * 0x10000 + 0x10000);
                assert(i * 0x10000 <= MAX_COLUMNS * 0x10000) by (nonlinear_arith)
                    requires
                        0 <= i <= MAX_COLUMNS,
                ;
            }
            values_byte_size = values_byte_size + self.columns[i].1.column_type.byte_size();
            i = i + 1;
        }
        proof {
            assert(self.columns@.take(n as int) =~= self.columns@);
            assert(values_byte_size <= MAX_COLUMNS * 0x10000) by (nonlinear_arith)
                requires
                    values_byte_size <= n * 0x10000,
                    0 <= n <= MAX_COLUMNS,
            ;
        }
        HASH_KEY_BYTE_SIZE + self.sort_key_type.byte_size() + values_byte_size + 16 + 1
    }

    /// The textual form of this schema:
    /// `name>sort_key:TYPE;col:TYPE[?];...`.
    pub fn to_schema_string(&self) -> (r: String)
        ensures
            r@ == spec_schema_string(*self),
    {
        let mut out = String::new();
        out.append(self.name.as_str());
        proof {
            reveal_strlit(">");
            reveal_strlit("sort_key:");
        }
        out.append(">");
        out.append("sort_key:");
        assert(out@ =~= self.name@ + seq!['>'] + (sort_key_chars() + seq![':']));
        self.sort_key_type.append_type_string(&mut out);
        let n = self.columns.len();
        let mut i: usize = 0;
        while i < n
            invariant
                n == self.columns@.len(),
                0 <= i <= n,
                out@ == self.name@ + seq!['>'] + join_char(
                    spec_schema_pieces(*self).take(i + 1),
                    ';',
                ),
            decreases n - i,
        {
            proof {
                reveal_strlit(";");
                reveal_strlit(":");
                reveal_strlit("?");
            }
            out.append(";");
            out.append(self.columns[i].0.as_str());
            out.append(":");
            self.columns[i].1.column_type.append_type_string(&mut out);
            if self.columns[i].1.nullable {
                out.append("?");
            }
            proof {
                let pieces = spec_schema_pieces(*self);
                assert(pieces[i + 1] == spec_column_piece(
                    self.columns@[i as int].0@,
                    self.columns@[i as int].1,
                ));
                lemma_join_take_step_pub(pieces, ';', i + 1);
                assert(out@ =~= self.name@ + seq!['>'] + join_char(pieces.take(i + 2), ';'));
            }
            i = i + 1;
        }
        proof {
            assert(spec_schema_pieces(*self).take(n + 1) =~= spec_schema_pieces(*self));
        }
        out
    }
}

/// Extending the joined prefix by one piece appends a separator and that
/// piece.
pub proof fn lemma_join_take_step_pub(pieces: Seq<Seq<char>>, c: char, i: int)
    requires
        1 <= i < pieces.len(),
    ensures
        join_char(pieces.take(i + 1), c) == join_char(pieces.take(i), c) + seq![c] + pieces[i],
    decreases i,
{
    if i == 1 {
        assert(pieces.take(2).drop_first() =~= seq![pieces[1]]);
        assert(join_char(pieces.take(2), c) == pieces.take(2)[0] + seq![c] + join_char(
            seq![pieces[1]],
            c,
        ));
        assert(pieces.take(1) =~= seq![pieces[0]]);
        assert(pieces.take(2)[0] == pieces[0]);
    } else {
        lemma_join_take_step_pub(pieces.drop_first(), c, i - 1);
        assert(pieces.take(i + 1).drop_first() =~= pieces.drop_first().take(i));
        assert(pieces.take(i).drop_first() =~= pieces.drop_first().take(i - 1));
        assert(join_char(pieces.take(i + 1), c) == pieces[0] + seq![c] + join_char(
            pieces.drop_first().take(i),
            c,
        ));
        assert(join_char(pieces.take(i), c) == pieces[0] + seq![c] + join_char(
            pieces.drop_first().take(i - 1),
            c,
        ));
        assert(pieces.drop_first()[i - 1] == pieces[i]);
        assert(join_char(pieces.take(i + 1), c) =~= join_char(pieces.take(i), c) + seq![c]
            + pieces[i]);
    }
}

/// Replacing the entry at a sorted position leaves the association as an
/// insert of that name.
proof fn lemma_cols_map_update(cols: Seq<(String, Column)>, i: int, name: String, column: Column)
    requires
        0 <= i < cols.len(),
        cols[i].0@ == name@,
        cols_sorted(cols),
    ensures
        cols_map(cols.update(i, (name, column))) =~= cols_map(cols).insert(name@, column),
    decreases cols.len(),
{
    let updated = cols.update(i, (name, column));
    if i == cols.len() - 1 {
        assert(updated.drop_last() =~= cols.drop_last());
        assert(updated.last() == (name, column));
    } else {
        assert(updated.last() == cols.last());
        assert(updated.drop_last() =~= cols.drop_last().update(i, (name, column)));
        lemma_cols_map_update(cols.drop_last(), i, name, column);
        // the keys differ: cols[i] is strictly below the last entry
        assert(bytes_lt(str_bytes(cols[i].0@), str_bytes(cols.last().0@)));
        crate::order::lemma_bytes_lt_irrefl(str_bytes(cols[i].0@));
        assert(name@ != cols.last().0@);
    }
}

/// Inserting an entry strictly between its sorted neighbours adds one
/// binding to the association.
proof fn lemma_cols_map_insert(cols: Seq<(String, Column)>, i: int, name: String, column: Column)
    requires
        0 <= i <= cols.len(),
        cols_sorted(cols),
        forall|j: int| 0 <= j < i ==> bytes_lt(str_bytes((#[trigger] cols[j]).0@), str_bytes(name@)),
        forall|j: int|
            i <= j < cols.len() ==> bytes_lt(str_bytes(name@), str_bytes((#[trigger] cols[j]).0@)),
    ensures
        cols_map(cols.insert(i, (name, column))) =~= cols_map(cols).insert(name@, column),
    decreases cols.len(),
{
    let inserted = cols.insert(i, (name, column));
    if i == cols.len() {
        assert(inserted.drop_last() =~= cols);
        assert(inserted.last() == (name, column));
    } else {
        assert(inserted.last() == cols.last());
        assert(inserted.drop_last() =~= cols.drop_last().insert(i, (name, column)));
        lemma_cols_map_insert(cols.drop_last(), i, name, column);
        assert(bytes_lt(str_bytes(name@), str_bytes(cols.last().0@)));
        crate::order::lemma_bytes_lt_irrefl(str_bytes(name@));
        assert(name@ != cols.last().0@);
    }
}

/// The combined column size is bounded by the per-column cap.
pub proof fn lemma_cols_size_bound(cols: Seq<(String, Column)>)
    requires
        forall|i: int| 0 <= i < cols.len() ==> wf_type((#[trigger] cols[i]).1.column_type),
    ensures
        0 <= spec_cols_size(cols) <= cols.len() * 0x10000,
    decreases cols.len(),
{
    if cols.len() == 0 {
    } else {
        lemma_cols_size_bound(cols.drop_last());
        assert(wf_type(cols.last().1.column_type));
        assert((cols.len() - 1) * 0x10000 + 0x10000 == cols.len() * 0x10000) by (nonlinear_arith);
    }
}

} // verus!
