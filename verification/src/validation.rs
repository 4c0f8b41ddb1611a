//! Checking proposed values against a table schema before a write is
//! admitted: every column present, sort key non-null and of its declared
//! type, nullability respected, strings within their budgets.
use crate::codec::value_fits;
use crate::order::strings_equal;
use crate::schema::{wf_schema, TableSchema};
use crate::value::Value;
use vstd::prelude::*;
use vstd::string::StringSliceAdditionalSpecFns;
use vstd::utf8::encode_utf8;

verus! {

/// First position holding the name, if any.
pub open spec fn spec_find_value(values: Seq<(String, Value)>, name: Seq<char>) -> Option<int>
    decreases values.len(),
{
    if values.len() == 0 {
        None
    } else if values[0].0@ == name {
        Some(0int)
    } else {
        match spec_find_value(values.drop_first(), name) {
            Some(i) => Some(i + 1),
            None => None,
        }
    }
}

/// Whether one value is admissible in a column: null only where the
/// column allows it, otherwise the declared type (string budgets
/// included).
pub open spec fn value_admissible(v: Value, col: crate::schema::Column) -> bool {
    if v == Value::Null {
        col.nullable
    } else {
        value_fits(v, col.column_type)
    }
}

/// Whether a proposed write is admissible under a schema: a non-null
/// sort key of the sort-key type, and for every declared column a value
/// present under its name and admissible in it.
pub open spec fn values_valid(
    sort_key: Value,
    values: Seq<(String, Value)>,
    s: TableSchema,
) -> bool {
    &&& sort_key != Value::Null
    &&& value_fits(sort_key, s.sort_key_type)
    &&& forall|i: int|
        0 <= i < s.columns@.len() ==> {
            &&& spec_find_value(values, (#[trigger] s.columns@[i]).0@) matches Some(j)
            &&& value_admissible(
                values[spec_find_value(values, s.columns@[i].0@)->Some_0].1,
                s.columns@[i].1,
            )
        }
}

/// Byte length of a string's UTF-8 form.
pub fn str_byte_len(s: &str) -> (l: usize)
    ensures
        l == encode_utf8(s@).len(),
{
    let b = s.as_bytes();
    b.len()
}

/// Finds the first entry under a name.
fn find_value(values: &Vec<(String, Value)>, name: &str) -> (r: Option<usize>)
    ensures
        r matches Some(i) ==> spec_find_value(values@, name@) == Some(i as int) && i
            < values@.len() && values@[i as int].0@ == name@,
        r is None ==> spec_find_value(values@, name@) is None,
{
    let n = values.len();
    let mut i: usize = 0;
    while i < n
        invariant
            n == values@.len(),
            0 <= i <= n,
            forall|j: int| 0 <= j < i ==> (#[trigger] values@[j]).0@ != name@,
        decreases n - i,
    {
        if strings_equal(values[i].0.as_str(), name) {
            proof {
                lemma_find_value_at(values@, name@, i as int);
            }
            return Some(i);
        }
        i = i + 1;
    }
    proof {
        lemma_find_value_none(values@, name@);
    }
    None
}

/// `spec_find_value` points at the first match.
proof fn lemma_find_value_at(values: Seq<(String, Value)>, name: Seq<char>, i: int)
    requires
        0 <= i < values.len(),
        values[i].0@ == name,
        forall|j: int| 0 <= j < i ==> (#[trigger] values[j]).0@ != name,
    ensures
        spec_find_value(values, name) == Some(i),
    decreases i,
{
    if i > 0 {
        assert(values[0].0@ != name);
        lemma_find_value_at(values.drop_first(), name, i - 1);
    }
}

/// Without a match `spec_find_value` comes back empty.
proof fn lemma_find_value_none(values: Seq<(String, Value)>, name: Seq<char>)
    requires
        forall|j: int| 0 <= j < values.len() ==> (#[trigger] values[j]).0@ != name,
    ensures
        spec_find_value(values, name) is None,
    decreases values.len(),
{
    if values.len() > 0 {
        assert forall|j: int| 0 <= j < values.drop_first().len() implies (
        #[trigger] values.drop_first()[j]).0@ != name by {
            assert(values.drop_first()[j] == values[j + 1]);
        }
        lemma_find_value_none(values.drop_first(), name);
    }
}

/// Whether a value fits a bare column type: the matching variant, with
/// strings inside their budget; null fits any column type.
pub fn check_fits(v: &Value, t: &crate::schema::ColumnType) -> (r: bool)
    ensures
        r == value_fits(*v, *t),
{
    match v {
        Value::Null => true,
        Value::Varchar(s) => {
            match t {
                crate::schema::ColumnType::Varchar(n) => str_byte_len(s.as_str()) <= *n,
                _ => false,
            }
        },
        Value::Int32(_) => matches!(t, crate::schema::ColumnType::Int32),
        Value::Int64(_) => matches!(t, crate::schema::ColumnType::Int64),
        Value::Unsigned32(_) => matches!(t, crate::schema::ColumnType::Unsigned32),
        Value::Unsigned64(_) => matches!(t, crate::schema::ColumnType::Unsigned64),
        Value::Float32(_) => matches!(t, crate::schema::ColumnType::Float32),
        Value::Float64(_) => matches!(t, crate::schema::ColumnType::Float64),
        Value::Boolean(_) => matches!(t, crate::schema::ColumnType::Boolean),
    }
}

/// Checks one value against a column type, strings against their budget.
fn check_value(v: &Value, col: &crate::schema::Column) -> (r: bool)
    ensures
        r == value_admissible(*v, *col),
{
    match v {
        Value::Null => col.nullable,
        _ => check_fits(v, &col.column_type),
    }
}

/// Checks a non-null value against a bare column type.
fn check_sort_key(v: &Value, t: &crate::schema::ColumnType) -> (r: bool)
    ensures
        r == (value_fits(*v, *t) && *v != Value::Null),
{
    match v {
        Value::Null => false,
        _ => check_fits(v, t),
    }
}

/// Validates a proposed write against a schema and, when it is
/// admissible, hands the values back in schema order, one per column.
/// The ordered form is what rows store and what the fixed-size row
/// layout encodes.
pub fn validate_values_against_schema(
    sort_key: &Value,
    values: &Vec<(String, Value)>,
    table_schema: &TableSchema,
) -> (r: Result<Vec<(String, Value)>, String>)
    requires
        wf_schema(*table_schema),
    ensures
        r is Ok <==> values_valid(*sort_key, values@, *table_schema),
        r matches Ok(ordered) ==> {
            &&& ordered@.len() == table_schema.columns@.len()
            &&& forall|i: int|
                0 <= i < table_schema.columns@.len() ==> {
                    &&& (#[trigger] ordered@[i]).0@ == table_schema.columns@[i].0@
                    &&& value_admissible(ordered@[i].1, table_schema.columns@[i].1)
                    &&& value_fits(ordered@[i].1, table_schema.columns@[i].1.column_type)
                    &&& spec_find_value(values@, table_schema.columns@[i].0@) matches Some(j)
                        && ordered@[i].1 == values@[j].1
                }
        },
{
    if !check_sort_key(sort_key, &table_schema.sort_key_type) {
        return Err("Invalid sort key for table".to_owned());
    }
    let n = table_schema.columns.len();
    let mut ordered: Vec<(String, Value)> = Vec::new();
    let mut i: usize = 0;
    while i < n
        invariant
            wf_schema(*table_schema),
            n == table_schema.columns@.len(),
            0 <= i <= n,
            ordered@.len() == i,
            forall|j: int|
                0 <= j < i ==> {
                    &&& spec_find_value(values@, (#[trigger] table_schema.columns@[j]).0@) matches Some(_)
                    &&& value_admissible(
                        values@[spec_find_value(values@, table_schema.columns@[j].0@)->Some_0].1,
                        table_schema.columns@[j].1,
                    )
                },
            forall|j: int|
                0 <= j < i ==> {
                    &&& (#[trigger] ordered@[j]).0@ == table_schema.columns@[j].0@
                    &&& value_admissible(ordered@[j].1, table_schema.columns@[j].1)
                    &&& value_fits(ordered@[j].1, table_schema.columns@[j].1.column_type)
                    &&& spec_find_value(values@, table_schema.columns@[j].0@) matches Some(jj)
                        && ordered@[j].1 == values@[jj].1
                },
        decreases n - i,
    {
        let col_name = &table_schema.columns[i].0;
        let col = &table_schema.columns[i].1;
        match find_value(values, col_name.as_str()) {
            None => {
                return Err("Invalid fields for table: a column is missing in the request".to_owned(
                ));
            },
            Some(j) => {
                let v = &values[j].1;
                if !check_value(v, col) {
                    return Err("Invalid field types for table".to_owned());
                }
                ordered.push((col_name.clone(), v.clone()));
            },
        }
        i = i + 1;
    }
    Ok(ordered)
}

} // verus!
