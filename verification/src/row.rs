//! Rows: the composite entity of one table entry, addressed by its
//! primary key `hash_key:sort_key`.
use crate::value::{spec_value_display, Value};
use vstd::prelude::*;

verus! {

/// Same scalar content, comparing strings by their characters.
pub open spec fn value_equiv(a: Value, b: Value) -> bool {
    match (a, b) {
        (Value::Varchar(x), Value::Varchar(y)) => x@ == y@,
        _ => a == b,
    }
}

/// The primary key text of a row: the hash key, a colon, and the textual
/// form of the sort key.
pub open spec fn spec_primary_key(hash_key: Seq<char>, sort_key: Value) -> Seq<char> {
    hash_key + seq![':'] + spec_value_display(sort_key)
}

/// One row: hash key, typed sort key, the derived primary key, the
/// column values in schema order, and the version / timestamp /
/// tombstone bookkeeping of last-writer-wins and MVCC.
#[derive(Debug)]
pub struct Row {
    pub hash_key: String,
    pub sort_key: Value,
    pub primary_key: String,
    pub values: Vec<(String, Value)>,
    pub version: u32,
    pub timestamp: u128,
    pub marked_for_deletion: bool,
}

/// Same row content up to string views, the version aside (it is not
/// persisted on disk).
pub open spec fn row_equiv_persisted(a: Row, b: Row) -> bool {
    &&& a.hash_key@ == b.hash_key@
    &&& value_equiv(a.sort_key, b.sort_key)
    &&& a.primary_key@ == b.primary_key@
    &&& a.values@.len() == b.values@.len()
    &&& forall|i: int|
        0 <= i < a.values@.len() ==> (#[trigger] a.values@[i]).0@ == b.values@[i].0@ && value_equiv(
            a.values@[i].1,
            b.values@[i].1,
        )
    &&& a.timestamp == b.timestamp
    &&& a.marked_for_deletion == b.marked_for_deletion
}

impl Row {
    /// Builds the primary key text of a key pair.
    pub fn build_primary_key(hash_key: &str, sort_key: &Value) -> (r: String)
        ensures
            r@ == spec_primary_key(hash_key@, *sort_key),
    {
        let mut pk = String::new();
        pk.append(hash_key);
        proof {
            reveal_strlit(":");
        }
        pk.append(":");
        let sk_text = sort_key.display_string();
        pk.append(sk_text.as_str());
        assert(pk@ =~= spec_primary_key(hash_key@, *sort_key));
        pk
    }

    /// A fresh row at version one, stamped with the present time.
    pub fn new(hash_key: String, sort_key: Value, values: Vec<(String, Value)>) -> (r: Row)
        ensures
            r.hash_key == hash_key,
            r.sort_key == sort_key,
            r.primary_key@ == spec_primary_key(hash_key@, sort_key),
            r.values == values,
            r.version == 1,
            !r.marked_for_deletion,
    {
        let primary_key = Self::build_primary_key(hash_key.as_str(), &sort_key);
        Row {
            hash_key,
            sort_key,
            primary_key,
            values,
            version: 1,
            timestamp: crate::exttrust::millis_from_epoch(),
            marked_for_deletion: false,
        }
    }

    /// A row read back from a segment: version zero, timestamp supplied
    /// by the caller from the decoded bytes.
    pub fn new_from_sstable(
        hash_key: String,
        sort_key: Value,
        values: Vec<(String, Value)>,
        timestamp: u128,
    ) -> (r: Row)
        ensures
            r.hash_key == hash_key,
            r.sort_key == sort_key,
            r.primary_key@ == spec_primary_key(hash_key@, sort_key),
            r.values == values,
            r.version == 0,
            r.timestamp == timestamp,
            !r.marked_for_deletion,
    {
        let primary_key = Self::build_primary_key(hash_key.as_str(), &sort_key);
        Row {
            hash_key,
            sort_key,
            primary_key,
            values,
            version: 0,
            timestamp,
            marked_for_deletion: false,
        }
    }
}

impl Clone for Row {
    /// A clone is the same row, field for field.
    fn clone(&self) -> (r: Self)
        ensures
            r.hash_key == self.hash_key,
            r.sort_key == self.sort_key,
            r.primary_key == self.primary_key,
            r.values@ == self.values@,
            r.version == self.version,
            r.timestamp == self.timestamp,
            r.marked_for_deletion == self.marked_for_deletion,
    {
        let mut values: Vec<(String, Value)> = Vec::new();
        let n = self.values.len();
        let mut i: usize = 0;
        while i < n
            invariant
                n == self.values@.len(),
                0 <= i <= n,
                values@ == self.values@.take(i as int),
            decreases n - i,
        {
            let (name, value) = (&self.values[i].0, &self.values[i].1);
            values.push((name.clone(), value.clone()));
            proof {
                assert(values@ =~= self.values@.take(i + 1));
            }
            i = i + 1;
        }
        proof {
            assert(self.values@.take(n as int) =~= self.values@);
        }
        Row {
            hash_key: self.hash_key.clone(),
            sort_key: self.sort_key.clone(),
            primary_key: self.primary_key.clone(),
            values,
            version: self.version,
            timestamp: self.timestamp,
            marked_for_deletion: self.marked_for_deletion,
        }
    }
}

} // verus!
