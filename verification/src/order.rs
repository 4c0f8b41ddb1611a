//! Lexicographic ordering of byte strings, the order of primary keys and
//! of column names (the byte order of their UTF-8 forms).
use vstd::prelude::*;
use vstd::string::StringSliceAdditionalSpecFns;
use vstd::string::StrSliceExecFns;

verus! {

/// Strict lexicographic order on byte strings.
pub open spec fn bytes_lt(a: Seq<u8>, b: Seq<u8>) -> bool
    decreases a.len(),
{
    if b.len() == 0 {
        false
    } else if a.len() == 0 {
        true
    } else if a[0] < b[0] {
        true
    } else if a[0] > b[0] {
        false
    } else {
        bytes_lt(a.drop_first(), b.drop_first())
    }
}

/// The UTF-8 bytes of a string, the form primary keys are ordered by.
pub open spec fn str_bytes(s: Seq<char>) -> Seq<u8> {
    vstd::utf8::encode_utf8(s)
}


/// The order is irreflexive.
pub proof fn lemma_bytes_lt_irrefl(a: Seq<u8>)
    ensures
        !bytes_lt(a, a),
    decreases a.len(),
{
    if a.len() > 0 {
        lemma_bytes_lt_irrefl(a.drop_first());
    }
}

/// The order is transitive.
pub proof fn lemma_bytes_lt_trans(a: Seq<u8>, b: Seq<u8>, c: Seq<u8>)
    requires
        bytes_lt(a, b),
        bytes_lt(b, c),
    ensures
        bytes_lt(a, c),
    decreases a.len() + b.len() + c.len(),
{
    if b.len() == 0 || c.len() == 0 {
    } else if a.len() == 0 {
    } else {
        if a[0] == b[0] && b[0] == c[0] {
            lemma_bytes_lt_trans(a.drop_first(), b.drop_first(), c.drop_first());
        }
    }
}

/// Three-way comparison result.
#[derive(Clone, Copy, Debug, PartialEq, Eq, Structural)]
pub enum Rank {
    Below,
    Equal,
    Above,
}

/// Three-way lexicographic comparison of byte slices.
pub fn compare_bytes(a: &[u8], b: &[u8]) -> (r: Rank)
    ensures
        r == Rank::Below ==> bytes_lt(a@, b@),
        r == Rank::Above ==> bytes_lt(b@, a@),
        r == Rank::Equal ==> a@ == b@,
{
    let alen: usize = a.len();
    let blen: usize = b.len();
    let mut i: usize = 0;
    while i < alen && i < blen
        invariant
            i <= alen == a@.len(),
            i <= blen == b@.len(),
            forall|j: int| 0 <= j < i ==> a@[j] == b@[j],
        decreases alen - i,
    {
        let x = a[i];
        let y = b[i];
        if x < y {
            proof {
                lemma_bytes_lt_common_prefix(a@, b@, i as int);
            }
            return Rank::Below;
        }
        if x > y {
            proof {
                lemma_bytes_lt_common_prefix(b@, a@, i as int);
            }
            return Rank::Above;
        }
        i = i + 1;
    }
    if alen < blen {
        proof {
            lemma_bytes_lt_prefix(a@, b@);
        }
        Rank::Below
    } else if alen > blen {
        proof {
            lemma_bytes_lt_prefix(b@, a@);
        }
        Rank::Above
    } else {
        proof {
            assert(a@ =~= b@);
        }
        Rank::Equal
    }
}

/// If two byte strings agree up to an index where the first is smaller,
/// the first is below the second.
proof fn lemma_bytes_lt_common_prefix(a: Seq<u8>, b: Seq<u8>, i: int)
    requires
        0 <= i < a.len(),
        i < b.len(),
        forall|j: int| 0 <= j < i ==> a[j] == b[j],
        a[i] < b[i],
    ensures
        bytes_lt(a, b),
    decreases i,
{
    if i == 0 {
    } else {
        lemma_bytes_lt_common_prefix(a.drop_first(), b.drop_first(), i - 1);
    }
}

/// A proper prefix is below the longer string.
proof fn lemma_bytes_lt_prefix(a: Seq<u8>, b: Seq<u8>)
    requires
        a.len() < b.len(),
        forall|j: int| 0 <= j < a.len() ==> a[j] == b[j],
    ensures
        bytes_lt(a, b),
    decreases a.len(),
{
    if a.len() > 0 {
        lemma_bytes_lt_prefix(a.drop_first(), b.drop_first());
    }
}

/// Three-way comparison of strings in the byte order of their UTF-8 forms,
/// the order `String` comparison gives.
pub fn compare_strings(a: &str, b: &str) -> (r: Rank)
    ensures
        r == Rank::Below ==> bytes_lt(str_bytes(a@), str_bytes(b@)),
        r == Rank::Above ==> bytes_lt(str_bytes(b@), str_bytes(a@)),
        r == Rank::Equal ==> a@ == b@,
{
    let r = compare_bytes(a.as_bytes(), b.as_bytes());
    proof {
        if r == Rank::Equal {
            vstd::utf8::encode_utf8_decode_utf8(a@);
            vstd::utf8::encode_utf8_decode_utf8(b@);
        }
    }
    r
}

/// Whether two strings hold the same characters.
pub fn strings_equal(a: &str, b: &str) -> (r: bool)
    ensures
        r == (a@ == b@),
{
    let rank = compare_strings(a, b);
    proof {
        if a@ == b@ {
            lemma_bytes_lt_irrefl(str_bytes(a@));
        }
    }
    rank == Rank::Equal
}

} // verus!
