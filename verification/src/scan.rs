//! Character scanning, splitting and joining over strings, with the
//! algebra that lets a printed form be read back.
use vstd::prelude::*;
use vstd::string::StrSliceExecFns;

verus! {

/// Whether `c` occurs in `s`.
pub open spec fn has_char(s: Seq<char>, c: char) -> bool {
    exists|i: int| 0 <= i < s.len() && s[i] == c
}

/// Index of the first occurrence of `c` in `s`; the length when absent.
pub open spec fn first_index(s: Seq<char>, c: char) -> int
    decreases s.len(),
{
    if s.len() == 0 {
        0
    } else if s[0] == c {
        0
    } else {
        1 + first_index(s.drop_first(), c)
    }
}

/// What `first_index` returns: a position bounded by the length, holding
/// `c` if within, with no earlier occurrence.
pub proof fn lemma_first_index(s: Seq<char>, c: char)
    ensures
        0 <= first_index(s, c) <= s.len(),
        first_index(s, c) < s.len() ==> s[first_index(s, c)] == c,
        forall|j: int| 0 <= j < first_index(s, c) ==> s[j] != c,
        first_index(s, c) == s.len() ==> !has_char(s, c),
    decreases s.len(),
{
    if s.len() == 0 {
    } else if s[0] == c {
    } else {
        lemma_first_index(s.drop_first(), c);
        let fi = first_index(s, c);
        assert forall|j: int| 0 <= j < fi implies s[j] != c by {
            if j > 0 {
                assert(s[j] == s.drop_first()[j - 1]);
            }
        }
        if fi == s.len() {
            assert forall|i: int| 0 <= i < s.len() implies s[i] != c by {
                if i > 0 {
                    assert(s[i] == s.drop_first()[i - 1]);
                }
            }
        }
    }
}

/// The first occurrence of `c` in `a + [c] + b` is right after `a` when
/// `a` is free of `c`.
pub proof fn lemma_first_index_concat(a: Seq<char>, b: Seq<char>, c: char)
    requires
        !has_char(a, c),
    ensures
        first_index(a + seq![c] + b, c) == a.len(),
    decreases a.len(),
{
    let s = a + seq![c] + b;
    if a.len() == 0 {
        assert(s[0] == c);
    } else {
        assert(s[0] == a[0]);
        assert(a[0] != c);
        assert(!has_char(a.drop_first(), c)) by {
            assert forall|i: int| 0 <= i < a.drop_first().len() implies a.drop_first()[i] != c by {
                assert(a.drop_first()[i] == a[i + 1]);
            }
        }
        lemma_first_index_concat(a.drop_first(), b, c);
        assert(s.drop_first() =~= a.drop_first() + seq![c] + b);
    }
}

/// Pieces of `s` between occurrences of `c`; a string without `c` is one
/// piece, and every separator opens a new piece.
pub open spec fn split_char(s: Seq<char>, c: char) -> Seq<Seq<char>>
    decreases s.len(),
{
    let fi = first_index(s, c);
    if 0 <= fi && fi < s.len() {
        seq![s.take(fi)] + split_char(s.subrange(fi + 1, s.len() as int), c)
    } else {
        seq![s]
    }
}

/// The pieces joined back with `c` between them.
pub open spec fn join_char(pieces: Seq<Seq<char>>, c: char) -> Seq<char>
    decreases pieces.len(),
{
    if pieces.len() == 0 {
        Seq::empty()
    } else if pieces.len() == 1 {
        pieces[0]
    } else {
        pieces[0] + seq![c] + join_char(pieces.drop_first(), c)
    }
}

/// Splitting a join gives the pieces back, provided no piece holds the
/// separator.
pub proof fn lemma_split_join(pieces: Seq<Seq<char>>, c: char)
    requires
        pieces.len() >= 1,
        forall|i: int| 0 <= i < pieces.len() ==> !has_char(#[trigger] pieces[i], c),
    ensures
        split_char(join_char(pieces, c), c) == pieces,
    decreases pieces.len(),
{
    let s = join_char(pieces, c);
    if pieces.len() == 1 {
        lemma_first_index(s, c);
        if has_char(s, c) {
            let i = choose|i: int| 0 <= i < s.len() && s[i] == c;
            assert(pieces[0][i] == c);
            assert(false);
        }
        assert(split_char(s, c) =~= pieces);
    } else {
        let rest = join_char(pieces.drop_first(), c);
        assert(s == pieces[0] + seq![c] + rest);
        lemma_first_index_concat(pieces[0], rest, c);
        let fi = first_index(s, c);
        assert(fi == pieces[0].len());
        lemma_first_index(s, c);
        assert(s[fi] == c);
        assert(has_char(s, c));
        assert(s.take(fi) =~= pieces[0]);
        assert(s.subrange(fi + 1, s.len() as int) =~= rest);
        assert forall|i: int| 0 <= i < pieces.drop_first().len() implies !has_char(
            #[trigger] pieces.drop_first()[i],
            c,
        ) by {
            assert(pieces.drop_first()[i] == pieces[i + 1]);
        }
        lemma_split_join(pieces.drop_first(), c);
        assert(split_char(s, c) =~= seq![pieces[0]] + pieces.drop_first());
        assert(seq![pieces[0]] + pieces.drop_first() =~= pieces);
    }
}

/// No piece of a split holds the separator.
pub proof fn lemma_split_pieces_no_char(s: Seq<char>, c: char)
    ensures
        forall|i: int|
            0 <= i < split_char(s, c).len() ==> !has_char(#[trigger] split_char(s, c)[i], c),
    decreases s.len(),
{
    lemma_first_index(s, c);
    let fi = first_index(s, c);
    if 0 <= fi && fi < s.len() {
        lemma_split_pieces_no_char(s.subrange(fi + 1, s.len() as int), c);
        assert(!has_char(s.take(fi), c)) by {
            assert forall|j: int| 0 <= j < fi implies s.take(fi)[j] != c by {
                assert(s.take(fi)[j] == s[j]);
            }
        }
        assert forall|i: int| 0 <= i < split_char(s, c).len() implies !has_char(
            #[trigger] split_char(s, c)[i],
            c,
        ) by {
            if i > 0 {
                assert(split_char(s, c)[i] == split_char(s.subrange(fi + 1, s.len() as int), c)[i
                    - 1]);
            }
        }
    }
}

/// Finds the first occurrence of a character.
pub fn find_char(s: &str, c: char) -> (r: Option<usize>)
    ensures
        r matches Some(i) ==> i == first_index(s@, c) && i < s@.len() && s@[i as int] == c,
        r is None ==> !has_char(s@, c) && first_index(s@, c) == s@.len(),
{
    let n = s.unicode_len();
    let mut i: usize = 0;
    proof {
        lemma_first_index(s@, c);
    }
    while i < n
        invariant
            i <= n == s@.len(),
            forall|j: int| 0 <= j < i ==> s@[j] != c,
            0 <= first_index(s@, c) <= s@.len(),
            first_index(s@, c) < s@.len() ==> s@[first_index(s@, c)] == c,
            forall|j: int| 0 <= j < first_index(s@, c) ==> s@[j] != c,
            first_index(s@, c) == s@.len() ==> !has_char(s@, c),
        decreases n - i,
    {
        if s.get_char(i) == c {
            proof {
                if first_index(s@, c) < i {
                    assert(s@[first_index(s@, c)] == c);
                }
                if first_index(s@, c) > i {
                    assert(s@[i as int] != c);
                }
            }
            return Some(i);
        }
        i = i + 1;
    }
    proof {
        if first_index(s@, c) < s@.len() {
            assert(s@[first_index(s@, c)] == c);
        }
    }
    None
}

/// Splits a string at every occurrence of `c`; empty pieces are kept.
pub fn split_string(s: &str, c: char) -> (r: Vec<String>)
    ensures
        r@.map_values(|p: String| p@) == split_char(s@, c),
        r@.len() >= 1,
    decreases s@.len(),
{
    let n = s.unicode_len();
    match find_char(s, c) {
        None => {
            let mut out: Vec<String> = Vec::new();
            out.push(s.to_owned());
            assert(out@.map_values(|p: String| p@) =~= split_char(s@, c));
            out
        },
        Some(fi) => {
            let head = s.substring_char(0, fi);
            let tail = s.substring_char(fi + 1, n);
            let mut out: Vec<String> = Vec::new();
            out.push(head.to_owned());
            let mut rest = split_string(tail, c);
            out.append(&mut rest);
            proof {
                assert(head@ =~= s@.take(fi as int));
                assert(tail@ =~= s@.subrange(fi as int + 1, s@.len() as int));
                assert(out@.map_values(|p: String| p@) =~= split_char(s@, c));
            }
            out
        },
    }
}

} // verus!
