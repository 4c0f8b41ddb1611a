//! Decimal formatting and parsing of machine integers, used for primary-key
//! derivation, schema text, and segment headers.
use vstd::prelude::*;

verus! {

/// Does this character stand for a decimal digit?
pub open spec fn is_digit_char(c: char) -> bool {
    c == '0' || c == '1' || c == '2' || c == '3' || c == '4' || c == '5' || c == '6' || c == '7'
        || c == '8' || c == '9'
}

/// Numeric value of a digit character; 10 for anything else.
pub open spec fn digit_val(c: char) -> int {
    if c == '0' {
        0
    } else if c == '1' {
        1
    } else if c == '2' {
        2
    } else if c == '3' {
        3
    } else if c == '4' {
        4
    } else if c == '5' {
        5
    } else if c == '6' {
        6
    } else if c == '7' {
        7
    } else if c == '8' {
        8
    } else if c == '9' {
        9
    } else {
        10
    }
}

/// Digit character of a value below ten.
pub open spec fn digit_char(d: int) -> char {
    if d == 0 {
        '0'
    } else if d == 1 {
        '1'
    } else if d == 2 {
        '2'
    } else if d == 3 {
        '3'
    } else if d == 4 {
        '4'
    } else if d == 5 {
        '5'
    } else if d == 6 {
        '6'
    } else if d == 7 {
        '7'
    } else if d == 8 {
        '8'
    } else {
        '9'
    }
}

/// The usual decimal rendering of a non-negative integer: no sign, no
/// leading zero except for zero itself.
pub open spec fn dec_str(n: int) -> Seq<char>
    decreases n,
{
    if n < 10 {
        seq![digit_char(n)]
    } else {
        dec_str(n / 10).push(digit_char(n % 10))
    }
}

/// Decimal rendering of a signed integer: a minus sign before the
/// magnitude for negative values.
pub open spec fn dec_str_signed(n: int) -> Seq<char> {
    if n >= 0 {
        dec_str(n)
    } else {
        seq!['-'] + dec_str(-n)
    }
}

/// Every character of `s` is a decimal digit.
pub open spec fn all_digits(s: Seq<char>) -> bool {
    forall|i: int| 0 <= i < s.len() ==> is_digit_char(#[trigger] s[i])
}

/// Value of a digit string, most significant digit first.
pub open spec fn dec_val(s: Seq<char>) -> int
    decreases s.len(),
{
    if s.len() == 0 {
        0
    } else {
        dec_val(s.drop_last()) * 10 + digit_val(s.last())
    }
}

/// A rendered integer reads back as itself, and is made of digits.
pub proof fn lemma_dec_str_val(n: int)
    requires
        n >= 0,
    ensures
        dec_val(dec_str(n)) == n,
        all_digits(dec_str(n)),
        dec_str(n).len() >= 1,
    decreases n,
{
    if n < 10 {
        assert(dec_str(n) =~= seq![digit_char(n)]);
        assert(dec_str(n).drop_last() =~= Seq::<char>::empty());
        assert(dec_str(n).last() == digit_char(n));
        assert(dec_val(Seq::<char>::empty()) == 0);
        assert(dec_val(dec_str(n)) == digit_val(digit_char(n)));
        assert(digit_val(digit_char(n)) == n);
    } else {
        lemma_dec_str_val(n / 10);
        assert(dec_str(n).drop_last() =~= dec_str(n / 10));
        assert(dec_val(dec_str(n)) == (n / 10) * 10 + n % 10);
    }
}


/// Appends the character of one digit to a string.
fn append_digit(s: &mut String, d: u64)
    requires
        d < 10,
    ensures
        final(s)@ == old(s)@.push(digit_char(d as int)),
{
    if d == 0 {
        proof {
            reveal_strlit("0");
        }
        s.append("0");
        assert(s@ =~= old(s)@.push('0'));
    } else if d == 1 {
        proof {
            reveal_strlit("1");
        }
        s.append("1");
        assert(s@ =~= old(s)@.push('1'));
    } else if d == 2 {
        proof {
            reveal_strlit("2");
        }
        s.append("2");
        assert(s@ =~= old(s)@.push('2'));
    } else if d == 3 {
        proof {
            reveal_strlit("3");
        }
        s.append("3");
        assert(s@ =~= old(s)@.push('3'));
    } else if d == 4 {
        proof {
            reveal_strlit("4");
        }
        s.append("4");
        assert(s@ =~= old(s)@.push('4'));
    } else if d == 5 {
        proof {
            reveal_strlit("5");
        }
        s.append("5");
        assert(s@ =~= old(s)@.push('5'));
    } else if d == 6 {
        proof {
            reveal_strlit("6");
        }
        s.append("6");
        assert(s@ =~= old(s)@.push('6'));
    } else if d == 7 {
        proof {
            reveal_strlit("7");
        }
        s.append("7");
        assert(s@ =~= old(s)@.push('7'));
    } else if d == 8 {
        proof {
            reveal_strlit("8");
        }
        s.append("8");
        assert(s@ =~= old(s)@.push('8'));
    } else {
        proof {
            reveal_strlit("9");
        }
        s.append("9");
        assert(s@ =~= old(s)@.push('9'));
    }
}

/// Appends the decimal rendering of `n` to `s`.
fn append_u64_dec(s: &mut String, n: u64)
    ensures
        final(s)@ == old(s)@ + dec_str(n as int),
    decreases n,
{
    if n < 10 {
        append_digit(s, n);
        assert(s@ =~= old(s)@ + dec_str(n as int));
    } else {
        append_u64_dec(s, n / 10);
        append_digit(s, n % 10);
        assert(s@ =~= old(s)@ + dec_str(n as int));
    }
}

/// Decimal rendering of an unsigned integer.
pub fn u64_to_dec_string(n: u64) -> (r: String)
    ensures
        r@ == dec_str(n as int),
{
    let mut s = String::new();
    append_u64_dec(&mut s, n);
    assert(s@ =~= dec_str(n as int));
    s
}

/// Decimal rendering of a signed integer, minus sign included.
pub fn i64_to_dec_string(n: i64) -> (r: String)
    ensures
        r@ == dec_str_signed(n as int),
{
    if n >= 0 {
        u64_to_dec_string(n as u64)
    } else {
        let mut s = String::new();
        proof {
            reveal_strlit("-");
        }
        s.append("-");
        let magnitude: u64 = (-(n as i128)) as u64;
        append_u64_dec(&mut s, magnitude);
        assert(s@ =~= dec_str_signed(n as int));
        s
    }
}

/// Numeric value of one digit character.
pub fn digit_of_char(c: char) -> (d: Option<u64>)
    ensures
        d matches Some(v) ==> is_digit_char(c) && v == digit_val(c),
        d is None ==> !is_digit_char(c),
{
    match c {
        '0' => Some(0),
        '1' => Some(1),
        '2' => Some(2),
        '3' => Some(3),
        '4' => Some(4),
        '5' => Some(5),
        '6' => Some(6),
        '7' => Some(7),
        '8' => Some(8),
        '9' => Some(9),
        _ => None,
    }
}

/// The value of a digit string only grows as digits are appended.
proof fn lemma_dec_val_prefix_le(s: Seq<char>, i: int, j: int)
    requires
        0 <= i <= j <= s.len(),
        all_digits(s),
    ensures
        dec_val(s.take(i)) <= dec_val(s.take(j)),
        dec_val(s.take(i)) >= 0,
    decreases j - i,
{
    if i == j {
        lemma_dec_val_nonneg(s.take(i));
    } else {
        lemma_dec_val_prefix_le(s, i, j - 1);
        assert(s.take(j).drop_last() =~= s.take(j - 1));
        assert(is_digit_char(s[j - 1]));
        assert(dec_val(s.take(j)) == dec_val(s.take(j - 1)) * 10 + digit_val(s[j - 1]));
    }
}

/// A digit string's value is not negative.
proof fn lemma_dec_val_nonneg(s: Seq<char>)
    requires
        all_digits(s),
    ensures
        dec_val(s) >= 0,
    decreases s.len(),
{
    if s.len() > 0 {
        lemma_dec_val_nonneg(s.drop_last());
    }
}

/// Parses an unsigned decimal string: digits only, value within `u64`.
pub fn parse_u64_dec(s: &str) -> (r: Option<u64>)
    ensures
        r matches Some(v) ==> s@.len() > 0 && all_digits(s@) && v == dec_val(s@),
        r is None ==> !(s@.len() > 0 && all_digits(s@) && dec_val(s@) <= u64::MAX),
{
    let n = s.unicode_len();
    if n == 0 {
        return None;
    }
    let mut acc: u64 = 0;
    let mut i: usize = 0;
    while i < n
        invariant
            0 < n == s@.len(),
            0 <= i <= n,
            all_digits(s@.take(i as int)),
            acc == dec_val(s@.take(i as int)),
        decreases n - i,
    {
        let c = s.get_char(i);
        match digit_of_char(c) {
            None => {
                assert(!is_digit_char(s@[i as int]));
                return None;
            },
            Some(d) => {
                assert(s@.take(i + 1).drop_last() =~= s@.take(i as int));
                assert(s@.take(i + 1).last() == s@[i as int]);
                if acc > (u64::MAX - d) / 10 {
                    proof {
                        assert(all_digits(s@.take(i + 1)));
                        assert(dec_val(s@.take(i + 1)) == acc * 10 + d as int);
                        assert(dec_val(s@.take(i + 1)) > u64::MAX) by {
                            assert(acc >= (u64::MAX - d) / 10 + 1);
                            assert(acc * 10 >= ((u64::MAX - d) / 10 + 1) * 10) by (nonlinear_arith)
                                requires
                                    acc >= (u64::MAX - d) / 10 + 1,
                            ;
                        }
                        if all_digits(s@) {
                            lemma_dec_val_prefix_le(s@, i + 1, n as int);
                            assert(s@.take(n as int) =~= s@);
                        }
                    }
                    return None;
                }
                acc = acc * 10 + d;
            },
        }
        i = i + 1;
    }
    assert(s@.take(n as int) =~= s@);
    Some(acc)
}

} // verus!
