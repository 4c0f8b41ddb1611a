//! The typed scalar union stored in rows.
//!
//! Floating-point columns are carried as their IEEE-754 bit patterns in
//! `u32` / `u64` fields; converting between a machine float and its bits is
//! the caller's concern at the process boundary. The textual form of a
//! float value is the decimal rendering of its bit pattern.
use crate::intbytes::be_bytes;
use crate::numfmt::{dec_str, dec_str_signed};
use vstd::prelude::*;
use vstd::utf8::encode_utf8;

verus! {

/// A typed scalar value: the variable-length string, the four integer
/// widths, the two float widths (as bit patterns), the boolean, and null.
#[derive(Debug, PartialEq)]
pub enum Value {
    Varchar(String),
    Int32(i32),
    Int64(i64),
    Unsigned32(u32),
    Unsigned64(u64),
    Float32(u32),
    Float64(u64),
    Boolean(bool),
    Null,
}

impl Clone for Value {
    /// A clone is the same value.
    fn clone(&self) -> (r: Self)
        ensures
            r == *self,
    {
        match self {
            Value::Varchar(s) => Value::Varchar(s.clone()),
            Value::Int32(x) => Value::Int32(*x),
            Value::Int64(x) => Value::Int64(*x),
            Value::Unsigned32(x) => Value::Unsigned32(*x),
            Value::Unsigned64(x) => Value::Unsigned64(*x),
            Value::Float32(bits) => Value::Float32(*bits),
            Value::Float64(bits) => Value::Float64(*bits),
            Value::Boolean(b) => Value::Boolean(*b),
            Value::Null => Value::Null,
        }
    }
}

/// Two's-complement bit pattern of a 32-bit signed integer.
pub open spec fn i32_bits(x: i32) -> int {
    if x >= 0 {
        x as int
    } else {
        x + 0x1_0000_0000
    }
}

/// Two's-complement bit pattern of a 64-bit signed integer.
pub open spec fn i64_bits(x: i64) -> int {
    if x >= 0 {
        x as int
    } else {
        x + 0x1_0000_0000_0000_0000
    }
}

/// The raw, unpadded byte form of a value: UTF-8 bytes of a string,
/// big-endian bytes of the numeric variants, one byte for a boolean, and
/// nothing at all for null.
pub open spec fn spec_value_bytes(v: Value) -> Seq<u8> {
    match v {
        Value::Varchar(s) => encode_utf8(s@),
        Value::Int32(x) => be_bytes(i32_bits(x), 4),
        Value::Int64(x) => be_bytes(i64_bits(x), 8),
        Value::Unsigned32(x) => be_bytes(x as int, 4),
        Value::Unsigned64(x) => be_bytes(x as int, 8),
        Value::Float32(bits) => be_bytes(bits as int, 4),
        Value::Float64(bits) => be_bytes(bits as int, 8),
        Value::Boolean(b) => seq![if b { 1u8 } else { 0u8 }],
        Value::Null => Seq::empty(),
    }
}

/// The textual form of a value, used inside primary keys: strings stand
/// for themselves, numbers render in decimal, booleans as words, null as
/// the empty text.
pub open spec fn spec_value_display(v: Value) -> Seq<char> {
    match v {
        Value::Varchar(s) => s@,
        Value::Int32(x) => dec_str_signed(x as int),
        Value::Int64(x) => dec_str_signed(x as int),
        Value::Unsigned32(x) => dec_str(x as int),
        Value::Unsigned64(x) => dec_str(x as int),
        Value::Float32(bits) => dec_str(bits as int),
        Value::Float64(bits) => dec_str(bits as int),
        Value::Boolean(b) => if b {
            seq!['t', 'r', 'u', 'e']
        } else {
            seq!['f', 'a', 'l', 's', 'e']
        },
        Value::Null => Seq::empty(),
    }
}

impl Value {
    /// Appends the raw byte form of this value.
    pub fn append_bytes(&self, out: &mut Vec<u8>)
        ensures
            final(out)@ == old(out)@ + spec_value_bytes(*self),
    {
        match self {
            Value::Varchar(s) => {
                let mut b = s.as_str().as_bytes_vec();
                out.append(&mut b);
                assert(out@ =~= old(out)@ + spec_value_bytes(*self));
            },
            Value::Int32(x) => {
                let bits: u32 = if *x >= 0 {
                    *x as u32
                } else {
                    ((*x as i64) + 0x1_0000_0000i64) as u32
                };
                assert(bits as int == i32_bits(*x));
                proof {
                    crate::intbytes::lemma_pow256_u64_bounds();
                }
                crate::intbytes::append_u64_be(out, bits as u64, 4);
            },
            Value::Int64(x) => {
                let bits: u64 = if *x >= 0 {
                    *x as u64
                } else {
                    ((*x as i128) + 0x1_0000_0000_0000_0000i128) as u64
                };
                assert(bits as int == i64_bits(*x));
                crate::intbytes::append_u64_be(out, bits, 8);
            },
            Value::Unsigned32(x) => {
                proof {
                    crate::intbytes::lemma_pow256_u64_bounds();
                }
                crate::intbytes::append_u64_be(out, *x as u64, 4);
            },
            Value::Unsigned64(x) => {
                crate::intbytes::append_u64_be(out, *x, 8);
            },
            Value::Float32(bits) => {
                proof {
                    crate::intbytes::lemma_pow256_u64_bounds();
                }
                crate::intbytes::append_u64_be(out, *bits as u64, 4);
            },
            Value::Float64(bits) => {
                crate::intbytes::append_u64_be(out, *bits, 8);
            },
            Value::Boolean(b) => {
                if *b {
                    out.push(1u8);
                } else {
                    out.push(0u8);
                }
                assert(out@ =~= old(out)@ + spec_value_bytes(*self));
            },
            Value::Null => {
                assert(out@ =~= old(out)@ + spec_value_bytes(*self));
            },
        }
    }

    /// The textual form of this value. A float renders as the decimal
    /// of its bit pattern, not as a decimal fraction: floats live at
    /// the boundary as their raw bits, so primary keys over float sort
    /// keys are stable but read differently than a formatted float
    /// would.
    pub fn display_string(&self) -> (r: String)
        ensures
            r@ == spec_value_display(*self),
    {
        match self {
            Value::Varchar(s) => s.clone(),
            Value::Int32(x) => crate::numfmt::i64_to_dec_string(*x as i64),
            Value::Int64(x) => crate::numfmt::i64_to_dec_string(*x),
            Value::Unsigned32(x) => crate::numfmt::u64_to_dec_string(*x as u64),
            Value::Unsigned64(x) => crate::numfmt::u64_to_dec_string(*x),
            Value::Float32(bits) => crate::numfmt::u64_to_dec_string(*bits as u64),
            Value::Float64(bits) => crate::numfmt::u64_to_dec_string(*bits),
            Value::Boolean(b) => {
                if *b {
                    let r = String::from_str("true");
                    proof {
                        reveal_strlit("true");
                    }
                    assert(r@ =~= seq!['t', 'r', 'u', 'e']);
                    r
                } else {
                    let r = String::from_str("false");
                    proof {
                        reveal_strlit("false");
                    }
                    assert(r@ =~= seq!['f', 'a', 'l', 's', 'e']);
                    r
                }
            },
            Value::Null => String::new(),
        }
    }

    /// The raw, unpadded byte form of this value.
    pub fn to_bytes(&self) -> (r: Vec<u8>)
        ensures
            r@ == spec_value_bytes(*self),
    {
        let mut out: Vec<u8> = Vec::new();
        self.append_bytes(&mut out);
        assert(out@ =~= spec_value_bytes(*self));
        out
    }
}

} // verus!
