//! Typed attribute values and the heuristic coercion of captured text into
//! them. A value is immutable once created. Keys and string payloads are byte
//! strings; a `Float` carries the decimal text it was read from, so that no
//! precision is lost before the value is handed to the sink.

use vstd::prelude::*;

use crate::numtext::{
    contains_byte, contains_byte_exec, int_text_val, is_float_text, is_float_text_exec,
    is_int_text, parse_i128_text,
};

verus! {

/// A typed attribute value.
#[derive(Clone, Debug, PartialEq, Eq)]
pub enum AttrVal {
    Bool(bool),
    /// A number within the signed 64-bit range.
    Integer(i64),
    /// A number beyond the signed 64-bit range (or any regex-captured
    /// integer), within the signed 128-bit range.
    BigInt(i128),
    /// A non-integral number, kept as the decimal text it was read from.
    Float(Vec<u8>),
    /// Free text.
    Str(Vec<u8>),
}

/// The mathematical shape of an [`AttrVal`].
pub enum AttrValV {
    Bool(bool),
    Integer(int),
    BigInt(int),
    Float(Seq<u8>),
    Str(Seq<u8>),
}

impl View for AttrVal {
    type V = AttrValV;

    open spec fn view(&self) -> AttrValV {
        match self {
            AttrVal::Bool(b) => AttrValV::Bool(*b),
            AttrVal::Integer(i) => AttrValV::Integer(*i as int),
            AttrVal::BigInt(i) => AttrValV::BigInt(*i as int),
            AttrVal::Float(t) => AttrValV::Float(t@),
            AttrVal::Str(s) => AttrValV::Str(s@),
        }
    }
}

/// Byte-string equality.
pub fn bytes_eq(a: &Vec<u8>, b: &Vec<u8>) -> (r: bool)
    ensures
        r == (a@ == b@),
{
    if a.len() != b.len() {
        assert(a@ != b@) by {
            assert(a@.len() != b@.len());
        }
        return false;
    }
    let mut i: usize = 0;
    while i < a.len()
        invariant
            i <= a@.len(),
            a@.len() == b@.len(),
            forall|m: int| 0 <= m < i ==> a@[m] == b@[m],
        decreases a@.len() - i,
    {
        if a[i] != b[i] {
            return false;
        }
        i = i + 1;
    }
    proof {
        assert(a@ =~= b@);
    }
    true
}

impl AttrVal {
    /// A copy whose mathematical value is the same as this one's.
    pub fn duplicate(&self) -> (r: AttrVal)
        ensures
            r@ == self@,
    {
        match self {
            AttrVal::Bool(b) => AttrVal::Bool(*b),
            AttrVal::Integer(i) => AttrVal::Integer(*i),
            AttrVal::BigInt(i) => AttrVal::BigInt(*i),
            AttrVal::Float(t) => AttrVal::Float(copy_bytes(t)),
            AttrVal::Str(s) => AttrVal::Str(copy_bytes(s)),
        }
    }

    /// Do two values agree, variant and payload both?
    pub fn value_eq(&self, other: &AttrVal) -> (r: bool)
        ensures
            r == (self@ == other@),
    {
        match (self, other) {
            (AttrVal::Bool(a), AttrVal::Bool(b)) => a == b,
            (AttrVal::Integer(a), AttrVal::Integer(b)) => a == b,
            (AttrVal::BigInt(a), AttrVal::BigInt(b)) => a == b,
            (AttrVal::Float(a), AttrVal::Float(b)) => bytes_eq(a, b),
            (AttrVal::Str(a), AttrVal::Str(b)) => bytes_eq(a, b),
            _ => false,
        }
    }
}

/// A fresh copy of a byte string.
pub fn copy_bytes(s: &Vec<u8>) -> (r: Vec<u8>)
    ensures
        r@ == s@,
{
    let mut out: Vec<u8> = Vec::new();
    let mut i: usize = 0;
    while i < s.len()
        invariant
            i <= s@.len(),
            out@ =~= s@.subrange(0, i as int),
        decreases s@.len() - i,
    {
        out.push(s[i]);
        i = i + 1;
    }
    proof {
        assert(s@.subrange(0, s@.len() as int) =~= s@);
    }
    out
}

/// The decimal digits of `n`, for `n >= 0`, most significant first.
pub open spec fn dec_digits(n: int) -> Seq<u8>
    decreases n when n >= 0
{
    if n < 10 {
        seq![(48 + n) as u8]
    } else {
        dec_digits(n / 10).push((48 + n % 10) as u8)
    }
}

/// The decimal rendering of a signed integer: a leading `-` when negative.
pub open spec fn int_dec_text(n: int) -> Seq<u8> {
    if n < 0 {
        seq![45u8] + dec_digits(-n)
    } else {
        dec_digits(n)
    }
}

/// The text `true` or `false`.
pub open spec fn bool_text(b: bool) -> Seq<u8> {
    if b {
        seq![116u8, 114u8, 117u8, 101u8]
    } else {
        seq![102u8, 97u8, 108u8, 115u8, 101u8]
    }
}

/// How a value reads when spliced into a timeline or event name: strings and
/// float texts verbatim, integers in decimal, booleans as `true`/`false`.
pub open spec fn display_of(v: AttrValV) -> Seq<u8> {
    match v {
        AttrValV::Bool(b) => bool_text(b),
        AttrValV::Integer(i) => int_dec_text(i),
        AttrValV::BigInt(i) => int_dec_text(i),
        AttrValV::Float(t) => t,
        AttrValV::Str(s) => s,
    }
}

/// The decimal digits of a nonnegative value, most significant first.
fn dec_digits_bytes(n: u128) -> (r: Vec<u8>)
    ensures
        r@ == dec_digits(n as int),
    decreases n,
{
    if n < 10 {
        let mut v: Vec<u8> = Vec::new();
        v.push(48 + (n as u8));
        proof {
            assert(v@ =~= seq![(48 + n as int) as u8]);
        }
        v
    } else {
        let mut v = dec_digits_bytes(n / 10);
        v.push(48 + ((n % 10) as u8));
        proof {
            assert(v@ =~= dec_digits(n as int / 10).push((48 + n as int % 10) as u8));
        }
        v
    }
}

/// The decimal rendering of a signed value: digits, with `-` in front when
/// it is negative.
fn i128_dec_bytes(n: i128) -> (r: Vec<u8>)
    ensures
        r@ == int_dec_text(n as int),
{
    if n < 0 {
        let mag: u128 = ((0i128 - (n + 1)) as u128) + 1;
        let mut out: Vec<u8> = Vec::new();
        out.push(45);
        let digits = dec_digits_bytes(mag);
        crate::numtext::append_copy(&mut out, &digits);
        proof {
            assert(out@ =~= seq![45u8] + dec_digits(-(n as int)));
        }
        out
    } else {
        dec_digits_bytes(n as u128)
    }
}

/// The decimal rendering of an array index.
pub fn usize_dec_bytes(n: usize) -> (r: Vec<u8>)
    ensures
        r@ == dec_digits(n as int),
{
    i128_dec_bytes(n as i128)
}

/// The bytes a value contributes to a timeline or event name.
pub fn display_bytes(v: &AttrVal) -> (r: Vec<u8>)
    ensures
        r@ == display_of(v@),
{
    match v {
        AttrVal::Bool(b) => {
            if *b {
                vec![116u8, 114u8, 117u8, 101u8]
            } else {
                vec![102u8, 97u8, 108u8, 115u8, 101u8]
            }
        },
        AttrVal::Integer(i) => i128_dec_bytes(*i as i128),
        AttrVal::BigInt(i) => i128_dec_bytes(*i),
        AttrVal::Float(t) => copy_bytes(t),
        AttrVal::Str(s) => copy_bytes(s),
    }
}

/// What a regex-captured string coerces to: a float if it has a decimal
/// point and reads as one; else an integer if it reads as one — within the
/// signed 64-bit range it is a plain integer, beyond it a big integer;
/// else text.
pub open spec fn spec_string_to_attr_val(s: Seq<u8>) -> AttrValV {
    if contains_byte(s, 46) && is_float_text(s) {
        AttrValV::Float(s)
    } else if is_int_text(s) && i64::MIN as int <= int_text_val(s) <= i64::MAX as int {
        AttrValV::Integer(int_text_val(s))
    } else if is_int_text(s) && i128::MIN as int <= int_text_val(s) <= i128::MAX as int {
        AttrValV::BigInt(int_text_val(s))
    } else {
        AttrValV::Str(s)
    }
}

/// Heuristically coerce captured text into a reasonably typed value.
pub fn string_to_attr_val(s: &Vec<u8>) -> (r: AttrVal)
    ensures
        r@ == spec_string_to_attr_val(s@),
{
    if contains_byte_exec(s, 46) && is_float_text_exec(s) {
        return AttrVal::Float(copy_bytes(s));
    }
    match parse_i128_text(s) {
        Some(i) => {
            if -0x8000_0000_0000_0000i128 <= i && i <= 0x7FFF_FFFF_FFFF_FFFFi128 {
                AttrVal::Integer(i as i64)
            } else {
                AttrVal::BigInt(i)
            }
        },
        None => AttrVal::Str(copy_bytes(s)),
    }
}

} // verus!
