//! A JSON reader over a byte buffer. One call consumes exactly one JSON
//! value starting at the cursor and reports where it ended, so that a buffer
//! may hold many values back to back, interleaved with non-JSON lines.
//!
//! Numbers are classified the way the downstream value model wants them:
//! within signed 64-bit range, within unsigned 64-bit range, or kept as
//! decimal text. Strings are unescaped, including `\uXXXX` escapes and
//! surrogate pairs, into UTF-8 bytes.

use vstd::prelude::*;

use crate::attr::{AttrVal, AttrValV};
use crate::error::Error;

verus! {

/// A JSON number, classified by range.
#[derive(Debug, PartialEq, Eq)]
pub enum JsonNum {
    /// Fits in a signed 64-bit integer.
    I(i64),
    /// Fits in an unsigned but not a signed 64-bit integer.
    U(u64),
    /// Anything else: kept as the decimal text it was written as.
    F(Vec<u8>),
}

/// A parsed JSON value.
#[derive(Debug, PartialEq, Eq)]
pub enum JsonValue {
    Null,
    Bool(bool),
    Num(JsonNum),
    Str(Vec<u8>),
    Arr(Vec<JsonValue>),
    /// Fields in source order.
    Obj(Vec<(Vec<u8>, JsonValue)>),
}

/// What a JSON leaf coerces to; `None` for null and for composite values,
/// which never become attributes themselves.
pub open spec fn spec_leaf_to_attr_val(v: JsonValue) -> Option<AttrValV> {
    match v {
        JsonValue::Null => None,
        JsonValue::Bool(b) => Some(AttrValV::Bool(b)),
        JsonValue::Num(JsonNum::I(i)) => Some(AttrValV::Integer(i as int)),
        JsonValue::Num(JsonNum::U(u)) => Some(AttrValV::BigInt(u as int)),
        JsonValue::Num(JsonNum::F(t)) => Some(AttrValV::Float(t@)),
        JsonValue::Str(s) => Some(AttrValV::Str(s@)),
        JsonValue::Arr(_) => None,
        JsonValue::Obj(_) => None,
    }
}

/// Coerce a JSON leaf into a typed attribute value.
pub fn json_leaf_to_attr_val(v: &JsonValue) -> (r: Option<AttrVal>)
    ensures
        match r {
            Some(a) => spec_leaf_to_attr_val(*v) == Some(a@),
            None => spec_leaf_to_attr_val(*v) is None,
        },
{
    match v {
        JsonValue::Null => None,
        JsonValue::Bool(b) => Some(AttrVal::Bool(*b)),
        JsonValue::Num(JsonNum::I(i)) => Some(AttrVal::Integer(*i)),
        JsonValue::Num(JsonNum::U(u)) => Some(AttrVal::BigInt(*u as i128)),
        JsonValue::Num(JsonNum::F(t)) => Some(AttrVal::Float(crate::attr::copy_bytes(t))),
        JsonValue::Str(s) => Some(AttrVal::Str(crate::attr::copy_bytes(s))),
        JsonValue::Arr(_) => None,
        JsonValue::Obj(_) => None,
    }
}

/// JSON insignificant whitespace.
pub open spec fn is_json_ws(b: u8) -> bool {
    b == 32 || b == 9 || b == 10 || b == 13
}

/// The first position at or after `i` holding more than whitespace.
pub open spec fn ws_end(s: Seq<u8>, i: int) -> int
    recommends
        0 <= i <= s.len(),
    decreases s.len() - i when 0 <= i <= s.len()
{
    if i < s.len() && is_json_ws(s[i]) {
        ws_end(s, i + 1)
    } else {
        i
    }
}

/// Advance past insignificant whitespace.
pub fn skip_ws(buf: &Vec<u8>, pos: usize) -> (r: usize)
    requires
        pos <= buf.len(),
    ensures
        r == ws_end(buf@, pos as int),
        pos <= r <= buf.len(),
        forall|m: int| pos <= m < r ==> is_json_ws(#[trigger] buf@[m]),
        r == buf.len() || !is_json_ws(buf@[r as int]),
{
    let mut j = pos;
    while j < buf.len() && (buf[j] == 32 || buf[j] == 9 || buf[j] == 10 || buf[j] == 13)
        invariant
            pos <= j <= buf.len(),
            ws_end(buf@, pos as int) == ws_end(buf@, j as int),
            forall|m: int| pos <= m < j ==> is_json_ws(#[trigger] buf@[m]),
        decreases buf.len() - j,
    {
        j = j + 1;
    }
    j
}

/// Is `b` an ASCII hex digit?
pub open spec fn is_hex_digit(b: u8) -> bool {
    (48 <= b <= 57) || (97 <= b <= 102) || (65 <= b <= 70)
}

/// The value of an ASCII hex digit.
pub open spec fn hex_digit_val(b: u8) -> int {
    if 48 <= b <= 57 {
        b as int - 48
    } else if 97 <= b <= 102 {
        b as int - 87
    } else {
        b as int - 55
    }
}

/// The value of an ASCII hex digit, if `b` is one.
fn hex_val(b: u8) -> (r: Option<u8>)
    ensures
        r is Some <==> is_hex_digit(b),
        r matches Some(v) ==> v < 16 && v as int == hex_digit_val(b),
{
    if 48 <= b && b <= 57 {
        Some(b - 48)
    } else if 97 <= b && b <= 102 {
        Some(b - 87)
    } else if 65 <= b && b <= 70 {
        Some(b - 55)
    } else {
        None
    }
}

/// Are there four hex digits at `p`?
pub open spec fn hex4_ok(s: Seq<u8>, p: int) -> bool {
    p + 4 <= s.len() && is_hex_digit(s[p]) && is_hex_digit(s[p + 1]) && is_hex_digit(s[p + 2])
        && is_hex_digit(s[p + 3])
}

/// The value of the four hex digits at `p`.
pub open spec fn hex4_val(s: Seq<u8>, p: int) -> int {
    ((hex_digit_val(s[p]) * 16 + hex_digit_val(s[p + 1])) * 16 + hex_digit_val(s[p + 2])) * 16
        + hex_digit_val(s[p + 3])
}

/// The UTF-8 encoding of code point `cp` (below 0x110000).
pub open spec fn utf8_encode(cp: u32) -> Seq<u8> {
    if cp < 0x80 {
        seq![cp as u8]
    } else if cp < 0x800 {
        seq![((0xC0u32 | (cp >> 6)) as u8), ((0x80u32 | (cp & 0x3F)) as u8)]
    } else if cp < 0x10000 {
        seq![
            ((0xE0u32 | (cp >> 12)) as u8),
            ((0x80u32 | ((cp >> 6) & 0x3F)) as u8),
            ((0x80u32 | (cp & 0x3F)) as u8),
        ]
    } else {
        seq![
            ((0xF0u32 | (cp >> 18)) as u8),
            ((0x80u32 | ((cp >> 12) & 0x3F)) as u8),
            ((0x80u32 | ((cp >> 6) & 0x3F)) as u8),
            ((0x80u32 | (cp & 0x3F)) as u8),
        ]
    }
}

/// Append the UTF-8 encoding of code point `cp` (below 0x110000).
fn push_utf8(out: &mut Vec<u8>, cp: u32)
    requires
        cp < 0x110000,
    ensures
        final(out)@ == old(out)@ + utf8_encode(cp),
{
    if cp < 0x80 {
        out.push(#[verifier::truncate] (cp as u8));
    } else if cp < 0x800 {
        out.push(#[verifier::truncate] ((0xC0u32 | (cp >> 6)) as u8));
        out.push(#[verifier::truncate] ((0x80u32 | (cp & 0x3F)) as u8));
    } else if cp < 0x10000 {
        out.push(#[verifier::truncate] ((0xE0u32 | (cp >> 12)) as u8));
        out.push(#[verifier::truncate] ((0x80u32 | ((cp >> 6) & 0x3F)) as u8));
        out.push(#[verifier::truncate] ((0x80u32 | (cp & 0x3F)) as u8));
    } else {
        out.push(#[verifier::truncate] ((0xF0u32 | (cp >> 18)) as u8));
        out.push(#[verifier::truncate] ((0x80u32 | ((cp >> 12) & 0x3F)) as u8));
        out.push(#[verifier::truncate] ((0x80u32 | ((cp >> 6) & 0x3F)) as u8));
        out.push(#[verifier::truncate] ((0x80u32 | (cp & 0x3F)) as u8));
    }
    proof {
        assert(out@ =~= old(out)@ + utf8_encode(cp));
    }
}

/// Read the four hex digits of a `\u` escape starting at `pos`.
fn parse_hex4(buf: &Vec<u8>, pos: usize) -> (r: Result<u32, Error>)
    requires
        pos <= buf.len(),
    ensures
        r is Ok <==> hex4_ok(buf@, pos as int),
        r matches Ok(v) ==> v < 0x10000 && v as int == hex4_val(buf@, pos as int),
        r is Ok ==> pos + 4 <= buf.len(),
{
    if buf.len() - pos < 4 {
        return Err(Error::MalformedInput);
    }
    let d0 = match hex_val(buf[pos]) {
        Some(d) => d,
        None => {
            return Err(Error::MalformedInput);
        },
    };
    let d1 = match hex_val(buf[pos + 1]) {
        Some(d) => d,
        None => {
            return Err(Error::MalformedInput);
        },
    };
    let d2 = match hex_val(buf[pos + 2]) {
        Some(d) => d,
        None => {
            return Err(Error::MalformedInput);
        },
    };
    let d3 = match hex_val(buf[pos + 3]) {
        Some(d) => d,
        None => {
            return Err(Error::MalformedInput);
        },
    };
    let v: u32 = ((d0 as u32 * 16 + d1 as u32) * 16 + d2 as u32) * 16 + d3 as u32;
    Ok(v)
}

/// Where the string content beginning at `i` (just past an opening quote)
/// ends, if it is well-formed: the position just past the closing quote.
/// Escapes take the short forms, or `\u` with four hex digits, where a
/// leading surrogate must pair with a trailing one.
pub open spec fn json_string_end(s: Seq<u8>, i: int) -> Option<int>
    recommends
        0 <= i <= s.len(),
    decreases s.len() - i when 0 <= i <= s.len()
{
    if i >= s.len() {
        None
    } else if s[i] == 34 {
        Some(i + 1)
    } else if s[i] == 92 {
        if i + 2 > s.len() {
            None
        } else {
            let e = s[i + 1];
            if e == 34 || e == 92 || e == 47 || e == 98 || e == 102 || e == 110 || e == 114 || e
                == 116 {
                json_string_end(s, i + 2)
            } else if e == 117 {
                if !hex4_ok(s, i + 2) {
                    None
                } else {
                    let cp = hex4_val(s, i + 2);
                    if 0xD800 <= cp < 0xDC00 {
                        if i + 8 <= s.len() && s[i + 6] == 92 && s[i + 7] == 117 && hex4_ok(
                            s,
                            i + 8,
                        ) && 0xDC00 <= hex4_val(s, i + 8) < 0xE000 {
                            json_string_end(s, i + 12)
                        } else {
                            None
                        }
                    } else if 0xDC00 <= cp < 0xE000 {
                        None
                    } else {
                        json_string_end(s, i + 6)
                    }
                }
            } else {
                None
            }
        }
    } else if s[i] < 32 {
        None
    } else {
        json_string_end(s, i + 1)
    }
}

/// The unescaped bytes of the string content beginning at `i` (just past
/// an opening quote), up to its closing quote; meaningful where
/// [`json_string_end`] finds one.
pub open spec fn json_string_content(s: Seq<u8>, i: int) -> Seq<u8>
    recommends
        0 <= i <= s.len(),
    decreases s.len() - i when 0 <= i <= s.len()
{
    if i >= s.len() {
        Seq::empty()
    } else if s[i] == 34 {
        Seq::empty()
    } else if s[i] == 92 {
        if i + 2 > s.len() {
            Seq::empty()
        } else {
            let e = s[i + 1];
            if e == 34 || e == 92 || e == 47 {
                seq![e] + json_string_content(s, i + 2)
            } else if e == 98 {
                seq![8u8] + json_string_content(s, i + 2)
            } else if e == 102 {
                seq![12u8] + json_string_content(s, i + 2)
            } else if e == 110 {
                seq![10u8] + json_string_content(s, i + 2)
            } else if e == 114 {
                seq![13u8] + json_string_content(s, i + 2)
            } else if e == 116 {
                seq![9u8] + json_string_content(s, i + 2)
            } else if e == 117 {
                if !hex4_ok(s, i + 2) {
                    Seq::empty()
                } else {
                    let cp = hex4_val(s, i + 2);
                    if 0xD800 <= cp < 0xDC00 {
                        if i + 8 <= s.len() && s[i + 6] == 92 && s[i + 7] == 117 && hex4_ok(
                            s,
                            i + 8,
                        ) && 0xDC00 <= hex4_val(s, i + 8) < 0xE000 {
                            let lo = hex4_val(s, i + 8);
                            utf8_encode(
                                (0x10000 + (cp - 0xD800) * 0x400 + (lo - 0xDC00)) as u32,
                            ) + json_string_content(s, i + 12)
                        } else {
                            Seq::empty()
                        }
                    } else if 0xDC00 <= cp < 0xE000 {
                        Seq::empty()
                    } else {
                        utf8_encode(cp as u32) + json_string_content(s, i + 6)
                    }
                }
            } else {
                Seq::empty()
            }
        }
    } else if s[i] < 32 {
        Seq::empty()
    } else {
        seq![s[i]] + json_string_content(s, i + 1)
    }
}

/// Read one JSON string starting at the opening quote; the result is the
/// unescaped content, and the cursor lands just past the closing quote.
#[verifier::rlimit(100)]
#[verifier::spinoff_prover]
pub fn parse_json_string(buf: &Vec<u8>, pos: usize) -> (r: Result<(Vec<u8>, usize), Error>)
    requires
        pos < buf.len(),
    ensures
        r is Ok <==> buf@[pos as int] == 34 && json_string_end(buf@, pos as int + 1) is Some,
        r matches Ok(t) ==> json_string_end(buf@, pos as int + 1) == Some(t.1 as int),
        r matches Ok(t) ==> t.0@ == json_string_content(buf@, pos as int + 1),
        r matches Ok(t) ==> pos < t.1 <= buf.len(),
{
    if buf[pos] != 34 {
        return Err(Error::MalformedInput);
    }
    let mut out: Vec<u8> = Vec::new();
    let mut i = pos + 1;
    loop
        invariant
            pos < i <= buf.len(),
            buf@[pos as int] == 34,
            json_string_end(buf@, pos as int + 1) == json_string_end(buf@, i as int),
            json_string_content(buf@, pos as int + 1) == out@ + json_string_content(
                buf@,
                i as int,
            ),
        decreases buf.len() - i,
    {
        if i >= buf.len() {
            return Err(Error::MalformedInput);
        }
        let b = buf[i];
        if b == 34 {
            return Ok((out, i + 1));
        }
        if b == 92 {
            if buf.len() - i < 2 {
                return Err(Error::MalformedInput);
            }
            let e = buf[i + 1];
            if e == 34 || e == 92 || e == 47 {
                out.push(e);
                i = i + 2;
            } else if e == 98 {
                out.push(8);
                i = i + 2;
            } else if e == 102 {
                out.push(12);
                i = i + 2;
            } else if e == 110 {
                out.push(10);
                i = i + 2;
            } else if e == 114 {
                out.push(13);
                i = i + 2;
            } else if e == 116 {
                out.push(9);
                i = i + 2;
            } else if e == 117 {
                let cp = match parse_hex4(buf, i + 2) {
                    Ok(v) => v,
                    Err(err) => {
                        return Err(err);
                    },
                };
                if 0xD800 <= cp && cp < 0xDC00 {
                    // a leading surrogate must be followed by a trailing one
                    if buf.len() - i < 8 || buf[i + 6] != 92 || buf[i + 7] != 117 {
                        return Err(Error::MalformedInput);
                    }
                    let lo = match parse_hex4(buf, i + 8) {
                        Ok(v) => v,
                        Err(err) => {
                            return Err(err);
                        },
                    };
                    if !(0xDC00 <= lo && lo < 0xE000) {
                        return Err(Error::MalformedInput);
                    }
                    let combined: u32 = 0x10000 + ((cp - 0xD800) * 0x400) + (lo - 0xDC00);
                    push_utf8(&mut out, combined);
                    i = i + 12;
                } else if 0xDC00 <= cp && cp < 0xE000 {
                    // a lone trailing surrogate
                    return Err(Error::MalformedInput);
                } else {
                    push_utf8(&mut out, cp);
                    i = i + 6;
                }
            } else {
                return Err(Error::MalformedInput);
            }
        } else if b < 32 {
            // control characters must be escaped inside a JSON string
            return Err(Error::MalformedInput);
        } else {
            out.push(b);
            i = i + 1;
        }
    }
}

/// Where the JSON number starting at `pos` ends, if one starts there: an
/// optional minus, an integer part with no leading zero, then an optional
/// fraction and exponent, each demanding at least one digit.
pub open spec fn json_number_end(s: Seq<u8>, pos: int) -> Option<int>
    recommends
        0 <= pos <= s.len(),
{
    let i0 = if pos < s.len() && s[pos] == 45 {
        pos + 1
    } else {
        pos
    };
    if !(i0 < s.len() && crate::numtext::is_digit(s[i0])) {
        None
    } else {
        let ie = if s[i0] == 48 {
            i0 + 1
        } else {
            crate::numtext::digits_end(s, i0)
        };
        if ie < s.len() && crate::numtext::is_digit(s[ie]) {
            None
        } else {
            let fe = if ie < s.len() && s[ie] == 46 {
                crate::numtext::digits_end(s, ie + 1)
            } else {
                ie
            };
            if ie < s.len() && s[ie] == 46 && fe == ie + 1 {
                None
            } else if fe < s.len() && (s[fe] == 101 || s[fe] == 69) {
                let q = if fe + 1 < s.len() && (s[fe + 1] == 43 || s[fe + 1] == 45) {
                    fe + 2
                } else {
                    fe + 1
                };
                let ee = crate::numtext::digits_end(s, q);
                if ee == q {
                    None
                } else {
                    Some(ee)
                }
            } else {
                Some(fe)
            }
        }
    }
}

/// Does this classified number read back as exactly this text? Integers
/// carry the text's value; anything kept as text is the text itself.
pub open spec fn json_num_denotes(nm: JsonNum, text: Seq<u8>) -> bool {
    match nm {
        JsonNum::I(v) => crate::numtext::is_int_text(text) && v as int
            == crate::numtext::int_text_val(text),
        JsonNum::U(v) => crate::numtext::is_int_text(text) && v as int
            == crate::numtext::int_text_val(text) && v > i64::MAX as u64,
        JsonNum::F(t) => t@ == text && crate::numtext::is_float_text(text),
    }
}

/// Read one JSON number starting at `pos` (a `-` or a digit); the cursor
/// lands just past its last byte. A plain integer comes back as a signed
/// or unsigned 64-bit value when it fits; anything else keeps its exact
/// decimal text.
#[verifier::rlimit(60)]
pub fn parse_json_number(buf: &Vec<u8>, pos: usize) -> (r: Result<(JsonNum, usize), Error>)
    requires
        pos < buf.len(),
    ensures
        r is Ok <==> json_number_end(buf@, pos as int) is Some,
        r matches Ok(t) ==> json_number_end(buf@, pos as int) == Some(t.1 as int),
        r matches Ok(t) ==> pos < t.1 <= buf.len(),
        r matches Ok(t) ==> json_num_denotes(t.0, buf@.subrange(pos as int, t.1 as int)),
{
    let mut i = pos;
    let neg = buf[i] == 45;
    if neg {
        i = i + 1;
    }
    // integer part: one zero, or a nonzero digit followed by more digits
    if i >= buf.len() || buf[i] < 48 || buf[i] > 57 {
        return Err(Error::MalformedInput);
    }
    let int_start = i;
    if buf[i] == 48 {
        i = i + 1;
        if i < buf.len() && 48 <= buf[i] && buf[i] <= 57 {
            return Err(Error::MalformedInput);
        }
    } else {
        i = crate::numtext::scan_digits(buf, i);
    }
    let int_end = i;
    proof {
        crate::numtext::lemma_digits_end_eq(buf@, int_start as int, int_end as int);
    }
    let mut fractional = false;
    let mut frac_end = int_end;
    if i < buf.len() && buf[i] == 46 {
        fractional = true;
        let d = crate::numtext::scan_digits(buf, i + 1);
        if d == i + 1 {
            return Err(Error::MalformedInput);
        }
        i = d;
        frac_end = d;
    }
    let mut exponential = false;
    if i < buf.len() && (buf[i] == 101 || buf[i] == 69) {
        exponential = true;
        let mut j = i + 1;
        if j < buf.len() && (buf[j] == 43 || buf[j] == 45) {
            j = j + 1;
        }
        let d = crate::numtext::scan_digits(buf, j);
        if d == j {
            return Err(Error::MalformedInput);
        }
        proof {
            crate::numtext::lemma_digits_end(buf@, j as int);
        }
        i = d;
    }
    if fractional || exponential {
        let text = crate::numtext::copy_range(buf, pos, i);
        proof {
            lemma_json_number_is_float_text(
                buf@,
                pos as int,
                int_start as int,
                int_end as int,
                fractional,
                frac_end as int,
                exponential,
                i as int,
            );
        }
        return Ok((JsonNum::F(text), i));
    }
    // an integer: accumulate its magnitude, falling back to text on overflow
    let mut acc: u64 = 0;
    let mut overflow = false;
    let mut k = int_start;
    assert(buf@.subrange(int_start as int, int_start as int) =~= Seq::<u8>::empty());
    while k < int_end
        invariant
            int_start <= k <= int_end <= buf.len(),
            forall|m: int| int_start <= m < int_end ==> 48 <= #[trigger] buf@[m] <= 57,
            !overflow ==> acc as int == crate::numtext::dec_val(
                buf@.subrange(int_start as int, k as int),
            ),
        decreases int_end - k,
    {
        let d = (buf[k] - 48) as u64;
        proof {
            crate::numtext::lemma_dec_val_snoc(buf@, int_start as int, k as int);
        }
        if acc > (0xFFFF_FFFF_FFFF_FFFFu64 - d) / 10 {
            overflow = true;
            acc = 0;
        } else if !overflow {
            proof {
                vstd::arithmetic::div_mod::lemma_fundamental_div_mod(
                    (0xFFFF_FFFF_FFFF_FFFFu64 - d) as int,
                    10,
                );
            }
            acc = acc * 10 + d;
        }
        k = k + 1;
    }
    let ghost whole = buf@.subrange(pos as int, int_end as int);
    proof {
        assert(whole[0] == buf@[pos as int]);
        assert(crate::numtext::num_start(whole) == if neg {
            1int
        } else {
            0int
        });
        assert(whole.subrange(crate::numtext::num_start(whole), whole.len() as int) =~= buf@
            .subrange(int_start as int, int_end as int));
        assert(forall|m: int|
            crate::numtext::num_start(whole) <= m < whole.len() ==> crate::numtext::is_digit(
                #[trigger] whole[m],
            ));
        crate::numtext::lemma_digits_end_eq(
            whole,
            crate::numtext::num_start(whole),
            whole.len() as int,
        );
    }
    if overflow {
        let text = crate::numtext::copy_range(buf, pos, i);
        proof {
            assert(crate::numtext::is_exp_tail(whole, whole.len() as int));
        }
        return Ok((JsonNum::F(text), i));
    }
    if neg {
        if acc <= 0x8000_0000_0000_0000u64 {
            if acc == 0x8000_0000_0000_0000u64 {
                Ok((JsonNum::I(i64::MIN), i))
            } else {
                Ok((JsonNum::I(0i64 - (acc as i64)), i))
            }
        } else {
            let text = crate::numtext::copy_range(buf, pos, i);
            proof {
                assert(crate::numtext::is_exp_tail(whole, whole.len() as int));
            }
            Ok((JsonNum::F(text), i))
        }
    } else {
        if acc <= 0x7FFF_FFFF_FFFF_FFFFu64 {
            Ok((JsonNum::I(acc as i64), i))
        } else {
            Ok((JsonNum::U(acc), i))
        }
    }
}

/// A JSON number with a fraction or exponent reads as a decimal text.
#[verifier::rlimit(60)]
proof fn lemma_json_number_is_float_text(
    s: Seq<u8>,
    pos: int,
    int_start: int,
    int_end: int,
    fractional: bool,
    frac_end: int,
    exponential: bool,
    end: int,
)
    requires
        0 <= pos <= s.len(),
        pos <= int_start <= int_end <= frac_end <= end <= s.len(),
        int_start == pos + (if s[pos] == 45 {
            1int
        } else {
            0int
        }),
        int_start < int_end,
        s[pos] == 45 || crate::numtext::is_digit(s[pos]),
        forall|m: int| int_start <= m < int_end ==> crate::numtext::is_digit(#[trigger] s[m]),
        int_end == s.len() || !crate::numtext::is_digit(s[int_end]),
        fractional ==> int_end < s.len() && s[int_end] == 46 && int_end + 1 < frac_end && (
        forall|m: int| int_end + 1 <= m < frac_end ==> crate::numtext::is_digit(#[trigger] s[m]))
            && (frac_end == s.len() || !crate::numtext::is_digit(s[frac_end])),
        !fractional ==> frac_end == int_end && (int_end == s.len() || s[int_end] != 46),
        exponential ==> frac_end < s.len() && (s[frac_end] == 101 || s[frac_end] == 69) && ({
            let q = if frac_end + 1 < s.len() && (s[frac_end + 1] == 43 || s[frac_end + 1] == 45) {
                frac_end + 2
            } else {
                frac_end + 1
            };
            q < end && (forall|m: int| q <= m < end ==> crate::numtext::is_digit(#[trigger] s[m]))
                && (end == s.len() || !crate::numtext::is_digit(s[end as int]))
        }),
        !exponential ==> end == frac_end && (end == s.len() || (s[end] != 101 && s[end] != 69)),
        fractional || exponential,
    ensures
        crate::numtext::is_float_text(s.subrange(pos, end)),
{
    let t = s.subrange(pos, end);
    let ns = crate::numtext::num_start(t);
    assert(ns == int_start - pos);
    assert(forall|m: int|
        ns <= m < int_end - pos ==> crate::numtext::is_digit(#[trigger] t[m]));
    crate::numtext::lemma_digits_end_eq(t, ns, int_end - pos);
    if fractional {
        assert(t[int_end - pos] == 46);
        assert(forall|m: int|
            int_end - pos + 1 <= m < frac_end - pos ==> crate::numtext::is_digit(
                #[trigger] t[m],
            ));
        crate::numtext::lemma_digits_end_eq(t, int_end - pos + 1, frac_end - pos);
    }
    if exponential {
        let p = frac_end - pos;
        assert(t[p] == 101 || t[p] == 69);
        let q = if p + 1 < t.len() && (t[p + 1] == 43 || t[p + 1] == 45) {
            p + 2
        } else {
            p + 1
        };
        assert(q == (if frac_end + 1 < s.len() && (s[frac_end + 1] == 43 || s[frac_end + 1]
            == 45) {
            frac_end + 2
        } else {
            frac_end + 1
        }) - pos);
        assert(forall|m: int| q <= m < t.len() ==> crate::numtext::is_digit(#[trigger] t[m]));
        crate::numtext::lemma_digits_end_eq(t, q, t.len() as int);
        assert(crate::numtext::is_exp_tail(t, p));
    } else {
        assert(crate::numtext::is_exp_tail(t, frac_end - pos));
    }
}

/// Where the JSON value starting at `pos` ends, if one starts there. The
/// bounds guards along the way always hold; they only keep the definition
/// well-founded.
pub open spec fn json_value_end(s: Seq<u8>, pos: int) -> Option<int>
    recommends
        0 <= pos <= s.len(),
    decreases s.len() - pos, 0int when 0 <= pos <= s.len()
{
    if pos >= s.len() {
        None
    } else {
        let b = s[pos];
        if b == 110 {
            if pos + 4 <= s.len() && s[pos + 1] == 117 && s[pos + 2] == 108 && s[pos + 3] == 108 {
                Some(pos + 4)
            } else {
                None
            }
        } else if b == 116 {
            if pos + 4 <= s.len() && s[pos + 1] == 114 && s[pos + 2] == 117 && s[pos + 3] == 101 {
                Some(pos + 4)
            } else {
                None
            }
        } else if b == 102 {
            if pos + 5 <= s.len() && s[pos + 1] == 97 && s[pos + 2] == 108 && s[pos + 3] == 115
                && s[pos + 4] == 101 {
                Some(pos + 5)
            } else {
                None
            }
        } else if b == 34 {
            json_string_end(s, pos + 1)
        } else if b == 45 || crate::numtext::is_digit(b) {
            json_number_end(s, pos)
        } else if b == 91 {
            let c = ws_end(s, pos + 1);
            if !(pos < c <= s.len()) {
                None
            } else if c < s.len() && s[c] == 93 {
                Some(c + 1)
            } else {
                json_elems_end(s, c)
            }
        } else if b == 123 {
            let c = ws_end(s, pos + 1);
            if !(pos < c <= s.len()) {
                None
            } else if c < s.len() && s[c] == 125 {
                Some(c + 1)
            } else {
                json_members_end(s, c)
            }
        } else {
            None
        }
    }
}

/// Where the remaining elements of an array end: a value at `c`, then `]`
/// to finish or `,` and more elements.
pub open spec fn json_elems_end(s: Seq<u8>, c: int) -> Option<int>
    recommends
        0 <= c <= s.len(),
    decreases s.len() - c, 1int when 0 <= c <= s.len()
{
    match json_value_end(s, c) {
        None => None,
        Some(np) => if !(c < np <= s.len()) {
            None
        } else {
            let c2 = ws_end(s, np);
            if !(np <= c2 <= s.len()) {
                None
            } else if c2 >= s.len() {
                None
            } else if s[c2] == 93 {
                Some(c2 + 1)
            } else if s[c2] == 44 {
                let c3 = ws_end(s, c2 + 1);
                if !(c2 < c3 <= s.len()) {
                    None
                } else {
                    json_elems_end(s, c3)
                }
            } else {
                None
            }
        },
    }
}

/// Where the remaining members of an object end: a string key at `c`, a
/// colon, a value, then `}` to finish or `,` and more members.
pub open spec fn json_members_end(s: Seq<u8>, c: int) -> Option<int>
    recommends
        0 <= c <= s.len(),
    decreases s.len() - c, 1int when 0 <= c <= s.len()
{
    if !(c < s.len() && s[c] == 34) {
        None
    } else {
        match json_string_end(s, c + 1) {
            None => None,
            Some(kp) => if !(c < kp <= s.len()) {
                None
            } else {
                let colon = ws_end(s, kp);
                if !(kp <= colon <= s.len()) {
                    None
                } else if !(colon < s.len() && s[colon] == 58) {
                    None
                } else {
                    let vs = ws_end(s, colon + 1);
                    if !(colon < vs <= s.len()) {
                        None
                    } else if vs >= s.len() {
                        None
                    } else {
                        match json_value_end(s, vs) {
                            None => None,
                            Some(np) => if !(vs < np <= s.len()) {
                                None
                            } else {
                                let c2 = ws_end(s, np);
                                if !(np <= c2 <= s.len()) {
                                    None
                                } else if c2 >= s.len() {
                                    None
                                } else if s[c2] == 125 {
                                    Some(c2 + 1)
                                } else if s[c2] == 44 {
                                    let c3 = ws_end(s, c2 + 1);
                                    if !(c2 < c3 <= s.len()) {
                                        None
                                    } else {
                                        json_members_end(s, c3)
                                    }
                                } else {
                                    None
                                }
                            },
                        }
                    }
                }
            },
        }
    }
}

/// Read one complete JSON value starting at `pos` (no leading whitespace);
/// the cursor lands just past its last byte and the result is exactly the
/// value those bytes denote. Trailing content is left for the next read.
#[verifier::rlimit(100)]
#[verifier::spinoff_prover]
pub fn parse_json_value(buf: &Vec<u8>, pos: usize) -> (r: Result<(JsonValue, usize), Error>)
    requires
        pos < buf.len(),
    ensures
        r is Ok <==> json_value_end(buf@, pos as int) is Some,
        r matches Ok(t) ==> json_value_end(buf@, pos as int) == Some(t.1 as int),
        r matches Ok(t) ==> json_value_denotes(buf@, pos as int, t.0),
        r matches Ok(t) ==> pos < t.1 <= buf.len(),
        r matches Ok(t) ==> (t.0 matches JsonValue::Arr(items) ==> items@.len() <= t.1 - pos),
    decreases buf.len() - pos,
{
    let b = buf[pos];
    if b == 110 {
        // null
        if buf.len() - pos >= 4 && buf[pos + 1] == 117 && buf[pos + 2] == 108 && buf[pos + 3]
            == 108 {
            Ok((JsonValue::Null, pos + 4))
        } else {
            Err(Error::MalformedInput)
        }
    } else if b == 116 {
        // true
        if buf.len() - pos >= 4 && buf[pos + 1] == 114 && buf[pos + 2] == 117 && buf[pos + 3]
            == 101 {
            Ok((JsonValue::Bool(true), pos + 4))
        } else {
            Err(Error::MalformedInput)
        }
    } else if b == 102 {
        // false
        if buf.len() - pos >= 5 && buf[pos + 1] == 97 && buf[pos + 2] == 108 && buf[pos + 3] == 115
            && buf[pos + 4] == 101 {
            Ok((JsonValue::Bool(false), pos + 5))
        } else {
            Err(Error::MalformedInput)
        }
    } else if b == 34 {
        match parse_json_string(buf, pos) {
            Ok((s, end)) => Ok((JsonValue::Str(s), end)),
            Err(e) => Err(e),
        }
    } else if b == 45 || (48 <= b && b <= 57) {
        match parse_json_number(buf, pos) {
            Ok((n, end)) => Ok((JsonValue::Num(n), end)),
            Err(e) => Err(e),
        }
    } else if b == 91 {
        // array
        let mut items: Vec<JsonValue> = Vec::new();
        let mut cur = skip_ws(buf, pos + 1);
        if cur < buf.len() && buf[cur] == 93 {
            return Ok((JsonValue::Arr(items), cur + 1));
        }
        let ghost c0 = cur as int;
        proof {
            assert forall|rest: Seq<JsonValue>|
                #[trigger] json_elems_denote(buf@, c0, rest) implies json_elems_denote(
                buf@,
                c0,
                items@ + rest,
            ) by {
                assert(items@ + rest =~= rest);
            }
        }
        loop
            invariant
                pos < cur <= buf.len(),
                buf@[pos as int] == 91,
                c0 == ws_end(buf@, pos as int + 1),
                pos < c0 <= buf.len(),
                !(c0 < buf.len() && buf@[c0] == 93),
                items@.len() <= cur - pos,
                json_value_end(buf@, pos as int) == json_elems_end(buf@, cur as int),
                forall|rest: Seq<JsonValue>|
                    #[trigger] json_elems_denote(buf@, cur as int, rest)
                        ==> json_elems_denote(buf@, c0, items@ + rest),
            decreases buf.len() - cur,
        {
            if cur >= buf.len() {
                return Err(Error::MalformedInput);
            }
            let ghost ce = cur as int;
            let ghost items0 = items@;
            let (v, np) = match parse_json_value(buf, cur) {
                Ok(t) => t,
                Err(e) => {
                    return Err(e);
                },
            };
            let ghost vv = v;
            items.push(v);
            cur = skip_ws(buf, np);
            if cur >= buf.len() {
                return Err(Error::MalformedInput);
            }
            if buf[cur] == 93 {
                proof {
                    assert(seq![vv].first() == vv);
                    assert(json_elems_denote(buf@, ce, seq![vv]));
                    assert(items@ =~= items0 + seq![vv]);
                    assert(json_elems_denote(buf@, c0, items@));
                }
                return Ok((JsonValue::Arr(items), cur + 1));
            }
            if buf[cur] != 44 {
                return Err(Error::MalformedInput);
            }
            let ghost c2 = cur as int;
            cur = skip_ws(buf, cur + 1);
            proof {
                assert forall|rest: Seq<JsonValue>|
                    #[trigger] json_elems_denote(buf@, cur as int, rest) implies json_elems_denote(
                    buf@,
                    c0,
                    items@ + rest,
                ) by {
                    assert((seq![vv] + rest).first() == vv);
                    assert((seq![vv] + rest).drop_first() =~= rest);
                    assert(json_elems_denote(buf@, ce, seq![vv] + rest));
                    assert(items0 + (seq![vv] + rest) =~= items@ + rest);
                }
            }
        }
    } else if b == 123 {
        // object
        let mut fields: Vec<(Vec<u8>, JsonValue)> = Vec::new();
        let mut cur = skip_ws(buf, pos + 1);
        if cur < buf.len() && buf[cur] == 125 {
            return Ok((JsonValue::Obj(fields), cur + 1));
        }
        let ghost c0 = cur as int;
        let ghost mut raw: Seq<(Vec<u8>, JsonValue)> = Seq::empty();
        proof {
            assert(fields@ =~= upsert_fold(raw));
            assert forall|rest: Seq<(Vec<u8>, JsonValue)>|
                #[trigger] json_members_denote(buf@, c0, rest) implies json_members_denote(
                buf@,
                c0,
                raw + rest,
            ) by {
                assert(raw + rest =~= rest);
            }
        }
        loop
            invariant
                pos < cur <= buf.len(),
                buf@[pos as int] == 123,
                c0 == ws_end(buf@, pos as int + 1),
                pos < c0 <= buf.len(),
                !(c0 < buf.len() && buf@[c0] == 125),
                fields@ == upsert_fold(raw),
                json_value_end(buf@, pos as int) == json_members_end(buf@, cur as int),
                forall|rest: Seq<(Vec<u8>, JsonValue)>|
                    #[trigger] json_members_denote(buf@, cur as int, rest)
                        ==> json_members_denote(buf@, c0, raw + rest),
            decreases buf.len() - cur,
        {
            if cur >= buf.len() {
                return Err(Error::MalformedInput);
            }
            let ghost me = cur as int;
            let (key, kp) = match parse_json_string(buf, cur) {
                Ok(t) => t,
                Err(e) => {
                    return Err(e);
                },
            };
            let colon = skip_ws(buf, kp);
            if colon >= buf.len() || buf[colon] != 58 {
                return Err(Error::MalformedInput);
            }
            let vstart = skip_ws(buf, colon + 1);
            if vstart >= buf.len() {
                return Err(Error::MalformedInput);
            }
            let (v, np) = match parse_json_value(buf, vstart) {
                Ok(t) => t,
                Err(e) => {
                    return Err(e);
                },
            };
            let ghost kk = key;
            let ghost vv = v;
            let ghost raw0 = raw;
            let ghost fields0 = fields@;
            proof {
                raw = raw.push((kk, vv));
                assert(raw.drop_last() =~= raw0);
                assert(raw.last() == (kk, vv));
            }
            upsert_field(&mut fields, key, v);
            cur = skip_ws(buf, np);
            if cur >= buf.len() {
                return Err(Error::MalformedInput);
            }
            if buf[cur] == 125 {
                proof {
                    assert(seq![(kk, vv)].first() == (kk, vv));
                    assert(json_members_denote(buf@, me, seq![(kk, vv)]));
                    assert(raw =~= raw0 + seq![(kk, vv)]);
                    assert(json_members_denote(buf@, c0, raw));
                    assert(fields@ == upsert_fold(raw));
                    assert(json_members_denote(buf@, c0, raw) && fields@ == upsert_fold(raw));
                }
                return Ok((JsonValue::Obj(fields), cur + 1));
            }
            if buf[cur] != 44 {
                return Err(Error::MalformedInput);
            }
            cur = skip_ws(buf, cur + 1);
            proof {
                assert forall|rest: Seq<(Vec<u8>, JsonValue)>|
                    #[trigger] json_members_denote(buf@, cur as int, rest)
                        implies json_members_denote(buf@, c0, raw + rest) by {
                    assert((seq![(kk, vv)] + rest).first() == (kk, vv));
                    assert((seq![(kk, vv)] + rest).drop_first() =~= rest);
                    assert(json_members_denote(buf@, me, seq![(kk, vv)] + rest));
                    assert(raw0 + (seq![(kk, vv)] + rest) =~= raw + rest);
                }
            }
        }
    } else {
        Err(Error::MalformedInput)
    }
}

/// The first match among the first `i` entries pins `field_index`.
proof fn lemma_field_index_at(fields: Seq<(Vec<u8>, JsonValue)>, key: Seq<u8>, i: int)
    requires
        0 <= i < fields.len(),
        fields[i].0@ == key,
        forall|m: int| 0 <= m < i ==> #[trigger] fields[m].0@ != key,
    ensures
        field_index(fields, key) == i,
    decreases fields.len(),
{
    if fields.first().0@ == key {
        assert(i == 0);
    } else {
        let rest = fields.drop_first();
        assert(forall|m: int| 0 <= m < i - 1 ==> #[trigger] rest[m].0@ != key) by {
            assert(forall|m: int| 0 <= m < rest.len() ==> rest[m] == fields[m + 1]);
        }
        assert(rest[i - 1].0@ == key);
        lemma_field_index_at(rest, key, i - 1);
    }
}

/// Record one object field: a repeated key keeps its first position but
/// takes the value written last, the way a JSON map read keeps only the
/// final value of a duplicated key.
fn upsert_field(fields: &mut Vec<(Vec<u8>, JsonValue)>, key: Vec<u8>, v: JsonValue)
    ensures
        final(fields)@ == spec_upsert(old(fields)@, key, v),
{
    let n = fields.len();
    let mut i: usize = 0;
    while i < n
        invariant
            i <= n == fields@.len(),
            *fields == *old(fields),
            forall|m: int| 0 <= m < i ==> #[trigger] fields@[m].0@ != key@,
        decreases n - i,
    {
        if crate::attr::bytes_eq(&fields[i].0, &key) {
            proof {
                lemma_field_index_at(fields@, key@, i as int);
            }
            fields.remove(i);
            fields.insert(i, (key, v));
            proof {
                assert(fields@ =~= old(fields)@.update(i as int, (key, v)));
            }
            return ;
        }
        i = i + 1;
    }
    fields.push((key, v));
}

/// The first `.` at or after `i`, or the end of the path.
pub open spec fn first_dot(s: Seq<u8>, i: int) -> int
    recommends
        0 <= i <= s.len(),
    decreases s.len() - i when 0 <= i <= s.len()
{
    if i < s.len() && s[i] != 46 {
        first_dot(s, i + 1)
    } else {
        i
    }
}

pub proof fn lemma_first_dot_bounds(s: Seq<u8>, i: int)
    requires
        0 <= i <= s.len(),
    ensures
        i <= first_dot(s, i) <= s.len(),
    decreases s.len() - i,
{
    if i < s.len() && s[i] != 46 {
        lemma_first_dot_bounds(s, i + 1);
    }
}

fn find_dot(path: &Vec<u8>) -> (r: usize)
    ensures
        r == first_dot(path@, 0),
        r <= path.len(),
{
    let mut j: usize = 0;
    while j < path.len() && path[j] != 46
        invariant
            j <= path.len(),
            first_dot(path@, 0) == first_dot(path@, j as int),
        decreases path.len() - j,
    {
        j = j + 1;
    }
    j
}

/// The first field carrying key `k`.
pub open spec fn obj_get(fields: Seq<(Vec<u8>, JsonValue)>, k: Seq<u8>) -> Option<JsonValue>
    decreases fields.len(),
{
    if fields.len() == 0 {
        None
    } else if fields.first().0@ == k {
        Some(fields.first().1)
    } else {
        obj_get(fields.drop_first(), k)
    }
}

fn obj_get_exec<'j>(fields: &'j Vec<(Vec<u8>, JsonValue)>, k: &Vec<u8>) -> (r: Option<
    &'j JsonValue,
>)
    ensures
        match r {
            Some(v) => obj_get(fields@, k@) == Some(*v),
            None => obj_get(fields@, k@) is None,
        },
{
    proof {
        assert(fields@.skip(0) =~= fields@);
    }
    let mut i: usize = 0;
    while i < fields.len()
        invariant
            i <= fields@.len(),
            obj_get(fields@, k@) == obj_get(fields@.skip(i as int), k@),
        decreases fields@.len() - i,
    {
        proof {
            assert(fields@.skip(i as int).first() == fields@[i as int]);
            assert(fields@.skip(i as int).drop_first() =~= fields@.skip(i as int + 1));
        }
        if crate::attr::bytes_eq(&fields[i].0, k) {
            return Some(&fields[i].1);
        }
        i = i + 1;
    }
    proof {
        assert(fields@.skip(fields@.len() as int) =~= Seq::<(Vec<u8>, JsonValue)>::empty());
    }
    None
}

/// The value a dotted path leads to in a nested object: each segment
/// before a `.` names an object to step into, and the last segment names
/// the value itself.
pub open spec fn spec_get_at_path(fields: Seq<(Vec<u8>, JsonValue)>, path: Seq<u8>) -> Option<
    JsonValue,
>
    decreases path.len(),
{
    let d = first_dot(path, 0);
    if 0 <= d < path.len() {
        match obj_get(fields, path.subrange(0, d)) {
            Some(JsonValue::Obj(f2)) => spec_get_at_path(f2@, path.subrange(d + 1, path.len() as int)),
            _ => None,
        }
    } else {
        obj_get(fields, path)
    }
}

/// Follow a dotted path down through nested objects.
pub fn get_val_at_path<'j>(path: &Vec<u8>, obj: &'j Vec<(Vec<u8>, JsonValue)>) -> (r: Option<
    &'j JsonValue,
>)
    ensures
        match r {
            Some(v) => spec_get_at_path(obj@, path@) == Some(*v),
            None => spec_get_at_path(obj@, path@) is None,
        },
    decreases path@.len(),
{
    let d = find_dot(path);
    if d < path.len() {
        let head = crate::numtext::copy_range(path, 0, d);
        match obj_get_exec(obj, &head) {
            Some(v) => match v {
                JsonValue::Obj(f2) => {
                    let rest = crate::numtext::copy_range(path, d + 1, path.len());
                    get_val_at_path(&rest, f2)
                },
                _ => None,
            },
            None => None,
        }
    } else {
        obj_get_exec(obj, path)
    }
}

/// The first position of `key` among the fields.
pub open spec fn field_index(fields: Seq<(Vec<u8>, JsonValue)>, key: Seq<u8>) -> int
    decreases fields.len(),
{
    if fields.len() == 0 {
        0
    } else if fields.first().0@ == key {
        0
    } else {
        1 + field_index(fields.drop_first(), key)
    }
}

/// One field recorded over existing ones: a repeated key keeps its first
/// position and takes the new value; a new key goes at the end.
pub open spec fn spec_upsert(
    fields: Seq<(Vec<u8>, JsonValue)>,
    key: Vec<u8>,
    v: JsonValue,
) -> Seq<(Vec<u8>, JsonValue)> {
    if exists|i: int| 0 <= i < fields.len() && fields[i].0@ == key@ {
        fields.update(field_index(fields, key@), (key, v))
    } else {
        fields.push((key, v))
    }
}

/// All raw members recorded in order, later values of a key over earlier
/// ones.
pub open spec fn upsert_fold(raw: Seq<(Vec<u8>, JsonValue)>) -> Seq<(Vec<u8>, JsonValue)>
    decreases raw.len(),
{
    if raw.len() == 0 {
        Seq::empty()
    } else {
        spec_upsert(upsert_fold(raw.drop_last()), raw.last().0, raw.last().1)
    }
}

/// Does `v` read back as the value whose text begins at `pos`? Meaningful
/// where [`json_value_end`] succeeds; leaves are pinned directly, an array
/// to its elements in order, and an object to the recorded fold of its
/// members in source order.
pub open spec fn json_value_denotes(s: Seq<u8>, pos: int, v: JsonValue) -> bool
    recommends
        0 <= pos <= s.len(),
    decreases s.len() - pos, 0int when 0 <= pos <= s.len()
{
    if pos >= s.len() {
        false
    } else {
        let b = s[pos];
        if b == 110 {
            v == JsonValue::Null
        } else if b == 116 {
            v == JsonValue::Bool(true)
        } else if b == 102 {
            v == JsonValue::Bool(false)
        } else if b == 34 {
            match v {
                JsonValue::Str(sv) => sv@ == json_string_content(s, pos + 1),
                _ => false,
            }
        } else if b == 45 || crate::numtext::is_digit(b) {
            match v {
                JsonValue::Num(nm) => match json_number_end(s, pos) {
                    Some(e) => json_num_denotes(nm, s.subrange(pos, e)),
                    None => false,
                },
                _ => false,
            }
        } else if b == 91 {
            let c = ws_end(s, pos + 1);
            if !(pos < c <= s.len()) {
                false
            } else if c < s.len() && s[c] == 93 {
                match v {
                    JsonValue::Arr(items) => items@.len() == 0,
                    _ => false,
                }
            } else {
                match v {
                    JsonValue::Arr(items) => json_elems_denote(s, c, items@),
                    _ => false,
                }
            }
        } else if b == 123 {
            let c = ws_end(s, pos + 1);
            if !(pos < c <= s.len()) {
                false
            } else if c < s.len() && s[c] == 125 {
                match v {
                    JsonValue::Obj(fields) => fields@.len() == 0,
                    _ => false,
                }
            } else {
                match v {
                    JsonValue::Obj(fields) => exists|raw: Seq<(Vec<u8>, JsonValue)>|
                        json_members_denote(s, c, raw) && fields@ == upsert_fold(raw),
                    _ => false,
                }
            }
        } else {
            false
        }
    }
}

/// Do `items` read back as the array elements whose text begins at `c`:
/// one element, then `]` to close or `,` and the rest?
pub open spec fn json_elems_denote(s: Seq<u8>, c: int, items: Seq<JsonValue>) -> bool
    recommends
        0 <= c <= s.len(),
    decreases s.len() - c, 1int when 0 <= c <= s.len()
{
    match json_value_end(s, c) {
        None => false,
        Some(np) => if !(c < np <= s.len()) {
            false
        } else if !(items.len() > 0 && json_value_denotes(s, c, items.first())) {
            false
        } else {
            let c2 = ws_end(s, np);
            if !(np <= c2 <= s.len()) {
                false
            } else if c2 >= s.len() {
                false
            } else if s[c2] == 93 {
                items.len() == 1
            } else if s[c2] == 44 {
                let c3 = ws_end(s, c2 + 1);
                if !(c2 < c3 <= s.len()) {
                    false
                } else {
                    json_elems_denote(s, c3, items.drop_first())
                }
            } else {
                false
            }
        },
    }
}

/// Do `raw` read back as the object members whose text begins at `c`, in
/// source order: a string key, a colon, a value, then `}` to close or `,`
/// and the rest?
pub open spec fn json_members_denote(s: Seq<u8>, c: int, raw: Seq<(Vec<u8>, JsonValue)>) -> bool
    recommends
        0 <= c <= s.len(),
    decreases s.len() - c, 1int when 0 <= c <= s.len()
{
    if !(c < s.len() && s[c] == 34) {
        false
    } else {
        match json_string_end(s, c + 1) {
            None => false,
            Some(kp) => if !(c < kp <= s.len()) {
                false
            } else if !(raw.len() > 0 && raw.first().0@ == json_string_content(s, c + 1)) {
                false
            } else {
                let colon = ws_end(s, kp);
                if !(kp <= colon <= s.len()) {
                    false
                } else if !(colon < s.len() && s[colon] == 58) {
                    false
                } else {
                    let vs = ws_end(s, colon + 1);
                    if !(colon < vs <= s.len()) {
                        false
                    } else if vs >= s.len() {
                        false
                    } else if !json_value_denotes(s, vs, raw.first().1) {
                        false
                    } else {
                        match json_value_end(s, vs) {
                            None => false,
                            Some(np) => if !(vs < np <= s.len()) {
                                false
                            } else {
                                let c2 = ws_end(s, np);
                                if !(np <= c2 <= s.len()) {
                                    false
                                } else if c2 >= s.len() {
                                    false
                                } else if s[c2] == 125 {
                                    raw.len() == 1
                                } else if s[c2] == 44 {
                                    let c3 = ws_end(s, c2 + 1);
                                    if !(c2 < c3 <= s.len()) {
                                        false
                                    } else {
                                        json_members_denote(s, c3, raw.drop_first())
                                    }
                                } else {
                                    false
                                }
                            },
                        }
                    }
                }
            },
        }
    }
}

} // verus!
