//! Decimal text: the shared vocabulary for reading numbers out of byte
//! strings. Records arrive as text, so every numeric decision in the crate
//! (value coercion, JSON number classification, timestamp conversion) is
//! phrased over ASCII digit sequences and proved against `dec_val`, the
//! mathematical value of a digit string.

use vstd::prelude::*;

verus! {

/// Magnitude of `i128::MIN`, i.e. `2^127`.
pub const I128_MAG_LIM: u128 = 0x8000_0000_0000_0000_0000_0000_0000_0000;

/// Is `b` an ASCII decimal digit?
pub open spec fn is_digit(b: u8) -> bool {
    48 <= b <= 57
}

/// Numeric value of one ASCII digit.
pub open spec fn digit_val(b: u8) -> int {
    b as int - 48
}

/// Mathematical value of a string of ASCII digits, most significant first.
pub open spec fn dec_val(s: Seq<u8>) -> int
    decreases s.len(),
{
    if s.len() == 0 {
        0
    } else {
        dec_val(s.drop_last()) * 10 + digit_val(s.last())
    }
}

pub open spec fn all_digits(s: Seq<u8>) -> bool {
    forall|i: int| 0 <= i < s.len() ==> is_digit(#[trigger] s[i])
}

pub proof fn lemma_dec_val_nonneg(s: Seq<u8>)
    requires
        all_digits(s),
    ensures
        dec_val(s) >= 0,
    decreases s.len(),
{
    if s.len() > 0 {
        assert(all_digits(s.drop_last()));
        lemma_dec_val_nonneg(s.drop_last());
    }
}

/// Appending one digit multiplies the value by ten and adds the digit.
pub proof fn lemma_dec_val_snoc(s: Seq<u8>, lo: int, j: int)
    requires
        0 <= lo <= j < s.len(),
    ensures
        dec_val(s.subrange(lo, j + 1)) == dec_val(s.subrange(lo, j)) * 10 + digit_val(s[j]),
{
    assert(s.subrange(lo, j + 1).drop_last() =~= s.subrange(lo, j));
    assert(s.subrange(lo, j + 1).last() == s[j]);
}

/// A digit string is worth at least any of its prefixes.
pub proof fn lemma_dec_val_prefix_le(s: Seq<u8>, lo: int, j: int, hi: int)
    requires
        0 <= lo <= j <= hi <= s.len(),
        forall|m: int| lo <= m < hi ==> is_digit(#[trigger] s[m]),
    ensures
        dec_val(s.subrange(lo, j)) <= dec_val(s.subrange(lo, hi)),
    decreases hi - j,
{
    if j < hi {
        assert(all_digits(s.subrange(lo, j))) by {
            assert(forall|m: int| 0 <= m < j - lo ==> is_digit(#[trigger] s.subrange(lo, j)[m]));
        }
        lemma_dec_val_nonneg(s.subrange(lo, j));
        lemma_dec_val_snoc(s, lo, j);
        lemma_dec_val_prefix_le(s, lo, j + 1, hi);
    }
}

/// The first position at or after `i` that does not hold a digit.
pub open spec fn digits_end(s: Seq<u8>, i: int) -> int
    recommends
        0 <= i <= s.len(),
    decreases s.len() - i when 0 <= i <= s.len()
{
    if i < s.len() && is_digit(s[i]) {
        digits_end(s, i + 1)
    } else {
        i
    }
}

pub proof fn lemma_digits_end(s: Seq<u8>, i: int)
    requires
        0 <= i <= s.len(),
    ensures
        i <= digits_end(s, i) <= s.len(),
        forall|m: int| i <= m < digits_end(s, i) ==> is_digit(#[trigger] s[m]),
        digits_end(s, i) == s.len() || !is_digit(s[digits_end(s, i)]),
    decreases s.len() - i,
{
    if i < s.len() && is_digit(s[i]) {
        lemma_digits_end(s, i + 1);
    }
}

/// A run of digits ending at a non-digit (or the end) pins `digits_end`.
pub proof fn lemma_digits_end_eq(s: Seq<u8>, i: int, j: int)
    requires
        0 <= i <= j <= s.len(),
        forall|m: int| i <= m < j ==> is_digit(#[trigger] s[m]),
        j == s.len() || !is_digit(s[j as int]),
    ensures
        digits_end(s, i) == j,
    decreases j - i,
{
    if i < j {
        lemma_digits_end_eq(s, i + 1, j);
    }
}

/// Scan forward from `i` over ASCII digits.
pub fn scan_digits(s: &Vec<u8>, i: usize) -> (r: usize)
    requires
        i <= s@.len(),
    ensures
        r == digits_end(s@, i as int),
        i <= r <= s@.len(),
        forall|m: int| i <= m < r ==> is_digit(#[trigger] s@[m]),
        r == s@.len() || !is_digit(s@[r as int]),
{
    let mut j = i;
    while j < s.len() && 48 <= s[j] && s[j] <= 57
        invariant
            i <= j <= s@.len(),
            digits_end(s@, i as int) == digits_end(s@, j as int),
            forall|m: int| i <= m < j ==> is_digit(#[trigger] s@[m]),
        decreases s@.len() - j,
    {
        j = j + 1;
    }
    proof {
        lemma_digits_end(s@, j as int);
    }
    j
}

/// Does `s` hold byte `b` anywhere?
pub open spec fn contains_byte(s: Seq<u8>, b: u8) -> bool {
    exists|i: int| 0 <= i < s.len() && s[i] == b
}

pub fn contains_byte_exec(s: &Vec<u8>, b: u8) -> (r: bool)
    ensures
        r == contains_byte(s@, b),
{
    let mut j: usize = 0;
    while j < s.len()
        invariant
            j <= s@.len(),
            forall|m: int| 0 <= m < j ==> s@[m] != b,
        decreases s@.len() - j,
    {
        if s[j] == b {
            return true;
        }
        j = j + 1;
    }
    false
}

/// Where the digits of a signed number begin: past one optional sign byte.
pub open spec fn num_start(s: Seq<u8>) -> int {
    if s.len() > 0 && (s[0] == 43 || s[0] == 45) {
        1
    } else {
        0
    }
}

/// Does the whole of `s` read as an optionally signed run of digits?
pub open spec fn is_int_text(s: Seq<u8>) -> bool {
    s.len() > num_start(s) && digits_end(s, num_start(s)) == s.len()
}

/// The signed value of an integer text.
pub open spec fn int_text_val(s: Seq<u8>) -> int {
    let m = dec_val(s.subrange(num_start(s), s.len() as int));
    if s.len() > 0 && s[0] == 45 {
        -m
    } else {
        m
    }
}

/// An optional exponent marker with sign and at least one digit, running to
/// the end of `s`; or nothing at all.
pub open spec fn is_exp_tail(s: Seq<u8>, i: int) -> bool
    recommends
        0 <= i <= s.len(),
{
    if i == s.len() {
        true
    } else if s[i] == 101 || s[i] == 69 {
        let j = if i + 1 < s.len() && (s[i + 1] == 43 || s[i + 1] == 45) {
            i + 2
        } else {
            i + 1
        };
        j < s.len() && digits_end(s, j) == s.len()
    } else {
        false
    }
}

/// Does the whole of `s` read as a decimal number the way `f64` parsing
/// accepts one: optional sign, digits with at most one point (at least one
/// digit on some side of it), and an optional exponent?
pub open spec fn is_float_text(s: Seq<u8>) -> bool {
    let i = num_start(s);
    let j = digits_end(s, i);
    if j < s.len() && s[j] == 46 {
        let k = digits_end(s, j + 1);
        (j - i) + (k - j - 1) > 0 && is_exp_tail(s, k)
    } else {
        j > i && is_exp_tail(s, j)
    }
}

fn is_exp_tail_exec(s: &Vec<u8>, i: usize) -> (r: bool)
    requires
        i <= s@.len(),
    ensures
        r == is_exp_tail(s@, i as int),
{
    if i == s.len() {
        return true;
    }
    if s[i] != 101 && s[i] != 69 {
        return false;
    }
    let j: usize = if i + 1 < s.len() && (s[i + 1] == 43 || s[i + 1] == 45) {
        i + 2
    } else {
        i + 1
    };
    if j >= s.len() {
        return false;
    }
    let e = scan_digits(s, j);
    e == s.len()
}

pub fn is_float_text_exec(s: &Vec<u8>) -> (r: bool)
    ensures
        r == is_float_text(s@),
{
    let n = s.len();
    let i: usize = if n > 0 && (s[0] == 43 || s[0] == 45) {
        1
    } else {
        0
    };
    let j = scan_digits(s, i);
    if j < n && s[j] == 46 {
        let k = scan_digits(s, j + 1);
        (j - i) + (k - j - 1) > 0 && is_exp_tail_exec(s, k)
    } else {
        j > i && is_exp_tail_exec(s, j)
    }
}

/// Ten to the power `e` (one for `e <= 0`).
pub open spec fn pow10(e: int) -> int
    decreases (if e <= 0 { 0int } else { e }),
{
    if e <= 0 {
        1
    } else {
        10 * pow10(e - 1)
    }
}

pub proof fn lemma_pow10_pos(e: int)
    ensures
        pow10(e) >= 1,
    decreases (if e <= 0 { 0int } else { e }),
{
    if e > 0 {
        lemma_pow10_pos(e - 1);
    }
}

pub proof fn lemma_pow10_adds(a: int, b: int)
    requires
        a >= 0,
        b >= 0,
    ensures
        pow10(a + b) == pow10(a) * pow10(b),
    decreases a,
{
    if a > 0 {
        lemma_pow10_adds(a - 1, b);
        assert(pow10(a + b) == 10 * pow10(a - 1 + b));
        assert(10 * (pow10(a - 1) * pow10(b)) == (10 * pow10(a - 1)) * pow10(b))
            by (nonlinear_arith);
    }
}

pub proof fn lemma_pow10_increases(a: int, b: int)
    requires
        0 <= a <= b,
    ensures
        pow10(a) <= pow10(b),
    decreases b - a,
{
    if a < b {
        lemma_pow10_increases(a, b - 1);
        lemma_pow10_pos(b - 1);
    }
}

/// Splitting a digit string: the whole is the head scaled by ten to the
/// tail's length, plus the tail.
pub proof fn lemma_dec_val_split(t: Seq<u8>, j: int)
    requires
        0 <= j <= t.len(),
    ensures
        dec_val(t) == dec_val(t.take(j)) * pow10(t.len() - j) + dec_val(t.skip(j)),
    decreases t.len() - j,
{
    if j == t.len() {
        assert(t.take(j) =~= t);
        assert(t.skip(j) =~= Seq::<u8>::empty());
    } else {
        lemma_dec_val_split(t.drop_last(), j);
        assert(t.drop_last().take(j) =~= t.take(j));
        assert(t.drop_last().skip(j) =~= t.skip(j).drop_last());
        assert(t.skip(j).last() == t.last());
        let dl = dec_val(t.drop_last());
        let h = dec_val(t.take(j));
        let p = pow10(t.len() - 1 - j);
        let sl = dec_val(t.skip(j).drop_last());
        assert(dec_val(t) == dl * 10 + digit_val(t.last()));
        assert(dl == h * p + sl);
        assert(dec_val(t.skip(j)) == sl * 10 + digit_val(t.last()));
        assert((h * p + sl) * 10 == h * (p * 10) + sl * 10) by (nonlinear_arith);
        assert(pow10(t.len() - j) == 10 * pow10(t.len() - j - 1));
    }
}

/// A string of `len` digits is worth less than ten to the `len`.
pub proof fn lemma_dec_val_upper(t: Seq<u8>)
    requires
        all_digits(t),
    ensures
        dec_val(t) < pow10(t.len() as int),
    decreases t.len(),
{
    if t.len() == 0 {
    } else {
        assert(all_digits(t.drop_last()));
        lemma_dec_val_upper(t.drop_last());
        lemma_pow10_pos(t.len() - 1);
    }
}

/// A digit string with a nonzero leading digit is worth at least ten to
/// one less than its length.
pub proof fn lemma_dec_val_lower(t: Seq<u8>)
    requires
        all_digits(t),
        t.len() > 0,
        t[0] != 48,
    ensures
        dec_val(t) >= pow10(t.len() - 1),
    decreases t.len(),
{
    if t.len() == 1 {
        assert(t.drop_last() =~= Seq::<u8>::empty());
        assert(dec_val(Seq::<u8>::empty()) == 0);
        assert(t.last() == t[0]);
        assert(dec_val(t) == digit_val(t[0]));
        assert(digit_val(t[0]) >= 1);
    } else {
        assert(all_digits(t.drop_last()));
        assert(t.drop_last()[0] == t[0]);
        lemma_dec_val_lower(t.drop_last());
        lemma_pow10_pos(t.len() - 2);
    }
}

/// A string of zero digits is worth zero.
pub proof fn lemma_dec_val_zeros(t: Seq<u8>)
    requires
        forall|i: int| 0 <= i < t.len() ==> t[i] == 48,
    ensures
        dec_val(t) == 0,
    decreases t.len(),
{
    if t.len() > 0 {
        lemma_dec_val_zeros(t.drop_last());
    }
}

/// Read the whole of `s` as a signed 128-bit integer. `None` exactly when
/// `s` is not an integer text or its value does not fit.
pub fn parse_i128_text(s: &Vec<u8>) -> (r: Option<i128>)
    ensures
        match r {
            Some(v) => is_int_text(s@) && v as int == int_text_val(s@),
            None => !is_int_text(s@) || int_text_val(s@) > i128::MAX as int || int_text_val(s@)
                < i128::MIN as int,
        },
{
    let n = s.len();
    let st: usize = if n > 0 && (s[0] == 43 || s[0] == 45) {
        1
    } else {
        0
    };
    if n == st {
        return None;
    }
    let de = scan_digits(s, st);
    if de != n {
        return None;
    }
    proof {
        lemma_digits_end(s@, st as int);
    }
    let neg = s[0] == 45;
    let mut acc: u128 = 0;
    let mut j = st;
    assert(s@.subrange(st as int, st as int) =~= Seq::<u8>::empty());
    while j < n
        invariant
            st <= j <= n,
            n == s@.len(),
            st as int == num_start(s@),
            neg == (s@.len() > 0 && s@[0] == 45),
            digits_end(s@, st as int) == n,
            acc == dec_val(s@.subrange(st as int, j as int)),
            acc <= I128_MAG_LIM,
        decreases n - j,
    {
        proof {
            lemma_digits_end(s@, st as int);
        }
        let dd = (s[j] - 48) as u128;
        proof {
            lemma_dec_val_snoc(s@, st as int, j as int);
        }
        if acc > (I128_MAG_LIM - dd) / 10 {
            proof {
                vstd::arithmetic::div_mod::lemma_fundamental_div_mod((I128_MAG_LIM - dd) as int, 10);
                assert(acc * 10 + dd > I128_MAG_LIM);
                lemma_dec_val_prefix_le(s@, st as int, j + 1, n as int);
                assert(s@.subrange(st as int, n as int) =~= s@.subrange(
                    st as int,
                    s@.len() as int,
                ));
                assert(dec_val(s@.subrange(num_start(s@), s@.len() as int)) > I128_MAG_LIM);
            }
            return None;
        }
        proof {
            vstd::arithmetic::div_mod::lemma_fundamental_div_mod((I128_MAG_LIM - dd) as int, 10);
            assert(acc * 10 + dd <= I128_MAG_LIM);
        }
        acc = acc * 10 + dd;
        j = j + 1;
    }
    assert(s@.subrange(st as int, n as int) =~= s@.subrange(st as int, s@.len() as int));
    if neg {
        if acc == I128_MAG_LIM {
            Some(i128::MIN)
        } else {
            Some(0i128 - (acc as i128))
        }
    } else {
        if acc >= I128_MAG_LIM {
            None
        } else {
            Some(acc as i128)
        }
    }
}

/// Where a decimal text's integer digits end.
pub open spec fn ft_int_end(s: Seq<u8>) -> int {
    digits_end(s, num_start(s))
}

pub open spec fn ft_has_dot(s: Seq<u8>) -> bool {
    ft_int_end(s) < s.len() && s[ft_int_end(s)] == 46
}

/// Where the fractional digits end (equals `ft_int_end` without a point).
pub open spec fn ft_frac_end(s: Seq<u8>) -> int {
    if ft_has_dot(s) {
        digits_end(s, ft_int_end(s) + 1)
    } else {
        ft_int_end(s)
    }
}

/// All mantissa digits: the integer digits followed by the fractional ones.
pub open spec fn ft_digits(s: Seq<u8>) -> Seq<u8> {
    if ft_has_dot(s) {
        s.subrange(num_start(s), ft_int_end(s)) + s.subrange(ft_int_end(s) + 1, ft_frac_end(s))
    } else {
        s.subrange(num_start(s), ft_int_end(s))
    }
}

pub open spec fn ft_frac_len(s: Seq<u8>) -> int {
    if ft_has_dot(s) {
        ft_frac_end(s) - ft_int_end(s) - 1
    } else {
        0
    }
}

/// The written exponent, zero when there is none.
pub open spec fn ft_exp(s: Seq<u8>) -> int {
    let p = ft_frac_end(s);
    if p == s.len() {
        0
    } else {
        let q = if p + 1 < s.len() && (s[p + 1] == 43 || s[p + 1] == 45) {
            p + 2
        } else {
            p + 1
        };
        let m = dec_val(s.subrange(q, s.len() as int));
        if p + 1 < s.len() && s[p + 1] == 45 {
            -m
        } else {
            m
        }
    }
}

pub open spec fn ft_negative(s: Seq<u8>) -> bool {
    s.len() > 0 && s[0] == 45
}

/// The exact value of a decimal text scaled by ten to the `k` and truncated
/// toward zero: with mantissa digits worth `m`, fractional length `f` and
/// exponent `e`, that is `m * 10^(e + k - f)` with a negative power read as
/// truncating division, and the text's sign applied last.
pub open spec fn scaled_decimal_val(s: Seq<u8>, k: int) -> int {
    let m = dec_val(ft_digits(s));
    let e2 = ft_exp(s) + k - ft_frac_len(s);
    let mag = if e2 >= 0 {
        m * pow10(e2)
    } else {
        m / pow10(-e2)
    };
    if ft_negative(s) {
        -mag
    } else {
        mag
    }
}

/// `v` clamped into the signed 128-bit range.
pub open spec fn clamp_i128(v: int) -> int {
    if v > i128::MAX as int {
        i128::MAX as int
    } else if v < i128::MIN as int {
        i128::MIN as int
    } else {
        v
    }
}

/// Saturation point for written exponents; beyond it the result is pinned
/// to zero or the range edge anyway, whatever the rest of the text says.
pub const EXP_MAG_CAP: u128 = 1_000_000_000_000_000_000_000;

/// Ten to the 39 exceeds the whole signed 128-bit range.
proof fn lemma_pow10_39_large()
    ensures
        pow10(39) > 0x8000_0000_0000_0000_0000_0000_0000_0000int,
{
    reveal_with_fuel(pow10, 41);
}

/// A magnitude at least ten to the 39 sits beyond the signed 128-bit range,
/// whether the scaling multiplies or divides.
proof fn lemma_scaled_sat(m_all: int, nsig: int, e2v: int)
    requires
        nsig >= 1,
        m_all >= pow10(nsig - 1),
        nsig - 1 + e2v >= 39,
    ensures
        (if e2v >= 0 {
            m_all * pow10(e2v)
        } else {
            m_all / pow10(-e2v)
        }) > i128::MAX as int,
{
    lemma_pow10_39_large();
    if e2v >= 0 {
        lemma_pow10_pos(e2v);
        lemma_pow10_pos(nsig - 1);
        assert(m_all * pow10(e2v) >= pow10(nsig - 1) * pow10(e2v)) by (nonlinear_arith)
            requires
                m_all >= pow10(nsig - 1),
                pow10(e2v) >= 1,
                pow10(nsig - 1) >= 1,
        ;
        lemma_pow10_adds(nsig - 1, e2v);
        lemma_pow10_increases(39, nsig - 1 + e2v);
    } else {
        let w = -e2v;
        lemma_pow10_pos(w);
        lemma_pow10_adds(nsig - 1 - w, w);
        vstd::arithmetic::div_mod::lemma_div_is_ordered(pow10(nsig - 1), m_all, pow10(w));
        vstd::arithmetic::div_mod::lemma_div_multiples_vanish(pow10(nsig - 1 - w), pow10(w));
        lemma_pow10_increases(39, nsig - 1 - w);
    }
}

/// The bytes of `s` from `a` up to `b`.
pub fn copy_range(s: &Vec<u8>, a: usize, b: usize) -> (r: Vec<u8>)
    requires
        a <= b <= s.len(),
    ensures
        r@ == s@.subrange(a as int, b as int),
{
    let mut out: Vec<u8> = Vec::new();
    let mut c = a;
    while c < b
        invariant
            a <= c <= b <= s.len(),
            out@ =~= s@.subrange(a as int, c as int),
        decreases b - c,
    {
        out.push(s[c]);
        c = c + 1;
    }
    proof {
        assert(out@ =~= s@.subrange(a as int, b as int));
    }
    out
}

/// The value of the digits from `q` to the end, saturated at
/// [`EXP_MAG_CAP`].
fn exp_magnitude(s: &Vec<u8>, q: usize) -> (r: u128)
    requires
        q <= s.len(),
        forall|m: int| q <= m < s.len() ==> is_digit(#[trigger] s@[m]),
    ensures
        r <= EXP_MAG_CAP,
        dec_val(s@.subrange(q as int, s@.len() as int)) < EXP_MAG_CAP ==> r == dec_val(
            s@.subrange(q as int, s@.len() as int),
        ),
        dec_val(s@.subrange(q as int, s@.len() as int)) >= EXP_MAG_CAP ==> r == EXP_MAG_CAP,
{
    let n = s.len();
    let mut acc: u128 = 0;
    let mut c = q;
    assert(s@.subrange(q as int, q as int) =~= Seq::<u8>::empty());
    while c < n
        invariant
            q <= c <= n == s@.len(),
            forall|m: int| q <= m < n ==> is_digit(#[trigger] s@[m]),
            acc <= EXP_MAG_CAP,
            dec_val(s@.subrange(q as int, c as int)) < EXP_MAG_CAP ==> acc == dec_val(
                s@.subrange(q as int, c as int),
            ),
            dec_val(s@.subrange(q as int, c as int)) >= EXP_MAG_CAP ==> acc == EXP_MAG_CAP,
        decreases n - c,
    {
        let dd = (s[c] - 48) as u128;
        proof {
            lemma_dec_val_snoc(s@, q as int, c as int);
            assert(all_digits(s@.subrange(q as int, c as int))) by {
                assert(forall|m: int|
                    0 <= m < c - q ==> is_digit(#[trigger] s@.subrange(q as int, c as int)[m]));
            }
            lemma_dec_val_nonneg(s@.subrange(q as int, c as int));
        }
        if acc >= EXP_MAG_CAP {
            acc = EXP_MAG_CAP;
        } else {
            acc = acc * 10 + dd;
            if acc > EXP_MAG_CAP {
                acc = EXP_MAG_CAP;
            }
        }
        c = c + 1;
    }
    acc
}

/// The value of a digit string, or `None` when it exceeds the magnitude of
/// `i128::MIN`.
fn dec_mag_or_sat(v: &Vec<u8>) -> (r: Option<u128>)
    requires
        all_digits(v@),
    ensures
        match r {
            Some(a) => a == dec_val(v@) && a <= I128_MAG_LIM,
            None => dec_val(v@) > I128_MAG_LIM,
        },
{
    let n = v.len();
    let mut acc: u128 = 0;
    let mut c: usize = 0;
    assert(v@.subrange(0, 0) =~= Seq::<u8>::empty());
    while c < n
        invariant
            c <= n == v@.len(),
            all_digits(v@),
            acc == dec_val(v@.subrange(0, c as int)),
            acc <= I128_MAG_LIM,
        decreases n - c,
    {
        let dd = (v[c] - 48) as u128;
        proof {
            lemma_dec_val_snoc(v@, 0, c as int);
        }
        if acc > (I128_MAG_LIM - dd) / 10 {
            proof {
                vstd::arithmetic::div_mod::lemma_fundamental_div_mod((I128_MAG_LIM - dd) as int, 10);
                assert(acc * 10 + dd > I128_MAG_LIM);
                lemma_dec_val_prefix_le(v@, 0, c as int + 1, v@.len() as int);
                assert(v@.subrange(0, v@.len() as int) =~= v@);
            }
            return None;
        }
        proof {
            vstd::arithmetic::div_mod::lemma_fundamental_div_mod((I128_MAG_LIM - dd) as int, 10);
            assert(acc * 10 + dd <= I128_MAG_LIM);
        }
        acc = acc * 10 + dd;
        c = c + 1;
    }
    proof {
        assert(v@.subrange(0, v@.len() as int) =~= v@);
    }
    Some(acc)
}

/// Append a copy of `src` to `dst`.
pub fn append_copy(dst: &mut Vec<u8>, src: &Vec<u8>)
    ensures
        final(dst)@ == old(dst)@ + src@,
{
    let mut c: usize = 0;
    while c < src.len()
        invariant
            c <= src.len(),
            dst@ =~= old(dst)@ + src@.subrange(0, c as int),
        decreases src.len() - c,
    {
        dst.push(src[c]);
        c = c + 1;
    }
    proof {
        assert(dst@ =~= old(dst)@ + src@);
    }
}

/// Append `n` zero digits to `dst`.
fn append_zero_digits(dst: &mut Vec<u8>, n: usize)
    ensures
        final(dst)@ == old(dst)@ + Seq::new(n as nat, |m: int| 48u8),
{
    let mut c: usize = 0;
    while c < n
        invariant
            c <= n,
            dst@ =~= old(dst)@ + Seq::new(c as nat, |m: int| 48u8),
        decreases n - c,
    {
        dst.push(48);
        c = c + 1;
    }
}

/// The value of the significant digits, scaled: with zeros appended for a
/// nonnegative exponent, or the last digits dropped for a negative one.
proof fn lemma_scaled_exact(sig: Seq<u8>, e_seq: Seq<u8>, e2: int)
    requires
        all_digits(sig),
        all_digits(e_seq),
        e2 >= 0 ==> e_seq.len() == sig.len() + e2 && e_seq.take(sig.len() as int) == sig && (
        forall|m: int| sig.len() <= m < e_seq.len() ==> e_seq[m] == 48),
        e2 < 0 ==> 0 <= sig.len() + e2 && e_seq == sig.take(sig.len() + e2),
    ensures
        dec_val(e_seq) == (if e2 >= 0 {
            dec_val(sig) * pow10(e2)
        } else {
            dec_val(sig) / pow10(-e2)
        }),
{
    if e2 >= 0 {
        lemma_dec_val_split(e_seq, sig.len() as int);
        lemma_dec_val_zeros(e_seq.skip(sig.len() as int));
    } else {
        let w = -e2;
        let t = sig.len() + e2;
        lemma_dec_val_split(sig, t);
        assert(all_digits(sig.skip(t))) by {
            assert(forall|m: int| 0 <= m < w ==> is_digit(#[trigger] sig.skip(t)[m]));
        }
        lemma_dec_val_upper(sig.skip(t));
        lemma_dec_val_nonneg(sig.skip(t));
        lemma_dec_val_nonneg(e_seq);
        vstd::arithmetic::div_mod::lemma_fundamental_div_mod_converse(
            dec_val(sig),
            pow10(w),
            dec_val(e_seq),
            dec_val(sig.skip(t)),
        );
    }
}

/// Scale already-separated decimal parts: digits, fractional length, and
/// saturated exponent. `sv` is the text they were read from.
#[verifier::rlimit(100)]
#[verifier::spinoff_prover]
fn scale_from_parts(
    digits: &Vec<u8>,
    frac_len: usize,
    exp_mag: u128,
    exp_neg: bool,
    neg: bool,
    k: u32,
    Ghost(sv): Ghost<Seq<u8>>,
) -> (r: i128)
    requires
        k <= 9,
        is_float_text(sv),
        all_digits(digits@),
        digits@ == ft_digits(sv),
        frac_len as int == ft_frac_len(sv),
        neg == ft_negative(sv),
        exp_mag <= EXP_MAG_CAP,
        exp_mag < EXP_MAG_CAP ==> ft_exp(sv) == (if exp_neg {
            -(exp_mag as int)
        } else {
            exp_mag as int
        }),
        exp_mag == EXP_MAG_CAP ==> (if exp_neg {
            ft_exp(sv) <= -(EXP_MAG_CAP as int)
        } else {
            ft_exp(sv) >= EXP_MAG_CAP as int
        }),
    ensures
        r as int == clamp_i128(scaled_decimal_val(sv, k as int)),
{
    // leading zeros contribute nothing
    let dlen = digits.len();
    let mut z: usize = 0;
    while z < dlen && digits[z] == 48
        invariant
            z <= dlen == digits@.len(),
            forall|m: int| 0 <= m < z ==> digits@[m] == 48,
        decreases dlen - z,
    {
        z = z + 1;
    }
    let ghost true_exp = ft_exp(sv);
    let ghost m_all = dec_val(digits@);
    let ghost sig = digits@.skip(z as int);
    proof {
        lemma_dec_val_split(digits@, z as int);
        lemma_dec_val_zeros(digits@.take(z as int));
        assert(m_all == dec_val(sig));
        assert(all_digits(sig));
        lemma_dec_val_nonneg(sig);
    }
    let nsig = dlen - z;
    if nsig == 0 {
        proof {
            assert(sig =~= Seq::<u8>::empty());
            assert(m_all == 0);
            let e2 = true_exp + k - frac_len;
            if e2 < 0 {
                lemma_pow10_pos(-e2);
                vstd::arithmetic::div_mod::lemma_div_of0(pow10(-e2));
            }
            assert(scaled_decimal_val(sv, k as int) == 0);
        }
        return 0i128;
    }

    let exp_signed: i128 = if exp_neg {
        0i128 - (exp_mag as i128)
    } else {
        exp_mag as i128
    };
    let e2: i128 = exp_signed + (k as i128) - (frac_len as i128);
    let t: i128 = (nsig as i128) + e2;
    let ghost true_e2 = true_exp + k - frac_len;
    let ghost true_mag = if true_e2 >= 0 {
        m_all * pow10(true_e2)
    } else {
        m_all / pow10(-true_e2)
    };
    proof {
        lemma_dec_val_upper(sig);
        lemma_dec_val_lower(sig);
    }

    if t <= 0 {
        // the value is smaller than one: it truncates to zero
        proof {
            assert(exp_mag < EXP_MAG_CAP || exp_neg);
            assert(true_e2 <= e2);
            assert(true_e2 < 0);
            lemma_pow10_pos(-true_e2);
            lemma_pow10_increases(nsig as int, -true_e2);
            vstd::arithmetic::div_mod::lemma_basic_div(m_all, pow10(-true_e2));
            assert(true_mag == 0);
            assert(scaled_decimal_val(sv, k as int) == 0);
        }
        return 0i128;
    }
    if t > 39 {
        // the magnitude exceeds the whole representable range
        proof {
            assert(exp_mag < EXP_MAG_CAP || !exp_neg);
            assert(true_e2 >= t - nsig);
            lemma_scaled_sat(m_all, nsig as int, true_e2);
            assert(clamp_i128(scaled_decimal_val(sv, k as int)) == if ft_negative(sv) {
                i128::MIN as int
            } else {
                i128::MAX as int
            });
        }
        return if neg {
            i128::MIN
        } else {
            i128::MAX
        };
    }

    // 0 < t <= 39: the scaled value has exactly t digits before the point
    proof {
        assert(exp_mag < EXP_MAG_CAP);
        assert(true_e2 == e2);
    }
    let vd: usize = if e2 >= 0 {
        nsig
    } else {
        t as usize
    };
    let mut scaled = copy_range(digits, z, z + vd);
    if e2 > 0 {
        append_zero_digits(&mut scaled, e2 as usize);
    }
    let ghost e_seq = scaled@;
    proof {
        assert(all_digits(e_seq));
        if e2 >= 0 {
            assert(e_seq.take(nsig as int) =~= sig);
        } else {
            assert(e_seq =~= sig.take(nsig + e2));
        }
        lemma_scaled_exact(sig, e_seq, e2 as int);
        assert(true_mag == dec_val(e_seq));
        lemma_dec_val_nonneg(e_seq);
    }

    match dec_mag_or_sat(&scaled) {
        None => if neg {
            i128::MIN
        } else {
            i128::MAX
        },
        Some(acc) => {
            if neg {
                if acc == I128_MAG_LIM {
                    i128::MIN
                } else {
                    0i128 - (acc as i128)
                }
            } else {
                if acc >= I128_MAG_LIM {
                    i128::MAX
                } else {
                    acc as i128
                }
            }
        },
    }
}

/// Read `s` as a decimal number, scale it by ten to the `k`, truncate
/// toward zero, and clamp into the signed 128-bit range. `None` exactly
/// when `s` is not a decimal text.
#[verifier::rlimit(100)]
#[verifier::spinoff_prover]
pub fn scale_decimal_text(s: &Vec<u8>, k: u32) -> (r: Option<i128>)
    requires
        k <= 9,
    ensures
        r is Some <==> is_float_text(s@),
        r matches Some(v) ==> v as int == clamp_i128(scaled_decimal_val(s@, k as int)),
{
    if !is_float_text_exec(s) {
        return None;
    }
    let n = s.len();
    let i0: usize = if n > 0 && (s[0] == 43 || s[0] == 45) {
        1
    } else {
        0
    };
    let neg = n > 0 && s[0] == 45;
    let j = scan_digits(s, i0);
    let has_dot = j < n && s[j] == 46;
    let fe = if has_dot {
        scan_digits(s, j + 1)
    } else {
        j
    };
    assert(j == ft_int_end(s@) && has_dot == ft_has_dot(s@) && fe == ft_frac_end(s@));

    // materialize the mantissa digits
    let mut digits = copy_range(s, i0, j);
    if has_dot {
        let frac = copy_range(s, j + 1, fe);
        append_copy(&mut digits, &frac);
    }
    assert(digits@ =~= ft_digits(s@));
    proof {
        lemma_digits_end(s@, i0 as int);
        if has_dot {
            lemma_digits_end(s@, j as int + 1);
        }
        assert(all_digits(digits@));
    }
    let frac_len: usize = if has_dot {
        fe - (j + 1)
    } else {
        0
    };
    assert(frac_len == ft_frac_len(s@));

    // the written exponent, saturated far beyond any value that matters
    let mut exp_mag: u128 = 0;
    let mut exp_neg = false;
    if fe < n {
        let q: usize = if fe + 1 < n && (s[fe + 1] == 43 || s[fe + 1] == 45) {
            fe + 2
        } else {
            fe + 1
        };
        exp_neg = fe + 1 < n && s[fe + 1] == 45;
        proof {
            lemma_digits_end(s@, q as int);
        }
        exp_mag = exp_magnitude(s, q);
        assert(s@.subrange(q as int, n as int) =~= s@.subrange(q as int, s@.len() as int));
    }
    proof {
        if fe == n {
            assert(ft_exp(s@) == 0);
        }
    }
    Some(scale_from_parts(&digits, frac_len, exp_mag, exp_neg, neg, k, Ghost(s@)))
}

/// Ten to the `k` as a machine word, for `k` up to nine.
pub fn pow10_u64(k: u32) -> (r: u64)
    requires
        k <= 9,
    ensures
        r as int == pow10(k as int),
        1 <= r <= 1_000_000_000,
{
    let mut f: u64 = 1;
    let mut c: u32 = 0;
    while c < k
        invariant
            c <= k <= 9,
            f as int == pow10(c as int),
            1 <= f,
            f <= 1_000_000_000,
        decreases k - c,
    {
        proof {
            lemma_pow10_increases(c as int + 1, 9);
            assert(pow10(9) == 1_000_000_000) by {
                reveal_with_fuel(pow10, 11);
            }
        }
        f = f * 10;
        c = c + 1;
    }
    f
}

/// `i` times ten to the `k`, clamped into the signed 128-bit range.
#[verifier::rlimit(60)]
pub fn mul_pow10_sat(i: i128, k: u32) -> (r: i128)
    requires
        k <= 9,
    ensures
        r as int == clamp_i128(i * pow10(k as int)),
{
    let f = pow10_u64(k);
    let fw: u128 = f as u128;
    if i >= 0 {
        let mag = i as u128;
        let q = 0x7FFF_FFFF_FFFF_FFFF_FFFF_FFFF_FFFF_FFFFu128 / fw;
        proof {
            vstd::arithmetic::div_mod::lemma_fundamental_div_mod(
                0x7FFF_FFFF_FFFF_FFFF_FFFF_FFFF_FFFF_FFFFu128 as int,
                fw as int,
            );
            vstd::arithmetic::div_mod::lemma_mod_pos_bound(
                0x7FFF_FFFF_FFFF_FFFF_FFFF_FFFF_FFFF_FFFFu128 as int,
                fw as int,
            );
        }
        if mag > q {
            proof {
                assert(mag * fw > 0x7FFF_FFFF_FFFF_FFFF_FFFF_FFFF_FFFF_FFFFu128)
                    by (nonlinear_arith)
                    requires
                        mag >= q + 1,
                        fw >= 1,
                        q * fw + (0x7FFF_FFFF_FFFF_FFFF_FFFF_FFFF_FFFF_FFFFu128 as int - q
                            * fw) == 0x7FFF_FFFF_FFFF_FFFF_FFFF_FFFF_FFFF_FFFFu128 as int,
                        0x7FFF_FFFF_FFFF_FFFF_FFFF_FFFF_FFFF_FFFFu128 as int - q * fw < fw,
                ;
            }
            i128::MAX
        } else {
            proof {
                assert(mag * fw <= 0x7FFF_FFFF_FFFF_FFFF_FFFF_FFFF_FFFF_FFFFu128)
                    by (nonlinear_arith)
                    requires
                        mag <= q,
                        fw >= 1,
                        q * fw <= 0x7FFF_FFFF_FFFF_FFFF_FFFF_FFFF_FFFF_FFFFu128 as int,
                ;
            }
            (mag * fw) as i128
        }
    } else {
        let mag = ((0i128 - (i + 1)) as u128) + 1;
        let q = I128_MAG_LIM / fw;
        proof {
            vstd::arithmetic::div_mod::lemma_fundamental_div_mod(
                I128_MAG_LIM as int,
                fw as int,
            );
            vstd::arithmetic::div_mod::lemma_mod_pos_bound(I128_MAG_LIM as int, fw as int);
            assert(q as int == I128_MAG_LIM as int / (fw as int));
            assert((fw as int) * (q as int) + (I128_MAG_LIM as int) % (fw as int)
                == I128_MAG_LIM as int);
            assert(q * fw <= I128_MAG_LIM as int);
            assert(I128_MAG_LIM as int - q * fw < fw);
        }
        if mag > q {
            proof {
                assert(mag * fw > I128_MAG_LIM) by (nonlinear_arith)
                    requires
                        mag >= q + 1,
                        fw >= 1,
                        q * fw + (I128_MAG_LIM as int - q * fw) == I128_MAG_LIM as int,
                        I128_MAG_LIM as int - q * fw < fw,
                ;
                assert(i * pow10(k as int) == -(mag * fw)) by (nonlinear_arith)
                    requires
                        mag == -(i as int),
                        fw == pow10(k as int),
                ;
            }
            i128::MIN
        } else {
            proof {
                assert(mag * fw <= I128_MAG_LIM) by (nonlinear_arith)
                    requires
                        mag <= q,
                        fw >= 1,
                        q * fw <= I128_MAG_LIM as int,
                ;
                assert(i * pow10(k as int) == -(mag * fw)) by (nonlinear_arith)
                    requires
                        mag == -(i as int),
                        fw == pow10(k as int),
                ;
            }
            let p = mag * fw;
            if p == I128_MAG_LIM {
                i128::MIN
            } else {
                0i128 - (p as i128)
            }
        }
    }
}

} // verus!
