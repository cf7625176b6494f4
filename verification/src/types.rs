//! Small shared types: the interrupt flag polled between records, and the
//! retry pacing duration used by transport configuration.

use vstd::prelude::*;

use core::sync::atomic::AtomicBool;
use core::sync::atomic::Ordering;
use std::sync::Arc;

verus! {

/// A shareable interrupt flag: set once from a signal handler, observed
/// between records. What a load returns depends on other threads, so
/// nothing is promised about it.
#[derive(Clone)]
pub struct Interruptor(Arc<AtomicBool>);

impl Interruptor {
    /// A fresh, unset flag.
    pub fn new() -> Interruptor {
        Interruptor(Arc::new(AtomicBool::new(false)))
    }

    /// Raise the flag.
    pub fn set(&self) {
        self.0.store(true, Ordering::SeqCst);
    }

    /// Has the flag been raised?
    pub fn is_set(&self) -> bool {
        self.0.load(Ordering::SeqCst)
    }
}

impl Default for Interruptor {
    fn default() -> Interruptor {
        Interruptor::new()
    }
}

/// A retry pacing duration in microseconds.
#[derive(Copy, Clone, PartialEq, Eq, Hash, Debug, Structural)]
pub struct RetryDurationUs(pub u64);

impl Default for RetryDurationUs {
    /// One hundred milliseconds.
    fn default() -> (r: RetryDurationUs)
        ensures
            r.0 == 100000,
    {
        RetryDurationUs(100000)
    }
}

impl RetryDurationUs {
    /// Read a duration from decimal text: after surrounding whitespace is
    /// trimmed, the whole of what remains must be an unsigned number in
    /// range.
    pub fn from_text(s: &Vec<u8>) -> (r: Option<RetryDurationUs>)
        ensures
            ({
                let t = spec_trimmed(s@);
                match r {
                    Some(d) => crate::numtext::is_int_text(t) && d.0 as int
                        == crate::numtext::int_text_val(t),
                    None => !crate::numtext::is_int_text(t) || crate::numtext::int_text_val(t)
                        > u64::MAX as int || crate::numtext::int_text_val(t) < 0 || (t.len() > 0
                        && t[0] == 45),
                }
            }),
    {
        let n = s.len();
        let mut a: usize = 0;
        while a < n && (s[a] == 32 || (9 <= s[a] && s[a] <= 13))
            invariant
                a <= n == s.len(),
                trim_start_pos(s@, 0) == trim_start_pos(s@, a as int),
            decreases n - a,
        {
            a = a + 1;
        }
        let mut b2: usize = n;
        while b2 > 0 && (s[b2 - 1] == 32 || (9 <= s[b2 - 1] && s[b2 - 1] <= 13))
            invariant
                b2 <= n == s.len(),
                trim_end_pos(s@, n as int) == trim_end_pos(s@, b2 as int),
            decreases b2,
        {
            b2 = b2 - 1;
        }
        let t: Vec<u8> = if a < b2 {
            crate::numtext::copy_range(s, a, b2)
        } else {
            Vec::new()
        };
        proof {
            assert(t@ =~= spec_trimmed(s@));
        }
        if t.len() > 0 && t[0] == 45 {
            return None;
        }
        match crate::numtext::parse_i128_text(&t) {
            Some(v) => if v >= 0 && v <= 0xFFFF_FFFF_FFFF_FFFFi128 {
                Some(RetryDurationUs(v as u64))
            } else {
                None
            },
            None => {
                proof {
                    if crate::numtext::is_int_text(t@) {
                        crate::numtext::lemma_digits_end(t@, crate::numtext::num_start(t@));
                        crate::numtext::lemma_dec_val_nonneg(
                            t@.subrange(crate::numtext::num_start(t@), t@.len() as int),
                        );
                    }
                }
                None
            },
        }
    }
}

/// An ASCII whitespace byte: what trimming removes.
pub open spec fn is_ascii_space(b: u8) -> bool {
    b == 32 || (9 <= b <= 13)
}

/// The first position at or after `i` holding more than whitespace.
pub open spec fn trim_start_pos(s: Seq<u8>, i: int) -> int
    recommends
        0 <= i <= s.len(),
    decreases s.len() - i when 0 <= i <= s.len()
{
    if i < s.len() && is_ascii_space(s[i]) {
        trim_start_pos(s, i + 1)
    } else {
        i
    }
}

/// The position just past the last non-whitespace byte before `j`.
pub open spec fn trim_end_pos(s: Seq<u8>, j: int) -> int
    recommends
        0 <= j <= s.len(),
    decreases j when 0 <= j <= s.len()
{
    if j > 0 && is_ascii_space(s[j - 1]) {
        trim_end_pos(s, j - 1)
    } else {
        j
    }
}

/// `s` without its leading and trailing ASCII whitespace.
pub open spec fn spec_trimmed(s: Seq<u8>) -> Seq<u8> {
    let a = trim_start_pos(s, 0);
    let b = trim_end_pos(s, s.len() as int);
    if a < b {
        s.subrange(a, b)
    } else {
        Seq::empty()
    }
}

} // verus!
