//! The import configuration that the transformation engine consumes: which
//! keys name timelines and events, key renames, the optional timestamp
//! attribute with its unit, and the non-JSON line handling. An outside
//! collaborator populates it; this crate only reads it.

use vstd::prelude::*;

use crate::attr::AttrVal;
use crate::error::Error;
use crate::numtext::{clamp_i128, is_float_text, mul_pow10_sat, pow10, pow10_u64, scale_decimal_text, scaled_decimal_val};

verus! {

/// Rename one attribute key as it is imported.
#[derive(Debug, PartialEq, Eq)]
pub struct AttrKeyRename {
    /// The attribute key to rename.
    pub original: Vec<u8>,
    /// The new attribute key name to use.
    pub new: Vec<u8>,
}

/// Which inputs an import run reads.
#[derive(Debug, PartialEq, Eq)]
pub struct ImportConfig {
    /// Paths of the input files, as byte strings.
    pub inputs: Vec<Vec<u8>>,
}

/// Everything the record assembler needs to know.
#[derive(Debug, PartialEq, Eq)]
pub struct PluginConfig {
    /// An externally chosen identifier for this run, if any.
    pub run_id: Option<Vec<u8>>,
    /// Connection timeout, if any; consumed by the transport.
    pub timeout_seconds: Option<u64>,
    /// Candidate keys that name an event, checked in order.
    pub event_names: Vec<Vec<u8>>,
    /// Prefix for every generated event name.
    pub event_name_prefix: Option<Vec<u8>>,
    /// Candidate keys that name (and identify) a timeline, in order.
    pub timeline_names: Vec<Vec<u8>>,
    /// Prefix for every generated timeline name.
    pub timeline_name_prefix: Option<Vec<u8>>,
    /// Keys routed to the timeline rather than the event.
    pub timeline_attrs: Vec<Vec<u8>>,
    /// Timeline attribute keys to rename on the way in.
    pub rename_timeline_attrs: Vec<AttrKeyRename>,
    /// Event attribute keys to rename on the way in.
    pub rename_event_attrs: Vec<AttrKeyRename>,
    /// Where the event's timestamp can be found.
    pub timestamp_attr: Option<Vec<u8>>,
    /// The unit of the timestamp attribute in the source data.
    pub timestamp_attr_units: Option<TimestampUnit>,
    /// How to read a line that is not JSON.
    pub non_json_regex: Option<Vec<u8>>,
    /// Names for the regex's capture groups, positionally.
    pub non_json_attrs: Vec<Vec<u8>>,
    /// The inputs to read.
    pub import: ImportConfig,
}

impl PluginConfig {
    /// A configuration with nothing set.
    pub fn new() -> (r: PluginConfig)
        ensures
            r.run_id is None,
            r.timeout_seconds is None,
            r.event_names@.len() == 0,
            r.event_name_prefix is None,
            r.timeline_names@.len() == 0,
            r.timeline_name_prefix is None,
            r.timeline_attrs@.len() == 0,
            r.rename_timeline_attrs@.len() == 0,
            r.rename_event_attrs@.len() == 0,
            r.timestamp_attr is None,
            r.timestamp_attr_units is None,
            r.non_json_regex is None,
            r.non_json_attrs@.len() == 0,
            r.import.inputs@.len() == 0,
    {
        PluginConfig {
            run_id: None,
            timeout_seconds: None,
            event_names: Vec::new(),
            event_name_prefix: None,
            timeline_names: Vec::new(),
            timeline_name_prefix: None,
            timeline_attrs: Vec::new(),
            rename_timeline_attrs: Vec::new(),
            rename_event_attrs: Vec::new(),
            timestamp_attr: None,
            timestamp_attr_units: None,
            non_json_regex: None,
            non_json_attrs: Vec::new(),
            import: ImportConfig { inputs: Vec::new() },
        }
    }
}

/// Split `original,new` at the first comma into a rename entry; `None`
/// when no comma is present.
pub fn parse_attr_key_rename(s: &Vec<u8>) -> (r: Option<AttrKeyRename>)
    ensures
        match r {
            Some(a) => exists|p: int|
                0 <= p < s@.len() && s@[p] == 44 && (forall|m: int| 0 <= m < p ==> s@[m] != 44)
                    && a.original@ == s@.subrange(0, p) && a.new@ == s@.subrange(p + 1, s@.len() as int),
            None => forall|m: int| 0 <= m < s@.len() ==> s@[m] != 44,
        },
{
    let n = s.len();
    let mut p: usize = 0;
    while p < n
        invariant
            p <= n == s@.len(),
            forall|m: int| 0 <= m < p ==> s@[m] != 44,
        decreases n - p,
    {
        if s[p] == 44 {
            let original = crate::numtext::copy_range(s, 0, p);
            let new = crate::numtext::copy_range(s, p + 1, n);
            return Some(AttrKeyRename { original, new });
        }
        p = p + 1;
    }
    None
}

/// The unit a source timestamp is written in.
#[derive(Debug, Copy, Clone, PartialEq, Eq, Structural)]
pub enum TimestampUnit {
    Seconds,
    Milliseconds,
    Microseconds,
    Nanoseconds,
}

impl Default for TimestampUnit {
    /// Timestamps are taken as nanoseconds unless configured otherwise.
    fn default() -> (r: TimestampUnit)
        ensures
            r == TimestampUnit::Nanoseconds,
    {
        TimestampUnit::Nanoseconds
    }
}

impl TimestampUnit {
    /// The power of ten that takes this unit to nanoseconds.
    pub open spec fn ns_exponent(self) -> int {
        match self {
            TimestampUnit::Seconds => 9,
            TimestampUnit::Milliseconds => 6,
            TimestampUnit::Microseconds => 3,
            TimestampUnit::Nanoseconds => 0,
        }
    }

    /// The multiplicative factor from this unit to nanoseconds.
    pub fn to_ns_factor(&self) -> (r: u64)
        ensures
            r as int == pow10(self.ns_exponent()),
    {
        let k: u32 = match self {
            TimestampUnit::Seconds => 9,
            TimestampUnit::Milliseconds => 6,
            TimestampUnit::Microseconds => 3,
            TimestampUnit::Nanoseconds => 0,
        };
        pow10_u64(k)
    }

    /// What a timestamp value converts to: nanoseconds as an exact integer,
    /// truncated toward zero and clamped into the signed 128-bit range, or
    /// nothing when the value is not numeric.
    pub open spec fn spec_to_ns(self, v: crate::attr::AttrValV) -> Option<int> {
        match v {
            crate::attr::AttrValV::Integer(i) => Some(clamp_i128(i * pow10(self.ns_exponent()))),
            crate::attr::AttrValV::BigInt(i) => Some(clamp_i128(i * pow10(self.ns_exponent()))),
            crate::attr::AttrValV::Float(t) => if is_float_text(t) {
                Some(clamp_i128(scaled_decimal_val(t, self.ns_exponent())))
            } else {
                None
            },
            _ => None,
        }
    }

    /// Convert a timestamp attribute value to nanoseconds, in this unit.
    pub fn attr_val_to_ns(&self, v: &AttrVal) -> (r: Result<AttrVal, Error>)
        ensures
            match r {
                Ok(out) => self.spec_to_ns(v@) matches Some(ns) && out@ == crate::attr::AttrValV::BigInt(ns),
                Err(e) => self.spec_to_ns(v@) is None && e == Error::NonNumericTimestamp,
            },
    {
        let k: u32 = match self {
            TimestampUnit::Seconds => 9,
            TimestampUnit::Milliseconds => 6,
            TimestampUnit::Microseconds => 3,
            TimestampUnit::Nanoseconds => 0,
        };
        match v {
            AttrVal::Integer(i) => Ok(AttrVal::BigInt(mul_pow10_sat(*i as i128, k))),
            AttrVal::BigInt(i) => Ok(AttrVal::BigInt(mul_pow10_sat(*i, k))),
            AttrVal::Float(t) => match scale_decimal_text(t, k) {
                Some(ns) => Ok(AttrVal::BigInt(ns)),
                None => Err(Error::NonNumericTimestamp),
            },
            _ => Err(Error::NonNumericTimestamp),
        }
    }

    /// Read a unit name: `s`, `ms`, `us`, `ns` and their longer spellings,
    /// in any letter case.
    pub fn from_str(s: &Vec<u8>) -> (r: Option<TimestampUnit>)
        ensures
            r == spec_unit_of_text(s@),
    {
        let mut low: Vec<u8> = Vec::new();
        let mut i: usize = 0;
        while i < s.len()
            invariant
                i <= s.len(),
                low@.len() == i,
                forall|m: int| 0 <= m < i ==> low@[m] == ascii_lower(s@)[m],
            decreases s.len() - i,
        {
            let b = s[i];
            if 65 <= b && b <= 90 {
                low.push(b + 32);
            } else {
                low.push(b);
            }
            i = i + 1;
        }
        proof {
            assert(low@ =~= ascii_lower(s@));
        }
        let l_s: Vec<u8> = vec![115u8];
        let l_secs: Vec<u8> = vec![115u8, 101u8, 99u8, 115u8];
        let l_seconds: Vec<u8> = vec![115u8, 101u8, 99u8, 111u8, 110u8, 100u8, 115u8];
        let l_ms: Vec<u8> = vec![109u8, 115u8];
        let l_millis: Vec<u8> = vec![109u8, 105u8, 108u8, 108u8, 105u8, 115u8];
        let l_milliseconds: Vec<u8> = vec![
            109u8,
            105u8,
            108u8,
            108u8,
            105u8,
            115u8,
            101u8,
            99u8,
            111u8,
            110u8,
            100u8,
            115u8,
        ];
        let l_us: Vec<u8> = vec![117u8, 115u8];
        let l_micros: Vec<u8> = vec![109u8, 105u8, 99u8, 114u8, 111u8, 115u8];
        let l_microseconds: Vec<u8> = vec![
            109u8,
            105u8,
            99u8,
            114u8,
            111u8,
            115u8,
            101u8,
            99u8,
            111u8,
            110u8,
            100u8,
            115u8,
        ];
        let l_ns: Vec<u8> = vec![110u8, 115u8];
        let l_nanos: Vec<u8> = vec![110u8, 97u8, 110u8, 111u8, 115u8];
        let l_nanoseconds: Vec<u8> = vec![
            110u8,
            97u8,
            110u8,
            111u8,
            115u8,
            101u8,
            99u8,
            111u8,
            110u8,
            100u8,
            115u8,
        ];
        proof {
            assert(l_s@ =~= seq![115u8]);
            assert(l_secs@ =~= seq![115u8, 101u8, 99u8, 115u8]);
            assert(l_seconds@ =~= seq![115u8, 101u8, 99u8, 111u8, 110u8, 100u8, 115u8]);
            assert(l_ms@ =~= seq![109u8, 115u8]);
            assert(l_millis@ =~= seq![109u8, 105u8, 108u8, 108u8, 105u8, 115u8]);
            assert(l_milliseconds@ =~= seq![
                109u8,
                105u8,
                108u8,
                108u8,
                105u8,
                115u8,
                101u8,
                99u8,
                111u8,
                110u8,
                100u8,
                115u8,
            ]);
            assert(l_us@ =~= seq![117u8, 115u8]);
            assert(l_micros@ =~= seq![109u8, 105u8, 99u8, 114u8, 111u8, 115u8]);
            assert(l_microseconds@ =~= seq![
                109u8,
                105u8,
                99u8,
                114u8,
                111u8,
                115u8,
                101u8,
                99u8,
                111u8,
                110u8,
                100u8,
                115u8,
            ]);
            assert(l_ns@ =~= seq![110u8, 115u8]);
            assert(l_nanos@ =~= seq![110u8, 97u8, 110u8, 111u8, 115u8]);
            assert(l_nanoseconds@ =~= seq![
                110u8,
                97u8,
                110u8,
                111u8,
                115u8,
                101u8,
                99u8,
                111u8,
                110u8,
                100u8,
                115u8,
            ]);
        }
        if bytes_is(&low, &l_s) || bytes_is(&low, &l_secs) || bytes_is(&low, &l_seconds) {
            Some(TimestampUnit::Seconds)
        } else if bytes_is(&low, &l_ms) || bytes_is(&low, &l_millis) || bytes_is(
            &low,
            &l_milliseconds,
        ) {
            Some(TimestampUnit::Milliseconds)
        } else if bytes_is(&low, &l_us) || bytes_is(&low, &l_micros) || bytes_is(
            &low,
            &l_microseconds,
        ) {
            Some(TimestampUnit::Microseconds)
        } else if bytes_is(&low, &l_ns) || bytes_is(&low, &l_nanos) || bytes_is(
            &low,
            &l_nanoseconds,
        ) {
            Some(TimestampUnit::Nanoseconds)
        } else {
            None
        }
    }
}

/// `s` with its ASCII upper-case letters lowered.
pub open spec fn ascii_lower(s: Seq<u8>) -> Seq<u8> {
    s.map_values(
        |b: u8|
            if 65 <= b <= 90 {
                (b + 32) as u8
            } else {
                b
            },
    )
}

/// The unit a name denotes, letter case aside: `s`, `secs`, `seconds`;
/// `ms`, `millis`, `milliseconds`; `us`, `micros`, `microseconds`; `ns`,
/// `nanos`, `nanoseconds`.
pub open spec fn spec_unit_of_text(s: Seq<u8>) -> Option<TimestampUnit> {
    let t = ascii_lower(s);
    if t == seq![115u8] || t == seq![115u8, 101u8, 99u8, 115u8] || t == seq![
        115u8,
        101u8,
        99u8,
        111u8,
        110u8,
        100u8,
        115u8,
    ] {
        Some(TimestampUnit::Seconds)
    } else if t == seq![109u8, 115u8] || t == seq![109u8, 105u8, 108u8, 108u8, 105u8, 115u8] || t
        == seq![109u8, 105u8, 108u8, 108u8, 105u8, 115u8, 101u8, 99u8, 111u8, 110u8, 100u8, 115u8] {
        Some(TimestampUnit::Milliseconds)
    } else if t == seq![117u8, 115u8] || t == seq![109u8, 105u8, 99u8, 114u8, 111u8, 115u8] || t
        == seq![109u8, 105u8, 99u8, 114u8, 111u8, 115u8, 101u8, 99u8, 111u8, 110u8, 100u8, 115u8] {
        Some(TimestampUnit::Microseconds)
    } else if t == seq![110u8, 115u8] || t == seq![110u8, 97u8, 110u8, 111u8, 115u8] || t == seq![
        110u8,
        97u8,
        110u8,
        111u8,
        115u8,
        101u8,
        99u8,
        111u8,
        110u8,
        100u8,
        115u8,
    ] {
        Some(TimestampUnit::Nanoseconds)
    } else {
        None
    }
}

/// Do two byte strings hold the same bytes?
fn bytes_is(a: &Vec<u8>, b: &Vec<u8>) -> (r: bool)
    ensures
        r == (a@ == b@),
{
    crate::attr::bytes_eq(a, b)
}

} // verus!
