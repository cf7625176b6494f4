//! The record assembler: flatten one JSON object, classify its attributes
//! into the timeline and event buckets, resolve the timeline's signature
//! and the event's name, convert the timestamp, and hand back everything
//! the sink half needs for one event.

use vstd::prelude::*;

use crate::attr::{display_of, AttrVal, AttrValV};
use crate::config::{PluginConfig, TimestampUnit};
use crate::error::Error;
use crate::flatten::{flat_top, kvs_view, walk_obj};
use crate::json::JsonValue;
use crate::registry::TimelineRegistry;

verus! {

/// A fully prepared event, ready for the sink half.
pub struct ReadyToSendEvent {
    /// The identifier resolved from the record's timeline signature.
    pub timeline_id: u64,
    /// Timeline-scoped attributes, `name` included when one was produced.
    pub timeline_kvs: Vec<(Vec<u8>, AttrVal)>,
    /// Event-scoped attributes, with `name` and possibly `timestamp`.
    pub event_kvs: Vec<(Vec<u8>, AttrVal)>,
}

/// The mathematical reading of a list of key strings.
pub open spec fn names_view(v: Seq<Vec<u8>>) -> Seq<Seq<u8>> {
    v.map_values(|x: Vec<u8>| x@)
}

/// Does the list hold this key?
pub open spec fn seq_contains(names: Seq<Seq<u8>>, k: Seq<u8>) -> bool {
    exists|i: int| 0 <= i < names.len() && names[i] == k
}

/// A key belongs to the timeline bucket when any timeline-name or
/// timeline-attribute key matches it; first match wins, so a key never
/// lands in both buckets.
pub open spec fn is_timeline_key(tl_names: Seq<Seq<u8>>, tl_attrs: Seq<Seq<u8>>, k: Seq<u8>) -> bool {
    seq_contains(tl_names, k) || seq_contains(tl_attrs, k)
}

/// The timeline bucket: the pairs whose key is timeline-scoped, in order.
pub open spec fn tl_bucket(
    tl_names: Seq<Seq<u8>>,
    tl_attrs: Seq<Seq<u8>>,
    kvs: Seq<(Seq<u8>, AttrValV)>,
) -> Seq<(Seq<u8>, AttrValV)>
    decreases kvs.len(),
{
    if kvs.len() == 0 {
        Seq::empty()
    } else {
        tl_bucket(tl_names, tl_attrs, kvs.drop_last()) + (if is_timeline_key(
            tl_names,
            tl_attrs,
            kvs.last().0,
        ) {
            seq![kvs.last()]
        } else {
            Seq::empty()
        })
    }
}

/// The event bucket: everything the timeline bucket did not take.
pub open spec fn ev_bucket(
    tl_names: Seq<Seq<u8>>,
    tl_attrs: Seq<Seq<u8>>,
    kvs: Seq<(Seq<u8>, AttrValV)>,
) -> Seq<(Seq<u8>, AttrValV)>
    decreases kvs.len(),
{
    if kvs.len() == 0 {
        Seq::empty()
    } else {
        ev_bucket(tl_names, tl_attrs, kvs.drop_last()) + (if is_timeline_key(
            tl_names,
            tl_attrs,
            kvs.last().0,
        ) {
            Seq::empty()
        } else {
            seq![kvs.last()]
        })
    }
}

/// The first pair carrying key `k`.
pub open spec fn find_key(kvs: Seq<(Seq<u8>, AttrValV)>, k: Seq<u8>) -> Option<(Seq<u8>, AttrValV)>
    decreases kvs.len(),
{
    if kvs.len() == 0 {
        None
    } else if kvs.first().0 == k {
        Some(kvs.first())
    } else {
        find_key(kvs.drop_first(), k)
    }
}

/// The first candidate key, in configured order, that is present in the
/// bucket, with the pair it matched.
pub open spec fn resolve_name(
    names: Seq<Seq<u8>>,
    kvs: Seq<(Seq<u8>, AttrValV)>,
) -> Option<(Seq<u8>, AttrValV)>
    decreases names.len(),
{
    if names.len() == 0 {
        None
    } else {
        match find_key(kvs, names.first()) {
            Some(p) => Some(p),
            None => resolve_name(names.drop_first(), kvs),
        }
    }
}

/// The bytes of the reserved key `name`.
pub open spec fn name_key() -> Seq<u8> {
    seq![110u8, 97u8, 109u8, 101u8]
}

/// The bytes of the reserved key `timestamp`.
pub open spec fn timestamp_key() -> Seq<u8> {
    seq![116u8, 105u8, 109u8, 101u8, 115u8, 116u8, 97u8, 109u8, 112u8]
}

/// An optional prefix read as bytes, empty when absent.
pub open spec fn opt_prefix(p: Option<Vec<u8>>) -> Seq<u8> {
    match p {
        Some(v) => v@,
        None => Seq::empty(),
    }
}

/// How the registry evolves for a record whose signature is `sig`: a
/// signature seen before leaves the registry untouched, a new one is
/// appended at the end; nothing else ever changes. This holds on every
/// path that reaches identity resolution, whether or not the record then
/// assembles.
pub open spec fn registry_resolves(
    old_reg: TimelineRegistry,
    new_reg: TimelineRegistry,
    sig: (Seq<u8>, AttrValV),
) -> bool {
    &&& (old_reg.sigs().contains(sig) ==> new_reg == old_reg)
    &&& (!old_reg.sigs().contains(sig) ==> new_reg.sigs() == old_reg.sigs().push(sig))
}

/// What assembling a record does, given the flattened and merged pairs:
/// the timeline signature, the timeline bucket (with `name` appended when
/// one was produced), and the event bucket (with `name`, and `timestamp`
/// when configured and present), or the error that stops the record.
pub open spec fn spec_prepare(cfg: PluginConfig, all: Seq<(Seq<u8>, AttrValV)>) -> Result<
    ((Seq<u8>, AttrValV), Seq<(Seq<u8>, AttrValV)>, Seq<(Seq<u8>, AttrValV)>),
    Error,
> {
    let tln = names_view(cfg.timeline_names@);
    let tla = names_view(cfg.timeline_attrs@);
    let tl0 = tl_bucket(tln, tla, all);
    let ev0 = ev_bucket(tln, tla, all);
    match resolve_name(tln, tl0) {
        None => Err(Error::MissingTimelineIdentity),
        Some(sig) => {
            let tl_name = opt_prefix(cfg.timeline_name_prefix) + display_of(sig.1);
            let tl1 = if tl_name.len() > 0 {
                tl0.push((name_key(), AttrValV::Str(tl_name)))
            } else {
                tl0
            };
            match resolve_name(names_view(cfg.event_names@), ev0) {
                None => Err(Error::MissingEventName),
                Some(evp) => {
                    let ev_name = opt_prefix(cfg.event_name_prefix) + display_of(evp.1);
                    let ev1 = ev0.push((name_key(), AttrValV::Str(ev_name)));
                    match cfg.timestamp_attr {
                        None => Ok((sig, tl1, ev1)),
                        Some(ta) => match find_key(ev1, ta@) {
                            None => Ok((sig, tl1, ev1)),
                            Some(tp) => {
                                let unit = match cfg.timestamp_attr_units {
                                    Some(u) => u,
                                    None => TimestampUnit::Nanoseconds,
                                };
                                match unit.spec_to_ns(tp.1) {
                                    None => Err(Error::NonNumericTimestamp),
                                    Some(ns) => Ok(
                                        (
                                            sig,
                                            tl1,
                                            ev1.push((timestamp_key(), AttrValV::BigInt(ns))),
                                        ),
                                    ),
                                }
                            },
                        },
                    }
                },
            }
        },
    }
}

fn names_contain(names: &Vec<Vec<u8>>, k: &Vec<u8>) -> (r: bool)
    ensures
        r == seq_contains(names_view(names@), k@),
{
    let mut i: usize = 0;
    while i < names.len()
        invariant
            i <= names@.len(),
            forall|m: int| 0 <= m < i ==> names_view(names@)[m] != k@,
        decreases names@.len() - i,
    {
        if crate::attr::bytes_eq(&names[i], k) {
            assert(names_view(names@)[i as int] == k@);
            return true;
        }
        i = i + 1;
    }
    false
}

/// The position of the first pair carrying key `k`, if any.
fn find_pair(kvs: &Vec<(Vec<u8>, AttrVal)>, k: &Vec<u8>) -> (r: Option<usize>)
    ensures
        match r {
            Some(ix) => ix < kvs@.len() && find_key(kvs_view(kvs@), k@) == Some(
                kvs_view(kvs@)[ix as int],
            ) && kvs@[ix as int].0@ == k@,
            None => find_key(kvs_view(kvs@), k@) is None,
        },
{
    let ghost kv = kvs_view(kvs@);
    proof {
        assert(kv.skip(0) =~= kv);
    }
    let mut i: usize = 0;
    while i < kvs.len()
        invariant
            i <= kvs@.len(),
            kv == kvs_view(kvs@),
            find_key(kv, k@) == find_key(kv.skip(i as int), k@),
        decreases kvs@.len() - i,
    {
        proof {
            assert(kv.skip(i as int).first() == kv[i as int]);
            assert(kv.skip(i as int).drop_first() =~= kv.skip(i as int + 1));
        }
        if crate::attr::bytes_eq(&kvs[i].0, k) {
            return Some(i);
        }
        i = i + 1;
    }
    proof {
        assert(kv.skip(kv.len() as int) =~= Seq::<(Seq<u8>, AttrValV)>::empty());
    }
    None
}

/// Resolve a name over the candidate keys, in order: the index of the
/// matching pair in `kvs`.
fn resolve_over(names: &Vec<Vec<u8>>, kvs: &Vec<(Vec<u8>, AttrVal)>) -> (r: Option<usize>)
    ensures
        match r {
            Some(ix) => ix < kvs@.len() && resolve_name(names_view(names@), kvs_view(kvs@))
                == Some(kvs_view(kvs@)[ix as int]),
            None => resolve_name(names_view(names@), kvs_view(kvs@)) is None,
        },
{
    let ghost nv = names_view(names@);
    proof {
        assert(nv.skip(0) =~= nv);
    }
    let mut i: usize = 0;
    while i < names.len()
        invariant
            i <= names@.len(),
            nv == names_view(names@),
            resolve_name(nv, kvs_view(kvs@)) == resolve_name(nv.skip(i as int), kvs_view(kvs@)),
        decreases names@.len() - i,
    {
        proof {
            assert(nv.skip(i as int).first() == nv[i as int]);
            assert(nv.skip(i as int).drop_first() =~= nv.skip(i as int + 1));
        }
        match find_pair(kvs, &names[i]) {
            Some(ix) => {
                return Some(ix);
            },
            None => {},
        }
        i = i + 1;
    }
    proof {
        assert(nv.skip(nv.len() as int) =~= Seq::<Seq<u8>>::empty());
    }
    None
}

/// `a` followed by `b`.
fn concat_bytes(a: &Vec<u8>, b: &Vec<u8>) -> (r: Vec<u8>)
    ensures
        r@ == a@ + b@,
{
    let mut out = crate::attr::copy_bytes(a);
    crate::numtext::append_copy(&mut out, b);
    out
}

/// Classify the flattened pairs into the two buckets, in order.
fn classify(cfg: &PluginConfig, all_kvs: &Vec<(Vec<u8>, AttrVal)>) -> (r: (
    Vec<(Vec<u8>, AttrVal)>,
    Vec<(Vec<u8>, AttrVal)>,
))
    ensures
        kvs_view(r.0@) == tl_bucket(
            names_view(cfg.timeline_names@),
            names_view(cfg.timeline_attrs@),
            kvs_view(all_kvs@),
        ),
        kvs_view(r.1@) == ev_bucket(
            names_view(cfg.timeline_names@),
            names_view(cfg.timeline_attrs@),
            kvs_view(all_kvs@),
        ),
{
    let ghost tln = names_view(cfg.timeline_names@);
    let ghost tla = names_view(cfg.timeline_attrs@);
    let ghost av = kvs_view(all_kvs@);
    let mut tl: Vec<(Vec<u8>, AttrVal)> = Vec::new();
    let mut ev: Vec<(Vec<u8>, AttrVal)> = Vec::new();
    let mut i: usize = 0;
    proof {
        assert(av.take(0) =~= Seq::<(Seq<u8>, AttrValV)>::empty());
        assert(kvs_view(tl@) =~= tl_bucket(tln, tla, av.take(0)));
        assert(kvs_view(ev@) =~= ev_bucket(tln, tla, av.take(0)));
    }
    while i < all_kvs.len()
        invariant
            i <= all_kvs@.len(),
            av == kvs_view(all_kvs@),
            tln == names_view(cfg.timeline_names@),
            tla == names_view(cfg.timeline_attrs@),
            kvs_view(tl@) == tl_bucket(tln, tla, av.take(i as int)),
            kvs_view(ev@) == ev_bucket(tln, tla, av.take(i as int)),
        decreases all_kvs@.len() - i,
    {
        proof {
            assert(av.take(i as int + 1).drop_last() =~= av.take(i as int));
            assert(av.take(i as int + 1).last() == av[i as int]);
        }
        let key = crate::attr::copy_bytes(&all_kvs[i].0);
        let val = all_kvs[i].1.duplicate();
        if names_contain(&cfg.timeline_names, &key) || names_contain(&cfg.timeline_attrs, &key) {
            let ghost tl0 = kvs_view(tl@);
            tl.push((key, val));
            proof {
                assert(kvs_view(tl@) =~= tl0.push(av[i as int]));
            }
        } else {
            let ghost ev0 = kvs_view(ev@);
            ev.push((key, val));
            proof {
                assert(kvs_view(ev@) =~= ev0.push(av[i as int]));
            }
        }
        i = i + 1;
    }
    proof {
        assert(av.take(av.len() as int) =~= av);
    }
    (tl, ev)
}

/// Assemble one record: flatten the object, prepend the pending extra
/// pairs, classify, resolve the timeline signature and identity, resolve
/// the event name, and convert the timestamp. The registry grows only
/// when the record's signature is new; nothing else changes on failure.
#[verifier::rlimit(100)]
#[verifier::spinoff_prover]
pub fn prepare_json_object(
    val: &JsonValue,
    extra_kvs: &Vec<(Vec<u8>, AttrVal)>,
    cfg: &PluginConfig,
    known_timelines: &mut TimelineRegistry,
) -> (r: Result<ReadyToSendEvent, Error>)
    requires
        old(known_timelines).wf(),
        old(known_timelines).sigs().len() < 0xFFFF_FFFF_FFFF_FFFFu64,
    ensures
        final(known_timelines).wf(),
        !(val is Obj) ==> r == Err::<ReadyToSendEvent, Error>(Error::MalformedInput)
            && *final(known_timelines) == *old(known_timelines),
        val matches JsonValue::Obj(fields) ==> ({
            let all = kvs_view(extra_kvs@) + flat_top(*fields);
            match spec_prepare(*cfg, all) {
                Err(e) => (r matches Err(e2) && e2 == e) && (e == Error::MissingTimelineIdentity
                    ==> *final(known_timelines) == *old(known_timelines)) && ((e
                    == Error::MissingEventName || e == Error::NonNumericTimestamp) ==> ({
                    let tln = names_view(cfg.timeline_names@);
                    let tla = names_view(cfg.timeline_attrs@);
                    &&& resolve_name(tln, tl_bucket(tln, tla, all)) matches Some(sig)
                    &&& registry_resolves(*old(known_timelines), *final(known_timelines), sig)
                })),
                Ok((sig, tlv, evv)) => r matches Ok(out) && {
                    &&& kvs_view(out.timeline_kvs@) == tlv
                    &&& kvs_view(out.event_kvs@) == evv
                    &&& out.timeline_id < final(known_timelines).sigs().len()
                    &&& final(known_timelines).sigs()[out.timeline_id as int] == sig
                    &&& registry_resolves(*old(known_timelines), *final(known_timelines), sig)
                    &&& (!old(known_timelines).sigs().contains(sig) ==> out.timeline_id == old(
                        known_timelines,
                    ).sigs().len())
                },
            }
        }),
{
    let fields = match val {
        JsonValue::Obj(fields) => fields,
        _ => {
            return Err(Error::MalformedInput);
        },
    };
    let ghost all_spec = kvs_view(extra_kvs@) + flat_top(*fields);

    // flatten, with the pending extra pairs in front
    let mut all_kvs: Vec<(Vec<u8>, AttrVal)> = Vec::new();
    let mut i: usize = 0;
    while i < extra_kvs.len()
        invariant
            i <= extra_kvs@.len(),
            kvs_view(all_kvs@) =~= kvs_view(extra_kvs@).take(i as int),
        decreases extra_kvs@.len() - i,
    {
        let ghost a0 = kvs_view(all_kvs@);
        all_kvs.push(
            (crate::attr::copy_bytes(&extra_kvs[i].0), extra_kvs[i].1.duplicate()),
        );
        proof {
            assert(kvs_view(all_kvs@) =~= a0.push(kvs_view(extra_kvs@)[i as int]));
        }
        i = i + 1;
    }
    proof {
        assert(kvs_view(extra_kvs@).take(extra_kvs@.len() as int) =~= kvs_view(extra_kvs@));
    }
    let mut flat = walk_obj(fields);
    let ghost f0 = kvs_view(flat@);
    let ghost a1 = kvs_view(all_kvs@);
    let mut j: usize = 0;
    let n_f = flat.len();
    while j < n_f
        invariant
            j <= n_f == flat@.len(),
            kvs_view(flat@) == f0,
            kvs_view(all_kvs@) =~= a1 + f0.take(j as int),
        decreases n_f - j,
    {
        let ghost a2 = kvs_view(all_kvs@);
        all_kvs.push((crate::attr::copy_bytes(&flat[j].0), flat[j].1.duplicate()));
        proof {
            assert(kvs_view(all_kvs@) =~= a2.push(f0[j as int]));
            assert(f0.take(j as int + 1).drop_last() =~= f0.take(j as int));
        }
        j = j + 1;
    }
    proof {
        assert(f0.take(f0.len() as int) =~= f0);
        assert(kvs_view(all_kvs@) =~= all_spec);
    }

    // classify into the two buckets
    let (mut timeline_kvs, mut event_kvs) = classify(cfg, &all_kvs);

    // resolve the timeline signature and build the timeline name
    let sig_ix = match resolve_over(&cfg.timeline_names, &timeline_kvs) {
        Some(ix) => ix,
        None => {
            return Err(Error::MissingTimelineIdentity);
        },
    };
    let sig_key = crate::attr::copy_bytes(&timeline_kvs[sig_ix].0);
    let sig_val = timeline_kvs[sig_ix].1.duplicate();
    let empty_prefix: Vec<u8> = Vec::new();
    let tl_prefix_bytes: &Vec<u8> = match &cfg.timeline_name_prefix {
        Some(p) => p,
        None => &empty_prefix,
    };
    let tl_name = concat_bytes(tl_prefix_bytes, &crate::attr::display_bytes(&sig_val));
    if tl_name.len() > 0 {
        let ghost t0 = kvs_view(timeline_kvs@);
        let nk: Vec<u8> = vec![110u8, 97u8, 109u8, 101u8];
        assert(nk@ =~= name_key());
        timeline_kvs.push((nk, AttrVal::Str(tl_name)));
        proof {
            assert(kvs_view(timeline_kvs@) =~= t0.push(
                (name_key(), AttrValV::Str(opt_prefix(cfg.timeline_name_prefix) + display_of(
                    sig_val@,
                ))),
            ));
        }
    }

    // resolve or allocate the timeline identity
    let timeline_id = known_timelines.resolve_or_create(&sig_key, &sig_val);

    // resolve the event name
    let ev_ix = match resolve_over(&cfg.event_names, &event_kvs) {
        Some(ix) => ix,
        None => {
            return Err(Error::MissingEventName);
        },
    };
    let ev_val = event_kvs[ev_ix].1.duplicate();
    let ev_prefix_bytes: &Vec<u8> = match &cfg.event_name_prefix {
        Some(p) => p,
        None => &empty_prefix,
    };
    let ev_name = concat_bytes(ev_prefix_bytes, &crate::attr::display_bytes(&ev_val));
    let ghost e0 = kvs_view(event_kvs@);
    let nk2: Vec<u8> = vec![110u8, 97u8, 109u8, 101u8];
    assert(nk2@ =~= name_key());
    event_kvs.push((nk2, AttrVal::Str(ev_name)));
    proof {
        assert(kvs_view(event_kvs@) =~= e0.push(
            (name_key(), AttrValV::Str(opt_prefix(cfg.event_name_prefix) + display_of(ev_val@))),
        ));
    }

    // convert the timestamp, when configured and present
    match &cfg.timestamp_attr {
        None => {},
        Some(ta) => {
            match find_pair(&event_kvs, ta) {
                None => {},
                Some(ts_ix) => {
                    let unit = match &cfg.timestamp_attr_units {
                        Some(u) => *u,
                        None => TimestampUnit::Nanoseconds,
                    };
                    let ns = match unit.attr_val_to_ns(&event_kvs[ts_ix].1) {
                        Ok(v) => v,
                        Err(e) => {
                            return Err(e);
                        },
                    };
                    let ghost e1 = kvs_view(event_kvs@);
                    let tk: Vec<u8> = vec![
                        116u8,
                        105u8,
                        109u8,
                        101u8,
                        115u8,
                        116u8,
                        97u8,
                        109u8,
                        112u8,
                    ];
                    assert(tk@ =~= timestamp_key());
                    event_kvs.push((tk, ns));
                    proof {
                        assert(kvs_view(event_kvs@) =~= e1.push((timestamp_key(), ns@)));
                    }
                },
            }
        },
    }

    Ok(ReadyToSendEvent { timeline_id, timeline_kvs, event_kvs })
}

} // verus!
