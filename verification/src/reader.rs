//! The mixed-format reader: walk a whole input buffer, reading JSON arrays
//! and objects where they stand and handing every other line to the
//! configured regex. Attributes captured from non-JSON lines are buffered
//! and merged into the next batch of JSON records, then cleared once that
//! batch is drained. Every successfully assembled record is given the next
//! ordering number, starting from zero for each buffer.

use vstd::prelude::*;

use crate::assemble::{prepare_json_object, spec_prepare};
use crate::attr::{spec_string_to_attr_val, string_to_attr_val, AttrVal, AttrValV};
use crate::client::{calls_view, spec_send, Client, ClientModel, SinkCall, SinkCallV};
use crate::config::PluginConfig;
use crate::error::Error;
use crate::flatten::{flat_top, kvs_view};
use crate::json::{is_json_ws, json_value_denotes, json_value_end, parse_json_value, skip_ws, ws_end, JsonValue};
use crate::registry::{lemma_id_is_sig_index, spec_resolve_id, TimelineRegistry};

verus! {

/// An opaque compiled regex, supplied by the caller.
#[verifier::external_type_specification]
#[verifier::external_body]
pub struct ExRegex(regex::Regex);

/// Relies on regex::Regex::captures: the capture groups of the first match
/// of the pattern in the line, one entry per group in pattern order, `None`
/// for a group that did not participate in the match; `None` overall when
/// the line does not match, or is not UTF-8. Which groups a line fills
/// depends on the compiled pattern, which this crate treats as opaque.
#[verifier::external_body]
fn regex_first_captures(re: &regex::Regex, line: &Vec<u8>) -> (r: Option<Vec<Option<Vec<u8>>>>) {
    let s = match core::str::from_utf8(line) {
        Ok(s) => s,
        Err(_) => {
            return None;
        },
    };
    let caps = re.captures(s)?;
    Some(
        caps.iter().skip(1).map(|m| m.map(|g| g.as_str().as_bytes().to_vec())).collect(),
    )
}

/// The pairs a capture list turns into, when it pairs up with the
/// configured attribute names exactly: name by position, value coerced
/// from the captured text. A count mismatch, or a group that did not
/// participate, is a capture mismatch.
pub open spec fn spec_pair_captures(caps: Seq<Option<Vec<u8>>>, attrs: Seq<Seq<u8>>) -> Result<
    Seq<(Seq<u8>, AttrValV)>,
    Error,
> {
    if caps.len() != attrs.len() {
        Err(Error::AttributeCaptureMismatch)
    } else if exists|i: int| 0 <= i < caps.len() && caps[i] is None {
        Err(Error::AttributeCaptureMismatch)
    } else {
        Ok(
            Seq::new(
                caps.len(),
                |i: int| (attrs[i], spec_string_to_attr_val(caps[i]->Some_0@)),
            ),
        )
    }
}

/// Pair regex captures with the configured non-JSON attribute names.
pub fn pair_captures(caps: &Vec<Option<Vec<u8>>>, attrs: &Vec<Vec<u8>>) -> (r: Result<
    Vec<(Vec<u8>, AttrVal)>,
    Error,
>)
    ensures
        match r {
            Ok(out) => spec_pair_captures(caps@, crate::assemble::names_view(attrs@)) == Ok::<
                _,
                Error,
            >(kvs_view(out@)),
            Err(e) => spec_pair_captures(caps@, crate::assemble::names_view(attrs@)) == Err::<
                Seq<(Seq<u8>, AttrValV)>,
                _,
            >(e),
        },
{
    let ghost av = crate::assemble::names_view(attrs@);
    if caps.len() != attrs.len() {
        return Err(Error::AttributeCaptureMismatch);
    }
    let mut out: Vec<(Vec<u8>, AttrVal)> = Vec::new();
    let mut i: usize = 0;
    while i < caps.len()
        invariant
            i <= caps@.len() == attrs@.len(),
            av == crate::assemble::names_view(attrs@),
            kvs_view(out@).len() == i,
            forall|m: int| 0 <= m < i ==> caps@[m] is Some,
            forall|m: int|
                0 <= m < i ==> kvs_view(out@)[m] == (av[m], spec_string_to_attr_val(
                    caps@[m]->Some_0@,
                )),
        decreases caps@.len() - i,
    {
        match &caps[i] {
            None => {
                return Err(Error::AttributeCaptureMismatch);
            },
            Some(text) => {
                let ghost o0 = kvs_view(out@);
                let v = string_to_attr_val(text);
                out.push((crate::attr::copy_bytes(&attrs[i]), v));
                proof {
                    assert(kvs_view(out@) =~= o0.push(
                        (av[i as int], spec_string_to_attr_val(caps@[i as int]->Some_0@)),
                    ));
                }
            },
        }
        i = i + 1;
    }
    proof {
        assert(kvs_view(out@) =~= Seq::new(
            caps@.len(),
            |m: int| (av[m], spec_string_to_attr_val(caps@[m]->Some_0@)),
        ));
    }
    Ok(out)
}

/// The first newline at or after `i`, or the end of the buffer.
pub open spec fn line_break(s: Seq<u8>, i: int) -> int
    recommends
        0 <= i <= s.len(),
    decreases s.len() - i when 0 <= i <= s.len()
{
    if i < s.len() && s[i] != 10 {
        line_break(s, i + 1)
    } else {
        i
    }
}

pub proof fn lemma_line_break_bounds(s: Seq<u8>, i: int)
    requires
        0 <= i <= s.len(),
    ensures
        i <= line_break(s, i) <= s.len(),
    decreases s.len() - i,
{
    if i < s.len() && s[i] != 10 {
        lemma_line_break_bounds(s, i + 1);
    }
}

fn find_line_break(buf: &Vec<u8>, pos: usize) -> (r: usize)
    requires
        pos <= buf.len(),
    ensures
        r == line_break(buf@, pos as int),
        pos <= r <= buf.len(),
{
    let mut j = pos;
    while j < buf.len() && buf[j] != 10
        invariant
            pos <= j <= buf.len(),
            line_break(buf@, pos as int) == line_break(buf@, j as int),
        decreases buf.len() - j,
    {
        j = j + 1;
    }
    j
}

/// Where the current line's content ends: at the newline, or before a
/// carriage return that precedes it.
pub open spec fn line_content_end(s: Seq<u8>, i: int) -> int {
    let le = line_break(s, i);
    if le > i && s[le - 1] == 13 {
        le - 1
    } else {
        le
    }
}

/// Read one non-JSON line against the configured regex: the captured
/// attributes, and the position just past the line's content (the line
/// terminator is left for the next read to skip). With no regex
/// configured, or an unmatched line, the line is an error.
pub fn parse_regex_line(
    buf: &Vec<u8>,
    pos: usize,
    re: Option<&regex::Regex>,
    attrs: &Vec<Vec<u8>>,
) -> (r: Result<(usize, Vec<(Vec<u8>, AttrVal)>), Error>)
    requires
        pos < buf.len(),
        !is_json_ws(buf@[pos as int]),
    ensures
        re is None ==> r == Err::<(usize, Vec<(Vec<u8>, AttrVal)>), Error>(
            Error::UnmatchedNonJsonLine,
        ),
        r matches Ok(t) ==> pos < t.0 <= buf.len() && t.0 == line_content_end(buf@, pos as int),
        r matches Ok(t) ==> exists|caps: Seq<Option<Vec<u8>>>|
            spec_pair_captures(caps, crate::assemble::names_view(attrs@)) == Ok::<
                Seq<(Seq<u8>, AttrValV)>,
                Error,
            >(kvs_view(t.1@)),
        r matches Err(e) ==> e == Error::UnmatchedNonJsonLine || e
            == Error::AttributeCaptureMismatch,
{
    let re = match re {
        Some(re) => re,
        None => {
            return Err(Error::UnmatchedNonJsonLine);
        },
    };
    let le = find_line_break(buf, pos);
    proof {
        assert(buf@[pos as int] != 10 && buf@[pos as int] != 13);
        lemma_line_break_bounds(buf@, pos as int + 1);
        assert(le > pos);
    }
    let lec: usize = if le > pos && buf[le - 1] == 13 {
        le - 1
    } else {
        le
    };
    assert(lec > pos);
    let line = crate::numtext::copy_range(buf, pos, lec);
    match regex_first_captures(re, &line) {
        None => Err(Error::UnmatchedNonJsonLine),
        Some(caps) => match pair_captures(&caps, attrs) {
            Ok(kvs) => {
                proof {
                    assert(spec_pair_captures(caps@, crate::assemble::names_view(attrs@)) == Ok::<
                        Seq<(Seq<u8>, AttrValV)>,
                        Error,
                    >(kvs_view(kvs@)));
                }
                Ok((lec, kvs))
            },
            Err(e) => Err(e),
        },
    }
}

/// The orderings of the events in a call list, in order.
pub open spec fn event_orderings(cs: Seq<SinkCallV>) -> Seq<u128>
    decreases cs.len(),
{
    if cs.len() == 0 {
        Seq::empty()
    } else {
        event_orderings(cs.drop_last()) + (match cs.last() {
            SinkCallV::SendEvent(o, _) => seq![o],
            _ => Seq::empty(),
        })
    }
}

proof fn lemma_eo_concat(a: Seq<SinkCallV>, b: Seq<SinkCallV>)
    ensures
        event_orderings(a + b) == event_orderings(a) + event_orderings(b),
    decreases b.len(),
{
    if b.len() == 0 {
        assert(a + b =~= a);
        assert(event_orderings(a) + event_orderings(b) =~= event_orderings(a));
    } else {
        lemma_eo_concat(a, b.drop_last());
        assert((a + b).drop_last() =~= a + b.drop_last());
        assert((a + b).last() == b.last());
        assert(event_orderings(a + b) =~= event_orderings(a) + event_orderings(b));
    }
}

proof fn lemma_eo_empty()
    ensures
        event_orderings(Seq::<SinkCallV>::empty()) == Seq::<u128>::empty(),
{
}

proof fn lemma_eo_intern(
    keys: Map<Seq<u8>, u64>,
    next: u64,
    renames: Seq<(Seq<u8>, Seq<u8>)>,
    prefix: Seq<u8>,
    k: Seq<u8>,
)
    ensures
        event_orderings(crate::client::spec_intern(keys, next, renames, prefix, k).3)
            == Seq::<u128>::empty(),
{
    let cs = crate::client::spec_intern(keys, next, renames, prefix, k).3;
    lemma_eo_empty();
    if cs.len() != 0 {
        assert(cs.drop_last() =~= Seq::<SinkCallV>::empty());
        assert(event_orderings(cs) == event_orderings(cs.drop_last()) + Seq::<u128>::empty());
    }
    assert(event_orderings(cs) =~= Seq::<u128>::empty());
}

proof fn lemma_eo_tl(m: crate::client::ClientModel, tid: u64, kvs: Seq<(Seq<u8>, AttrValV)>)
    ensures
        event_orderings(crate::client::spec_send_tl(m, tid, kvs).1) == Seq::<u128>::empty(),
    decreases kvs.len(),
{
    if kvs.len() == 0 {
    } else {
        let (m1, c1) = crate::client::spec_send_tl(m, tid, kvs.drop_last());
        lemma_eo_tl(m, tid, kvs.drop_last());
        let si = crate::client::spec_intern(
            m1.timeline_keys,
            m1.next_token,
            m1.rename_timeline,
            crate::client::tl_prefix(),
            kvs.last().0,
        );
        lemma_eo_intern(
            m1.timeline_keys,
            m1.next_token,
            m1.rename_timeline,
            crate::client::tl_prefix(),
            kvs.last().0,
        );
        let m2 = crate::client::ClientModel { timeline_keys: si.1, next_token: si.2, ..m1 };
        let (sent3, cm) = crate::client::spec_meta_step(m2.sent, tid, si.0, kvs.last().1);
        lemma_eo_concat(c1, si.3);
        lemma_eo_concat(c1 + si.3, cm);
        lemma_eo_empty();
        if cm.len() != 0 {
            assert(cm.drop_last() =~= Seq::<SinkCallV>::empty());
            assert(event_orderings(cm) == event_orderings(cm.drop_last())
                + Seq::<u128>::empty());
        }
        assert(event_orderings(cm) =~= Seq::<u128>::empty());
        assert(event_orderings(c1 + si.3 + cm) =~= Seq::<u128>::empty());
    }
}

proof fn lemma_eo_evs(m: crate::client::ClientModel, kvs: Seq<(Seq<u8>, AttrValV)>)
    ensures
        event_orderings(crate::client::spec_intern_evs(m, kvs).1) == Seq::<u128>::empty(),
    decreases kvs.len(),
{
    if kvs.len() == 0 {
    } else {
        lemma_eo_evs(m, kvs.drop_last());
        let (m1, c1, t1) = crate::client::spec_intern_evs(m, kvs.drop_last());
        let si = crate::client::spec_intern(
            m1.event_keys,
            m1.next_token,
            m1.rename_event,
            crate::client::ev_prefix(),
            kvs.last().0,
        );
        lemma_eo_intern(
            m1.event_keys,
            m1.next_token,
            m1.rename_event,
            crate::client::ev_prefix(),
            kvs.last().0,
        );
        lemma_eo_concat(c1, si.3);
    }
}

/// One planned event contributes exactly one `SendEvent`, at exactly the
/// ordering it was given.
proof fn lemma_eo_send(
    m: crate::client::ClientModel,
    tid: u64,
    tkvs: Seq<(Seq<u8>, AttrValV)>,
    ordering: u128,
    ekvs: Seq<(Seq<u8>, AttrValV)>,
)
    ensures
        event_orderings(crate::client::spec_send(m, tid, tkvs, ordering, ekvs).1) == seq![
            ordering,
        ],
{
    let (m1, c1) = if m.current == Some(tid) {
        (m, Seq::<SinkCallV>::empty())
    } else {
        (
            crate::client::ClientModel { current: Some(tid), ..m },
            seq![SinkCallV::OpenTimeline(tid)],
        )
    };
    let (m2, c2) = crate::client::spec_send_tl(m1, tid, tkvs);
    let (m3, c3, toks) = crate::client::spec_intern_evs(m2, ekvs);
    if c1.len() != 0 {
        assert(c1.drop_last() =~= Seq::<SinkCallV>::empty());
    }
    lemma_eo_tl(m1, tid, tkvs);
    lemma_eo_evs(m2, ekvs);
    lemma_eo_concat(c1, c2);
    lemma_eo_concat(c1 + c2, c3);
    lemma_eo_concat(c1 + c2 + c3, seq![SinkCallV::SendEvent(ordering, toks)]);
    let last = seq![SinkCallV::SendEvent(ordering, toks)];
    lemma_eo_empty();
    assert(last.drop_last() =~= Seq::<SinkCallV>::empty());
    assert(event_orderings(last) == event_orderings(last.drop_last()) + seq![ordering]);
    assert(event_orderings(last) =~= seq![ordering]);
    assert(event_orderings(crate::client::spec_send(m, tid, tkvs, ordering, ekvs).1) =~= seq![
        ordering,
    ]);
}


/// One record of a batch, at the model level: it must be an object; it is
/// flattened with the batch's pending extra pairs in front, assembled, its
/// signature resolved against the registered ones, and its event planned
/// at the given ordering.
pub open spec fn spec_record_step(
    cfg: PluginConfig,
    extras: Seq<(Seq<u8>, AttrValV)>,
    v: JsonValue,
    sigs: Seq<(Seq<u8>, AttrValV)>,
    m: ClientModel,
    ord: u128,
) -> Result<(Seq<(Seq<u8>, AttrValV)>, ClientModel, Seq<SinkCallV>), Error> {
    match v {
        JsonValue::Obj(fields) => match spec_prepare(cfg, extras + flat_top(fields)) {
            Err(e) => Err(e),
            Ok((sig, tlv, evv)) => {
                let (id, sigs2) = spec_resolve_id(sigs, sig);
                let (m2, calls) = spec_send(m, id, tlv, ord, evv);
                Ok((sigs2, m2, calls))
            },
        },
        _ => Err(Error::MalformedInput),
    }
}

/// A whole batch: every pending record, in order, sees the same extra
/// pairs, and the records take the consecutive orderings starting at
/// `ord0`. The first failing record is the batch's error.
pub open spec fn spec_batch(
    cfg: PluginConfig,
    extras: Seq<(Seq<u8>, AttrValV)>,
    pending: Seq<JsonValue>,
    sigs: Seq<(Seq<u8>, AttrValV)>,
    m: ClientModel,
    ord0: u128,
) -> Result<(Seq<(Seq<u8>, AttrValV)>, ClientModel, Seq<SinkCallV>), Error>
    decreases pending.len(),
{
    if pending.len() == 0 {
        Ok((sigs, m, Seq::empty()))
    } else {
        match spec_batch(cfg, extras, pending.drop_last(), sigs, m, ord0) {
            Err(e) => Err(e),
            Ok((s1, m1, c1)) => match spec_record_step(
                cfg,
                extras,
                pending.last(),
                s1,
                m1,
                (ord0 + pending.len() - 1) as u128,
            ) {
                Err(e) => Err(e),
                Ok((s2, m2, c2)) => Ok((s2, m2, c1 + c2)),
            },
        }
    }
}

/// A failure in a prefix of the batch is the whole batch's failure.
proof fn lemma_batch_err_stays(
    cfg: PluginConfig,
    extras: Seq<(Seq<u8>, AttrValV)>,
    pending: Seq<JsonValue>,
    sigs: Seq<(Seq<u8>, AttrValV)>,
    m: ClientModel,
    ord0: u128,
    j: int,
    e: Error,
)
    requires
        0 <= j <= pending.len(),
        spec_batch(cfg, extras, pending.take(j), sigs, m, ord0) == Err::<
            (Seq<(Seq<u8>, AttrValV)>, ClientModel, Seq<SinkCallV>),
            Error,
        >(e),
    ensures
        spec_batch(cfg, extras, pending, sigs, m, ord0) == Err::<
            (Seq<(Seq<u8>, AttrValV)>, ClientModel, Seq<SinkCallV>),
            Error,
        >(e),
    decreases pending.len() - j,
{
    if j == pending.len() {
        assert(pending.take(j) =~= pending);
    } else {
        assert(pending.drop_last().take(j) =~= pending.take(j)) by {
            assert(j <= pending.len() - 1);
        }
        lemma_batch_err_stays(cfg, extras, pending.drop_last(), sigs, m, ord0, j, e);
    }
}

/// A successful batch plans exactly one event per record, at the
/// consecutive orderings from `ord0`.
proof fn lemma_eo_batch(
    cfg: PluginConfig,
    extras: Seq<(Seq<u8>, AttrValV)>,
    pending: Seq<JsonValue>,
    sigs: Seq<(Seq<u8>, AttrValV)>,
    m: ClientModel,
    ord0: u128,
)
    requires
        ord0 as int + pending.len() <= u128::MAX as int,
        spec_batch(cfg, extras, pending, sigs, m, ord0) is Ok,
    ensures
        ({
            let cs = spec_batch(cfg, extras, pending, sigs, m, ord0)->Ok_0.2;
            let ords = event_orderings(cs);
            ords.len() == pending.len() && (forall|i: int|
                0 <= i < pending.len() ==> ords[i] == (ord0 + i) as u128)
        }),
    decreases pending.len(),
{
    if pending.len() == 0 {
        assert(event_orderings(Seq::<SinkCallV>::empty()) =~= Seq::<u128>::empty());
    } else {
        let prefix = spec_batch(cfg, extras, pending.drop_last(), sigs, m, ord0);
        lemma_eo_batch(cfg, extras, pending.drop_last(), sigs, m, ord0);
        let (s1, m1, c1) = prefix->Ok_0;
        let ord = (ord0 + pending.len() - 1) as u128;
        let step = spec_record_step(cfg, extras, pending.last(), s1, m1, ord);
        let (s2, m2, c2) = step->Ok_0;
        match pending.last() {
            JsonValue::Obj(fields) => {
                match spec_prepare(cfg, extras + flat_top(fields)) {
                    Ok((sig, tlv, evv)) => {
                        let (id, sigs2) = spec_resolve_id(s1, sig);
                        lemma_eo_send(m1, id, tlv, ord, evv);
                    },
                    Err(_) => {
                        assert(false);
                    },
                }
            },
            _ => {
                assert(false);
            },
        }
        lemma_eo_concat(c1, c2);
    }
}

/// A batch registers at most one new signature per record.
proof fn lemma_batch_sigs_len(
    cfg: PluginConfig,
    extras: Seq<(Seq<u8>, AttrValV)>,
    pending: Seq<JsonValue>,
    sigs: Seq<(Seq<u8>, AttrValV)>,
    m: ClientModel,
    ord0: u128,
)
    requires
        spec_batch(cfg, extras, pending, sigs, m, ord0) is Ok,
    ensures
        spec_batch(cfg, extras, pending, sigs, m, ord0)->Ok_0.0.len() <= sigs.len()
            + pending.len(),
    decreases pending.len(),
{
    if pending.len() > 0 {
        lemma_batch_sigs_len(cfg, extras, pending.drop_last(), sigs, m, ord0);
    }
}

/// Assemble and plan one whole batch of pending records: every record sees
/// the same pending extra pairs, the records take the consecutive
/// orderings from `ordering0`, and the plan, the registry and the client
/// end exactly as the batch fold says. The first failing record is the
/// result, and the error the fold's error.
#[verifier::rlimit(100)]
#[verifier::spinoff_prover]
pub fn drain_batch(
    pending: &Vec<JsonValue>,
    extra_kvs: &Vec<(Vec<u8>, AttrVal)>,
    cfg: &PluginConfig,
    known_timelines: &mut TimelineRegistry,
    client: &mut Client,
    ordering0: u128,
) -> (r: Result<Vec<SinkCall>, Error>)
    requires
        old(known_timelines).wf(),
        old(known_timelines).sigs().len() + pending@.len() < 0xFFFF_FFFF_FFFF_FFFFu64,
        ordering0 as int + pending@.len() <= u128::MAX as int,
    ensures
        final(known_timelines).wf(),
        match r {
            Ok(calls) => spec_batch(
                *cfg,
                kvs_view(extra_kvs@),
                pending@,
                old(known_timelines).sigs(),
                old(client).model(),
                ordering0,
            ) == Ok::<(Seq<(Seq<u8>, AttrValV)>, ClientModel, Seq<SinkCallV>), Error>(
                (final(known_timelines).sigs(), final(client).model(), calls_view(calls@)),
            ),
            Err(e) => spec_batch(
                *cfg,
                kvs_view(extra_kvs@),
                pending@,
                old(known_timelines).sigs(),
                old(client).model(),
                ordering0,
            ) == Err::<(Seq<(Seq<u8>, AttrValV)>, ClientModel, Seq<SinkCallV>), Error>(e),
        },
{
    let ghost extras_v = kvs_view(extra_kvs@);
    let ghost sigs0 = known_timelines.sigs();
    let ghost m0 = client.model();
    let mut calls: Vec<SinkCall> = Vec::new();
    let n_p = pending.len();
    let mut idx: usize = 0;
    let mut ordering = ordering0;
    proof {
        assert(pending@.take(0) =~= Seq::<JsonValue>::empty());
        assert(calls_view(calls@) =~= Seq::<SinkCallV>::empty());
    }
    while idx < n_p
        invariant
            idx <= n_p == pending@.len(),
            extras_v == kvs_view(extra_kvs@),
            sigs0 == old(known_timelines).sigs(),
            m0 == old(client).model(),
            known_timelines.wf(),
            sigs0.len() + n_p < 0xFFFF_FFFF_FFFF_FFFFu64,
            ordering0 as int + n_p <= u128::MAX as int,
            ordering == ordering0 + idx,
            known_timelines.sigs().len() <= sigs0.len() + idx,
            spec_batch(*cfg, extras_v, pending@.take(idx as int), sigs0, m0, ordering0) == Ok::<
                (Seq<(Seq<u8>, AttrValV)>, ClientModel, Seq<SinkCallV>),
                Error,
            >((known_timelines.sigs(), client.model(), calls_view(calls@))),
        decreases n_p - idx,
    {
        proof {
            assert(pending@.take(idx as int + 1).drop_last() =~= pending@.take(idx as int));
            assert(pending@.take(idx as int + 1).last() == pending@[idx as int]);
        }
        let ghost sigs_here = known_timelines.sigs();
        let ghost m_here = client.model();
        let rts = match prepare_json_object(&pending[idx], extra_kvs, cfg, known_timelines) {
            Ok(rts) => rts,
            Err(e) => {
                proof {
                    assert(spec_record_step(
                        *cfg,
                        extras_v,
                        pending@[idx as int],
                        sigs_here,
                        m_here,
                        (ordering0 + idx as int + 1 - 1) as u128,
                    ) == Err::<(Seq<(Seq<u8>, AttrValV)>, ClientModel, Seq<SinkCallV>), Error>(
                        e,
                    ));
                    assert(spec_batch(
                        *cfg,
                        extras_v,
                        pending@.take(idx as int + 1),
                        sigs0,
                        m0,
                        ordering0,
                    ) == Err::<(Seq<(Seq<u8>, AttrValV)>, ClientModel, Seq<SinkCallV>), Error>(
                        e,
                    ));
                    lemma_batch_err_stays(
                        *cfg,
                        extras_v,
                        pending@,
                        sigs0,
                        m0,
                        ordering0,
                        idx as int + 1,
                        e,
                    );
                }
                return Err(e);
            },
        };
        proof {
            let all = extras_v + flat_top(pending@[idx as int]->Obj_0);
            let (sig, tlv, evv) = spec_prepare(*cfg, all)->Ok_0;
            if sigs_here.contains(sig) {
                lemma_id_is_sig_index(*known_timelines, sig, rts.timeline_id as int);
            }
            assert(spec_resolve_id(sigs_here, sig) == (
                rts.timeline_id,
                known_timelines.sigs(),
            ));
        }
        let ghost m_send = client.model();
        let ghost tkv = kvs_view(rts.timeline_kvs@);
        let ghost ekv = kvs_view(rts.event_kvs@);
        let ev_calls = client.send_event_on_timeline(
            rts.timeline_id,
            rts.timeline_kvs,
            ordering,
            rts.event_kvs,
        );
        let ghost calls_before = calls_view(calls@);
        append_calls(&mut calls, ev_calls);
        proof {
            assert(spec_record_step(
                *cfg,
                extras_v,
                pending@[idx as int],
                sigs_here,
                m_here,
                ordering,
            ) == Ok::<(Seq<(Seq<u8>, AttrValV)>, ClientModel, Seq<SinkCallV>), Error>(
                (known_timelines.sigs(), client.model(), spec_send(
                    m_send,
                    rts.timeline_id,
                    tkv,
                    ordering,
                    ekv,
                ).1),
            ));
            assert((ordering0 + (idx as int + 1) - 1) as u128 == ordering);
        }
        ordering = ordering + 1;
        idx = idx + 1;
    }
    proof {
        assert(pending@.take(n_p as int) =~= pending@);
    }
    Ok(calls)
}


/// Do `batches` read back as the records of the buffer from `pos` on?
/// Whitespace, then: end of buffer and no batches left; a JSON array whose
/// elements are the next batch; or a JSON object that is a batch of one.
/// False wherever a position holds anything else — such a line belongs to
/// the regex, about which nothing can be said here.
pub open spec fn json_records_denote(s: Seq<u8>, pos: int, batches: Seq<Seq<JsonValue>>) -> bool
    decreases s.len() - pos when 0 <= pos <= s.len()
{
    let c = ws_end(s, pos);
    if !(pos <= c <= s.len()) {
        false
    } else if c >= s.len() {
        batches.len() == 0
    } else if s[c] == 91 {
        match json_value_end(s, c) {
            None => false,
            Some(np) => if !(c < np <= s.len()) {
                false
            } else {
                batches.len() > 0 && (exists|items: Vec<JsonValue>|
                    json_value_denotes(s, c, JsonValue::Arr(items)) && batches.first()
                        == items@) && json_records_denote(s, np, batches.drop_first())
            },
        }
    } else if s[c] == 123 {
        match json_value_end(s, c) {
            None => false,
            Some(np) => if !(c < np <= s.len()) {
                false
            } else {
                batches.len() > 0 && batches.first().len() == 1 && json_value_denotes(
                    s,
                    c,
                    batches.first().first(),
                ) && json_records_denote(s, np, batches.drop_first())
            },
        }
    } else {
        false
    }
}

/// The fold of [`spec_batch`] over consecutive batches: each batch sees no
/// pending extras — none exist in an all-JSON buffer — and takes the
/// orderings just past the previous batch's.
pub open spec fn spec_batches(
    cfg: PluginConfig,
    batches: Seq<Seq<JsonValue>>,
    sigs: Seq<(Seq<u8>, AttrValV)>,
    m: ClientModel,
    ord: u128,
) -> Result<(Seq<(Seq<u8>, AttrValV)>, ClientModel, Seq<SinkCallV>), Error>
    decreases batches.len(),
{
    if batches.len() == 0 {
        Ok((sigs, m, Seq::empty()))
    } else {
        match spec_batch(cfg, Seq::empty(), batches.first(), sigs, m, ord) {
            Err(e) => Err(e),
            Ok((s1, m1, c1)) => match spec_batches(
                cfg,
                batches.drop_first(),
                s1,
                m1,
                (ord + batches.first().len()) as u128,
            ) {
                Err(e) => Err(e),
                Ok((s2, m2, c2)) => Ok((s2, m2, c1 + c2)),
            },
        }
    }
}

/// Skipping whitespace does not change which records a position reads.
proof fn lemma_records_ws_shift(s: Seq<u8>, a: int)
    requires
        0 <= a <= s.len(),
    ensures
        forall|rest: Seq<Seq<JsonValue>>| #[trigger] json_records_denote(s, ws_end(s, a), rest)
            == json_records_denote(s, a, rest),
{
    lemma_ws_end_bounds(s, a);
    let b = ws_end(s, a);
    assert(ws_end(s, b) == b);
    assert forall|rest: Seq<Seq<JsonValue>>|
        #[trigger] json_records_denote(s, b, rest) == json_records_denote(s, a, rest) by {
        assert(ws_end(s, b) == ws_end(s, a));
    }
}

proof fn lemma_ws_end_bounds(s: Seq<u8>, i: int)
    requires
        0 <= i <= s.len(),
    ensures
        i <= ws_end(s, i) <= s.len(),
        ws_end(s, i) == s.len() || !is_json_ws(s[ws_end(s, i)]),
    decreases s.len() - i,
{
    if i < s.len() && is_json_ws(s[i]) {
        lemma_ws_end_bounds(s, i + 1);
    }
}

/// A record at `pd` (ending at `np`) peels off the head of any record list
/// that reads back from `pd`.
proof fn lemma_records_step(s: Seq<u8>, pd: int, np: int)
    requires
        0 <= pd < np <= s.len(),
        ws_end(s, pd) == pd,
        s[pd] == 91 || s[pd] == 123,
        json_value_end(s, pd) == Some(np),
    ensures
        forall|rest: Seq<Seq<JsonValue>>|
            #[trigger] json_records_denote(s, pd, rest) ==> rest.len() > 0
                && json_records_denote(s, np, rest.drop_first()),
{
    assert forall|rest: Seq<Seq<JsonValue>>|
        #[trigger] json_records_denote(s, pd, rest) implies rest.len() > 0
            && json_records_denote(s, np, rest.drop_first()) by {
    }
}

/// With one more batch read at `pd` whose fold fails, some record list
/// reads back from the whole buffer and folds to the same error.
#[verifier::rlimit(100)]
#[verifier::spinoff_prover]
proof fn lemma_batch_err_witness(
    cfg: PluginConfig,
    s: Seq<u8>,
    pd: int,
    np: int,
    batch_v: Seq<JsonValue>,
    done: Seq<Seq<JsonValue>>,
    sigs0: Seq<(Seq<u8>, AttrValV)>,
    m0: ClientModel,
    sigs_d: Seq<(Seq<u8>, AttrValV)>,
    m_d: ClientModel,
    ord_base: u128,
    before: Seq<SinkCallV>,
    e: Error,
)
    requires
        0 <= pd < np <= s.len(),
        forall|rest2: Seq<Seq<JsonValue>>|
            #[trigger] json_records_denote(s, np, rest2) ==> json_records_denote(
                s,
                pd,
                seq![batch_v] + rest2,
            ),
        forall|rest: Seq<Seq<JsonValue>>|
            #[trigger] json_records_denote(s, pd, rest) ==> json_records_denote(
                s,
                0,
                done + rest,
            ),
        forall|rest: Seq<Seq<JsonValue>>|
            #[trigger] json_records_denote(s, pd, rest) ==> spec_batches(
                cfg,
                done + rest,
                sigs0,
                m0,
                0,
            ) == (match spec_batches(cfg, rest, sigs_d, m_d, ord_base) {
                Ok((s2, m2, c2)) => Ok::<
                    (Seq<(Seq<u8>, AttrValV)>, ClientModel, Seq<SinkCallV>),
                    Error,
                >((s2, m2, before + c2)),
                Err(e2) => Err::<
                    (Seq<(Seq<u8>, AttrValV)>, ClientModel, Seq<SinkCallV>),
                    Error,
                >(e2),
            }),
        exists|rest: Seq<Seq<JsonValue>>| json_records_denote(s, pd, rest),
        forall|rest: Seq<Seq<JsonValue>>|
            #[trigger] json_records_denote(s, pd, rest) ==> rest.len() > 0
                && json_records_denote(s, np, rest.drop_first()),
        spec_batch(cfg, Seq::empty(), batch_v, sigs_d, m_d, ord_base) == Err::<
            (Seq<(Seq<u8>, AttrValV)>, ClientModel, Seq<SinkCallV>),
            Error,
        >(e),
    ensures
        exists|bs: Seq<Seq<JsonValue>>|
            json_records_denote(s, 0, bs) && spec_batches(cfg, bs, sigs0, m0, 0) == Err::<
                (Seq<(Seq<u8>, AttrValV)>, ClientModel, Seq<SinkCallV>),
                Error,
            >(e),
{
    let rest_p = choose|rest: Seq<Seq<JsonValue>>| json_records_denote(s, pd, rest);
    assert(json_records_denote(s, pd, rest_p));
    let rest2 = rest_p.drop_first();
    assert(json_records_denote(s, np, rest2));
    let wit = seq![batch_v] + rest2;
    assert(json_records_denote(s, pd, wit));
    assert(json_records_denote(s, 0, done + wit));
    assert(wit.first() == batch_v && wit.drop_first() =~= rest2);
    assert(spec_batches(cfg, wit, sigs_d, m_d, ord_base) == Err::<
        (Seq<(Seq<u8>, AttrValV)>, ClientModel, Seq<SinkCallV>),
        Error,
    >(e));
    assert(spec_batches(cfg, done + wit, sigs0, m0, 0) == Err::<
        (Seq<(Seq<u8>, AttrValV)>, ClientModel, Seq<SinkCallV>),
        Error,
    >(e));
}

/// After one batch folds cleanly at `pd`, the three buffer-reading facts
/// carry to the position just past it, with the batch recorded.
#[verifier::rlimit(100)]
#[verifier::spinoff_prover]
proof fn lemma_after_batch(
    cfg: PluginConfig,
    s: Seq<u8>,
    pd: int,
    np: int,
    batch_v: Seq<JsonValue>,
    done0: Seq<Seq<JsonValue>>,
    sigs0: Seq<(Seq<u8>, AttrValV)>,
    m0: ClientModel,
    sigs_d: Seq<(Seq<u8>, AttrValV)>,
    m_d: ClientModel,
    ord_base: u128,
    before: Seq<SinkCallV>,
    sigs_a: Seq<(Seq<u8>, AttrValV)>,
    m_a: ClientModel,
    bv: Seq<SinkCallV>,
    cafter: Seq<SinkCallV>,
    ord_after: u128,
)
    requires
        0 <= pd < np <= s.len(),
        forall|rest2: Seq<Seq<JsonValue>>|
            #[trigger] json_records_denote(s, np, rest2) ==> json_records_denote(
                s,
                pd,
                seq![batch_v] + rest2,
            ),
        forall|rest: Seq<Seq<JsonValue>>|
            #[trigger] json_records_denote(s, pd, rest) ==> json_records_denote(
                s,
                0,
                done0 + rest,
            ),
        forall|rest: Seq<Seq<JsonValue>>|
            #[trigger] json_records_denote(s, pd, rest) ==> spec_batches(
                cfg,
                done0 + rest,
                sigs0,
                m0,
                0,
            ) == (match spec_batches(cfg, rest, sigs_d, m_d, ord_base) {
                Ok((s2, m2, c2)) => Ok::<
                    (Seq<(Seq<u8>, AttrValV)>, ClientModel, Seq<SinkCallV>),
                    Error,
                >((s2, m2, before + c2)),
                Err(e2) => Err::<
                    (Seq<(Seq<u8>, AttrValV)>, ClientModel, Seq<SinkCallV>),
                    Error,
                >(e2),
            }),
        forall|bs: Seq<Seq<JsonValue>>|
            #[trigger] json_records_denote(s, 0, bs) ==> (exists|rest: Seq<Seq<JsonValue>>|
                json_records_denote(s, pd, rest)),
        forall|rest: Seq<Seq<JsonValue>>|
            #[trigger] json_records_denote(s, pd, rest) ==> rest.len() > 0
                && json_records_denote(s, np, rest.drop_first()),
        spec_batch(cfg, Seq::empty(), batch_v, sigs_d, m_d, ord_base) == Ok::<
            (Seq<(Seq<u8>, AttrValV)>, ClientModel, Seq<SinkCallV>),
            Error,
        >((sigs_a, m_a, bv)),
        cafter == before + bv,
        (ord_base + batch_v.len()) as u128 == ord_after,
    ensures
        forall|rest2: Seq<Seq<JsonValue>>|
            #[trigger] json_records_denote(s, np, rest2) ==> json_records_denote(
                s,
                0,
                done0.push(batch_v) + rest2,
            ),
        forall|rest2: Seq<Seq<JsonValue>>|
            #[trigger] json_records_denote(s, np, rest2) ==> spec_batches(
                cfg,
                done0.push(batch_v) + rest2,
                sigs0,
                m0,
                0,
            ) == (match spec_batches(cfg, rest2, sigs_a, m_a, ord_after) {
                Ok((s2, m2, c2)) => Ok::<
                    (Seq<(Seq<u8>, AttrValV)>, ClientModel, Seq<SinkCallV>),
                    Error,
                >((s2, m2, cafter + c2)),
                Err(e2) => Err::<
                    (Seq<(Seq<u8>, AttrValV)>, ClientModel, Seq<SinkCallV>),
                    Error,
                >(e2),
            }),
        forall|bs: Seq<Seq<JsonValue>>|
            #[trigger] json_records_denote(s, 0, bs) ==> (exists|rest2: Seq<Seq<JsonValue>>|
                json_records_denote(s, np, rest2)),
{
    let done1 = done0.push(batch_v);
    assert forall|rest2: Seq<Seq<JsonValue>>|
        #[trigger] json_records_denote(s, np, rest2) implies json_records_denote(
        s,
        0,
        done1 + rest2,
    ) by {
        assert(json_records_denote(s, pd, seq![batch_v] + rest2));
        assert(done0 + (seq![batch_v] + rest2) =~= done1 + rest2);
    }
    assert forall|rest2: Seq<Seq<JsonValue>>|
        #[trigger] json_records_denote(s, np, rest2) implies spec_batches(
        cfg,
        done1 + rest2,
        sigs0,
        m0,
        0,
    ) == (match spec_batches(cfg, rest2, sigs_a, m_a, ord_after) {
        Ok((s2, m2, c2)) => Ok::<
            (Seq<(Seq<u8>, AttrValV)>, ClientModel, Seq<SinkCallV>),
            Error,
        >((s2, m2, cafter + c2)),
        Err(e2) => Err::<(Seq<(Seq<u8>, AttrValV)>, ClientModel, Seq<SinkCallV>), Error>(e2),
    }) by {
        let wit = seq![batch_v] + rest2;
        assert(json_records_denote(s, pd, wit));
        assert(wit.first() == batch_v && wit.drop_first() =~= rest2);
        assert(done0 + wit =~= done1 + rest2);
        match spec_batches(cfg, rest2, sigs_a, m_a, ord_after) {
            Ok((s2, m2, c2)) => {
                assert(spec_batches(cfg, wit, sigs_d, m_d, ord_base) == Ok::<
                    (Seq<(Seq<u8>, AttrValV)>, ClientModel, Seq<SinkCallV>),
                    Error,
                >((s2, m2, bv + c2)));
                assert(before + (bv + c2) =~= cafter + c2);
            },
            Err(_) => {},
        }
    }
    assert forall|bs: Seq<Seq<JsonValue>>|
        #[trigger] json_records_denote(s, 0, bs) implies (exists|rest2: Seq<Seq<JsonValue>>|
        json_records_denote(s, np, rest2)) by {
        let rest_p = choose|rest: Seq<Seq<JsonValue>>| json_records_denote(s, pd, rest);
        assert(json_records_denote(s, pd, rest_p));
        assert(json_records_denote(s, np, rest_p.drop_first()));
    }
}

/// Process one whole input buffer: read records in file order, drain each
/// batch through [`drain_batch`] — which pins the batch's plan exactly —
/// and clear the pending extras once a batch drains. The events in the
/// returned plan carry the orderings `0, 1, 2, ...` in buffer order, with
/// no gap and no repeat; the first failing record aborts the buffer. When
/// some record list reads back from the whole buffer — every record in it
/// is JSON, so no pending extras ever arise — the result, `Ok` and `Err`
/// alike, is exactly the fold of those batches.
#[verifier::rlimit(100)]
#[verifier::spinoff_prover]
pub fn process_buffer(
    buf: &Vec<u8>,
    cfg: &PluginConfig,
    re: Option<&regex::Regex>,
    known_timelines: &mut TimelineRegistry,
    client: &mut Client,
) -> (r: Result<Vec<SinkCall>, Error>)
    requires
        old(known_timelines).wf(),
        old(known_timelines).sigs().len() + buf@.len() < 0xFFFF_FFFF_FFFF_FFFFu64,
    ensures
        final(known_timelines).wf(),
        r matches Ok(calls) ==> ({
            let ords = event_orderings(calls_view(calls@));
            forall|i: int| 0 <= i < ords.len() ==> ords[i] == i as u128
        }),
        (exists|bs: Seq<Seq<JsonValue>>| json_records_denote(buf@, 0, bs)) ==> match r {
            Ok(calls) => exists|bs: Seq<Seq<JsonValue>>|
                json_records_denote(buf@, 0, bs) && spec_batches(
                    *cfg,
                    bs,
                    old(known_timelines).sigs(),
                    old(client).model(),
                    0,
                ) == Ok::<(Seq<(Seq<u8>, AttrValV)>, ClientModel, Seq<SinkCallV>), Error>(
                    (final(known_timelines).sigs(), final(client).model(), calls_view(calls@)),
                ),
            Err(e) => exists|bs: Seq<Seq<JsonValue>>|
                json_records_denote(buf@, 0, bs) && spec_batches(
                    *cfg,
                    bs,
                    old(known_timelines).sigs(),
                    old(client).model(),
                    0,
                ) == Err::<(Seq<(Seq<u8>, AttrValV)>, ClientModel, Seq<SinkCallV>), Error>(e),
        },
{
    let mut calls: Vec<SinkCall> = Vec::new();
    let mut ordering: u128 = 0;
    let mut extra_kvs: Vec<(Vec<u8>, AttrVal)> = Vec::new();
    let mut pending: Vec<JsonValue> = Vec::new();
    let mut pos: usize = 0;
    let ghost sig0 = old(known_timelines).sigs().len();
    let ghost sigs0 = old(known_timelines).sigs();
    let ghost m0 = old(client).model();
    let ghost mut done: Seq<Seq<JsonValue>> = Seq::empty();
    let ghost mut aj: bool = true;
    proof {
        assert(calls_view(calls@) =~= Seq::<SinkCallV>::empty());
        assert forall|rest: Seq<Seq<JsonValue>>|
            #[trigger] json_records_denote(buf@, 0, rest) implies json_records_denote(
            buf@,
            0,
            done + rest,
        ) by {
            assert(done + rest =~= rest);
        }
        assert forall|rest: Seq<Seq<JsonValue>>|
            #[trigger] json_records_denote(buf@, 0, rest) implies spec_batches(
            *cfg,
            done + rest,
            sigs0,
            m0,
            0,
        ) == (match spec_batches(*cfg, rest, known_timelines.sigs(), client.model(), ordering) {
            Ok((s2, m2, c2)) => Ok::<
                (Seq<(Seq<u8>, AttrValV)>, ClientModel, Seq<SinkCallV>),
                Error,
            >((s2, m2, calls_view(calls@) + c2)),
            Err(e) => Err::<(Seq<(Seq<u8>, AttrValV)>, ClientModel, Seq<SinkCallV>), Error>(e),
        }) by {
            assert(done + rest =~= rest);
            match spec_batches(*cfg, rest, known_timelines.sigs(), client.model(), ordering) {
                Ok((s2, m2, c2)) => {
                    assert(calls_view(calls@) + c2 =~= c2);
                },
                Err(_) => {},
            }
        }
    }
    loop
        invariant
            pos <= buf.len(),
            sig0 + buf@.len() < 0xFFFF_FFFF_FFFF_FFFFu64,
            sig0 == sigs0.len(),
            sigs0 == old(known_timelines).sigs(),
            m0 == old(client).model(),
            known_timelines.wf(),
            known_timelines.sigs().len() <= sig0 + pos,
            pending@.len() == 0,
            ordering as int <= pos as int,
            event_orderings(calls_view(calls@)).len() == ordering as int,
            forall|i: int|
                0 <= i < ordering as int ==> event_orderings(calls_view(calls@))[i] == i as u128,
            aj ==> extra_kvs@.len() == 0,
            aj ==> (forall|rest: Seq<Seq<JsonValue>>|
                #[trigger] json_records_denote(buf@, pos as int, rest) ==> json_records_denote(
                    buf@,
                    0,
                    done + rest,
                )),
            aj ==> (forall|rest: Seq<Seq<JsonValue>>|
                #[trigger] json_records_denote(buf@, pos as int, rest) ==> spec_batches(
                    *cfg,
                    done + rest,
                    sigs0,
                    m0,
                    0,
                ) == (match spec_batches(
                    *cfg,
                    rest,
                    known_timelines.sigs(),
                    client.model(),
                    ordering,
                ) {
                    Ok((s2, m2, c2)) => Ok::<
                        (Seq<(Seq<u8>, AttrValV)>, ClientModel, Seq<SinkCallV>),
                        Error,
                    >((s2, m2, calls_view(calls@) + c2)),
                    Err(e) => Err::<
                        (Seq<(Seq<u8>, AttrValV)>, ClientModel, Seq<SinkCallV>),
                        Error,
                    >(e),
                })),
            aj ==> (forall|bs: Seq<Seq<JsonValue>>|
                #[trigger] json_records_denote(buf@, 0, bs) ==> (exists|
                    rest: Seq<Seq<JsonValue>>,
                |
                    json_records_denote(buf@, pos as int, rest))),
            !aj ==> (forall|bs: Seq<Seq<JsonValue>>| !(#[trigger] json_records_denote(
                buf@,
                0,
                bs,
            ))),
        decreases buf.len() - pos,
    {
        let ghost ph = pos as int;
        let nxt = skip_ws(buf, pos);
        proof {
            if aj {
                lemma_records_ws_shift(buf@, ph);
            }
        }
        pos = nxt;
        proof {
            if aj {
                assert forall|rest: Seq<Seq<JsonValue>>|
                    #[trigger] json_records_denote(buf@, pos as int, rest)
                        implies json_records_denote(buf@, 0, done + rest) by {
                    assert(json_records_denote(buf@, ph, rest));
                }
                assert forall|rest: Seq<Seq<JsonValue>>|
                    #[trigger] json_records_denote(buf@, pos as int, rest) implies spec_batches(
                    *cfg,
                    done + rest,
                    sigs0,
                    m0,
                    0,
                ) == (match spec_batches(
                    *cfg,
                    rest,
                    known_timelines.sigs(),
                    client.model(),
                    ordering,
                ) {
                    Ok((s2, m2, c2)) => Ok::<
                        (Seq<(Seq<u8>, AttrValV)>, ClientModel, Seq<SinkCallV>),
                        Error,
                    >((s2, m2, calls_view(calls@) + c2)),
                    Err(e) => Err::<
                        (Seq<(Seq<u8>, AttrValV)>, ClientModel, Seq<SinkCallV>),
                        Error,
                    >(e),
                }) by {
                    assert(json_records_denote(buf@, ph, rest));
                }
                assert forall|bs: Seq<Seq<JsonValue>>|
                    #[trigger] json_records_denote(buf@, 0, bs) implies (exists|
                    rest: Seq<Seq<JsonValue>>,
                |
                    json_records_denote(buf@, pos as int, rest)) by {
                    let rest_h = choose|rest: Seq<Seq<JsonValue>>|
                        json_records_denote(buf@, ph, rest);
                    assert(json_records_denote(buf@, ph, rest_h));
                    assert(json_records_denote(buf@, pos as int, rest_h));
                }
            }
        }
        if pos >= buf.len() {
            proof {
                if aj {
                    assert(json_records_denote(buf@, pos as int, Seq::<Seq<JsonValue>>::empty()));
                    assert(json_records_denote(buf@, 0, done + Seq::<Seq<JsonValue>>::empty()));
                    assert(spec_batches(*cfg, done + Seq::<Seq<JsonValue>>::empty(), sigs0, m0, 0)
                        == Ok::<(Seq<(Seq<u8>, AttrValV)>, ClientModel, Seq<SinkCallV>), Error>(
                        (known_timelines.sigs(), client.model(), calls_view(calls@)),
                    )) by {
                        assert(calls_view(calls@) + Seq::<SinkCallV>::empty() =~= calls_view(
                            calls@,
                        ));
                    }
                }
            }
            return Ok(calls);
        }
        let ghost pd = pos as int;
        let b = buf[pos];
        if b == 91 || b == 123 {
            // a JSON array is a batch of records; a JSON object, one record
            let (v, np) = match parse_json_value(buf, pos) {
                Ok(t) => t,
                Err(e) => {
                    proof {
                        if aj {
                            assert forall|bs: Seq<Seq<JsonValue>>| !(
                            #[trigger] json_records_denote(buf@, 0, bs)) by {
                                if json_records_denote(buf@, 0, bs) {
                                    let rest = choose|rest: Seq<Seq<JsonValue>>|
                                        json_records_denote(buf@, pd, rest);
                                    assert(json_records_denote(buf@, pd, rest));
                                }
                            }
                        }
                    }
                    return Err(e);
                },
            };
            let ghost vv = v;
            let ghost batch_v: Seq<JsonValue> = match vv {
                JsonValue::Arr(items) => items@,
                _ => seq![vv],
            };
            match v {
                JsonValue::Arr(mut items) => {
                    pending.append(&mut items);
                },
                other => {
                    pending.push(other);
                },
            }
            proof {
                assert(pending@ =~= batch_v);
                if aj {
                    assert forall|rest2: Seq<Seq<JsonValue>>|
                        #[trigger] json_records_denote(buf@, np as int, rest2)
                            implies json_records_denote(buf@, pd, seq![batch_v] + rest2) by {
                        assert((seq![batch_v] + rest2).first() == batch_v);
                        assert((seq![batch_v] + rest2).drop_first() =~= rest2);
                        if b == 91 {
                            assert(json_value_denotes(buf@, pd, JsonValue::Arr(vv->Arr_0)));
                        } else {
                            assert(seq![vv].first() == vv);
                        }
                    }
                }
                lemma_records_step(buf@, pd, np as int);
            }
            pos = np;
            let ghost batch_all = pending@;
            let n_p = pending.len();
            let ghost sigs_d = known_timelines.sigs();
            let ghost m_d = client.model();
            let ghost extras_d = kvs_view(extra_kvs@);
            let ghost ord_base = ordering;
            let ghost before = calls_view(calls@);
            proof {
                if aj {
                    assert(extras_d =~= Seq::<(Seq<u8>, AttrValV)>::empty());
                }
            }
            if pending.len() > 0 {
                let batch = match drain_batch(
                    &pending,
                    &extra_kvs,
                    cfg,
                    known_timelines,
                    client,
                    ordering,
                ) {
                    Ok(cs) => cs,
                    Err(e) => {
                        proof {
                            if aj && (exists|bs: Seq<Seq<JsonValue>>|
                                json_records_denote(buf@, 0, bs)) {
                                let bs0 = choose|bs: Seq<Seq<JsonValue>>|
                                    json_records_denote(buf@, 0, bs);
                                assert(json_records_denote(buf@, 0, bs0));
                                lemma_batch_err_witness(
                                    *cfg,
                                    buf@,
                                    pd,
                                    pos as int,
                                    batch_v,
                                    done,
                                    sigs0,
                                    m0,
                                    sigs_d,
                                    m_d,
                                    ord_base,
                                    before,
                                    e,
                                );
                            }
                        }
                        return Err(e);
                    },
                };
                let ghost bv = calls_view(batch@);
                proof {
                    lemma_eo_batch(*cfg, extras_d, batch_all, sigs_d, m_d, ordering);
                    lemma_batch_sigs_len(*cfg, extras_d, batch_all, sigs_d, m_d, ordering);
                }
                append_calls(&mut calls, batch);
                proof {
                    lemma_eo_concat(before, bv);
                    let eo_all = event_orderings(calls_view(calls@));
                    assert forall|i: int| 0 <= i < ord_base + n_p implies eo_all[i] == i as u128
                        by {
                        if i < ord_base {
                            assert(eo_all[i] == event_orderings(before)[i]);
                        } else {
                            assert(eo_all[i] == event_orderings(bv)[i - ord_base]);
                            assert(event_orderings(bv)[i - ord_base] == (ord_base + (i
                                - ord_base)) as u128);
                        }
                    }
                }
                ordering = ordering + (n_p as u128);
                pending.clear();
                extra_kvs.clear();
                proof {
                    let done0 = done;
                    done = done.push(batch_v);
                    if aj {
                        lemma_after_batch(
                            *cfg,
                            buf@,
                            pd,
                            pos as int,
                            batch_v,
                            done0,
                            sigs0,
                            m0,
                            sigs_d,
                            m_d,
                            ord_base,
                            before,
                            known_timelines.sigs(),
                            client.model(),
                            bv,
                            calls_view(calls@),
                            ordering,
                        );
                    }
                }
            } else {
                // an empty array: a batch with no records changes nothing
                proof {
                    let done0 = done;
                    done = done.push(batch_v);
                    if aj {
                        assert(batch_v.len() == 0);
                        assert(before + Seq::<SinkCallV>::empty() =~= before);
                        lemma_after_batch(
                            *cfg,
                            buf@,
                            pd,
                            pos as int,
                            batch_v,
                            done0,
                            sigs0,
                            m0,
                            sigs_d,
                            m_d,
                            ord_base,
                            before,
                            sigs_d,
                            m_d,
                            Seq::empty(),
                            before,
                            ordering,
                        );
                    }
                }
            }
        } else {
            // a non-JSON line: captured attributes for the next batch; from
            // here on no record list reads back from the whole buffer
            proof {
                if aj {
                    assert forall|bs: Seq<Seq<JsonValue>>| !(#[trigger] json_records_denote(
                        buf@,
                        0,
                        bs,
                    )) by {
                        if json_records_denote(buf@, 0, bs) {
                            let rest = choose|rest: Seq<Seq<JsonValue>>|
                                json_records_denote(buf@, pd, rest);
                            assert(json_records_denote(buf@, pd, rest));
                        }
                    }
                }
                aj = false;
            }
            let (np, mut kvs) = match parse_regex_line(buf, pos, re, &cfg.non_json_attrs) {
                Ok(t) => t,
                Err(e) => {
                    return Err(e);
                },
            };
            extra_kvs.append(&mut kvs);
            pos = np;
        }
    }
}

/// Append the planned calls of one event to the run's list.
fn append_calls(calls: &mut Vec<SinkCall>, more: Vec<SinkCall>)
    ensures
        calls_view(final(calls)@) == calls_view(old(calls)@) + calls_view(more@),
{
    let mut more = more;
    let ghost goal = calls_view(old(calls)@) + calls_view(more@);
    calls.append(&mut more);
    proof {
        assert(calls_view(calls@) =~= goal);
    }
}

} // verus!
