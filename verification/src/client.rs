//! The sink-facing half of the engine: key normalization and renaming,
//! one-time interning of keys, timeline switching, and the deduplication of
//! timeline metadata. Nothing here talks to a network; each call returns
//! the exact list of sink calls the caller must perform, in order, with
//! interned-key tokens that the caller maps to the sink's handles as the
//! `DeclareKey` calls come past.

use vstd::prelude::*;

use crate::attr::{AttrVal, AttrValV};
use crate::config::AttrKeyRename;

verus! {

/// One call for the caller to make against the ingestion sink.
#[derive(Debug, PartialEq, Eq)]
pub enum SinkCall {
    /// Make this timeline the active one.
    OpenTimeline { timeline_id: u64 },
    /// Register a key string; later calls refer to it by `token`.
    DeclareKey { token: u64, key: Vec<u8> },
    /// Update one timeline attribute on the active timeline.
    SetTimelineMetadata { token: u64, value: AttrVal },
    /// Append one event to the active timeline.
    SendEvent { ordering: u128, attrs: Vec<(u64, AttrVal)> },
}

/// The mathematical reading of a sink call.
pub enum SinkCallV {
    OpenTimeline(u64),
    DeclareKey(u64, Seq<u8>),
    SetTimelineMetadata(u64, AttrValV),
    SendEvent(u128, Seq<(u64, AttrValV)>),
}

impl View for SinkCall {
    type V = SinkCallV;

    open spec fn view(&self) -> SinkCallV {
        match self {
            SinkCall::OpenTimeline { timeline_id } => SinkCallV::OpenTimeline(*timeline_id),
            SinkCall::DeclareKey { token, key } => SinkCallV::DeclareKey(*token, key@),
            SinkCall::SetTimelineMetadata { token, value } => SinkCallV::SetTimelineMetadata(
                *token,
                value@,
            ),
            SinkCall::SendEvent { ordering, attrs } => SinkCallV::SendEvent(
                *ordering,
                attrs@.map_values(|p: (u64, AttrVal)| (p.0, p.1@)),
            ),
        }
    }
}

/// The mathematical reading of a list of sink calls.
pub open spec fn calls_view(v: Seq<SinkCall>) -> Seq<SinkCallV> {
    v.map_values(|c: SinkCall| c@)
}

/// The bytes of `timeline.`.
pub open spec fn tl_prefix() -> Seq<u8> {
    seq![116u8, 105u8, 109u8, 101u8, 108u8, 105u8, 110u8, 101u8, 46u8]
}

/// The bytes of `event.`.
pub open spec fn ev_prefix() -> Seq<u8> {
    seq![101u8, 118u8, 101u8, 110u8, 116u8, 46u8]
}

/// A key carried into a scope: left alone when it already bears the
/// scope's prefix, prefixed otherwise.
pub open spec fn norm_key(prefix: Seq<u8>, k: Seq<u8>) -> Seq<u8> {
    if k.len() >= prefix.len() && k.subrange(0, prefix.len() as int) == prefix {
        k
    } else {
        prefix + k
    }
}

/// Does `k` start with `prefix`?
fn starts_with(k: &Vec<u8>, prefix: &Vec<u8>) -> (r: bool)
    ensures
        r == (k@.len() >= prefix@.len() && k@.subrange(0, prefix@.len() as int) == prefix@),
{
    if k.len() < prefix.len() {
        return false;
    }
    let mut i: usize = 0;
    while i < prefix.len()
        invariant
            i <= prefix.len() <= k.len(),
            forall|m: int| 0 <= m < i ==> k@[m] == prefix@[m],
        decreases prefix.len() - i,
    {
        if k[i] != prefix[i] {
            assert(k@.subrange(0, prefix@.len() as int)[i as int] != prefix@[i as int]);
            return false;
        }
        i = i + 1;
    }
    proof {
        assert(k@.subrange(0, prefix@.len() as int) =~= prefix@);
    }
    true
}

fn norm_key_exec(prefix: &Vec<u8>, k: Vec<u8>) -> (r: Vec<u8>)
    ensures
        r@ == norm_key(prefix@, k@),
{
    if starts_with(&k, prefix) {
        k
    } else {
        let mut out = crate::attr::copy_bytes(prefix);
        let mut i: usize = 0;
        while i < k.len()
            invariant
                i <= k.len(),
                out@ =~= prefix@ + k@.subrange(0, i as int),
            decreases k.len() - i,
        {
            out.push(k[i]);
            i = i + 1;
        }
        proof {
            assert(out@ =~= prefix@ + k@);
        }
        out
    }
}

/// Prefix a key with `timeline.` unless it already carries it.
pub fn normalize_timeline_key(s: Vec<u8>) -> (r: Vec<u8>)
    ensures
        r@ == norm_key(tl_prefix(), s@),
{
    let prefix: Vec<u8> = vec![116u8, 105u8, 109u8, 101u8, 108u8, 105u8, 110u8, 101u8, 46u8];
    assert(prefix@ =~= tl_prefix());
    norm_key_exec(&prefix, s)
}

/// Prefix a key with `event.` unless it already carries it.
pub fn normalize_event_key(s: Vec<u8>) -> (r: Vec<u8>)
    ensures
        r@ == norm_key(ev_prefix(), s@),
{
    let prefix: Vec<u8> = vec![101u8, 118u8, 101u8, 110u8, 116u8, 46u8];
    assert(prefix@ =~= ev_prefix());
    norm_key_exec(&prefix, s)
}

/// The rename that applies to `k`: of entries with the same original key,
/// the one given last wins.
pub open spec fn lookup_last(renames: Seq<(Seq<u8>, Seq<u8>)>, k: Seq<u8>) -> Option<Seq<u8>>
    decreases renames.len(),
{
    if renames.len() == 0 {
        None
    } else if renames.last().0 == k {
        Some(renames.last().1)
    } else {
        lookup_last(renames.drop_last(), k)
    }
}

fn lookup_rename(renames: &Vec<(Vec<u8>, Vec<u8>)>, k: &Vec<u8>) -> (r: Option<Vec<u8>>)
    ensures
        match r {
            Some(v) => lookup_last(renames_view(renames@), k@) == Some(v@),
            None => lookup_last(renames_view(renames@), k@) is None,
        },
{
    let ghost rv = renames_view(renames@);
    proof {
        assert(rv.take(rv.len() as int) =~= rv);
    }
    let mut j = renames.len();
    while j > 0
        invariant
            j <= renames@.len(),
            rv == renames_view(renames@),
            lookup_last(rv, k@) == lookup_last(rv.take(j as int), k@),
        decreases j,
    {
        j = j - 1;
        proof {
            assert(rv.take(j as int + 1).drop_last() =~= rv.take(j as int));
            assert(rv.take(j as int + 1).last() == rv[j as int]);
        }
        if crate::attr::bytes_eq(&renames[j].0, k) {
            return Some(crate::attr::copy_bytes(&renames[j].1));
        }
    }
    proof {
        assert(rv.take(0) =~= Seq::<(Seq<u8>, Seq<u8>)>::empty());
    }
    None
}

/// The mathematical reading of a rename table.
pub open spec fn renames_view(v: Seq<(Vec<u8>, Vec<u8>)>) -> Seq<(Seq<u8>, Seq<u8>)> {
    v.map_values(|p: (Vec<u8>, Vec<u8>)| (p.0@, p.1@))
}

/// The token for each interned key: later entries shadow earlier ones,
/// though in practice a key is entered once.
pub open spec fn keys_model(v: Seq<(Vec<u8>, u64)>) -> Map<Seq<u8>, u64>
    decreases v.len(),
{
    if v.len() == 0 {
        Map::empty()
    } else {
        keys_model(v.drop_last()).insert(v.last().0@, v.last().1)
    }
}

/// The last value sent for each (timeline, token) pair.
pub open spec fn cache_model(v: Seq<((u64, u64), AttrVal)>) -> Map<(u64, u64), AttrValV>
    decreases v.len(),
{
    if v.len() == 0 {
        Map::empty()
    } else {
        cache_model(v.drop_last()).insert(v.last().0, v.last().1@)
    }
}

/// The abstract state of the client: what has been interned, renamed,
/// sent, and which timeline is active.
pub struct ClientModel {
    pub timeline_keys: Map<Seq<u8>, u64>,
    pub event_keys: Map<Seq<u8>, u64>,
    pub rename_timeline: Seq<(Seq<u8>, Seq<u8>)>,
    pub rename_event: Seq<(Seq<u8>, Seq<u8>)>,
    pub sent: Map<(u64, u64), AttrValV>,
    pub current: Option<u64>,
    pub next_token: u64,
}

/// Interning one key in one scope: normalize, rename, then hand out the
/// existing token or declare a fresh one.
pub open spec fn spec_intern(
    keys: Map<Seq<u8>, u64>,
    next: u64,
    renames: Seq<(Seq<u8>, Seq<u8>)>,
    prefix: Seq<u8>,
    k: Seq<u8>,
) -> (u64, Map<Seq<u8>, u64>, u64, Seq<SinkCallV>) {
    let nk = norm_key(prefix, k);
    let fk = match lookup_last(renames, nk) {
        Some(nk2) => nk2,
        None => nk,
    };
    if keys.contains_key(fk) {
        (keys[fk], keys, next, Seq::empty())
    } else {
        (
            next,
            keys.insert(fk, next),
            if next == u64::MAX {
                next
            } else {
                (next + 1) as u64
            },
            seq![SinkCallV::DeclareKey(next, fk)],
        )
    }
}

/// One timeline attribute reaching the dedup cache: it is sent unless the
/// cache already holds exactly this value for this timeline and key.
pub open spec fn spec_meta_step(
    sent: Map<(u64, u64), AttrValV>,
    tid: u64,
    tok: u64,
    v: AttrValV,
) -> (Map<(u64, u64), AttrValV>, Seq<SinkCallV>) {
    if sent.contains_key((tid, tok)) && sent[(tid, tok)] == v {
        (sent, Seq::empty())
    } else {
        (sent.insert((tid, tok), v), seq![SinkCallV::SetTimelineMetadata(tok, v)])
    }
}

/// Sending the same (timeline, key, value) again is silent: the second
/// step changes nothing and makes no call.
pub proof fn lemma_dedup_idempotent(
    sent: Map<(u64, u64), AttrValV>,
    tid: u64,
    tok: u64,
    v: AttrValV,
)
    ensures
        ({
            let (s1, c1) = spec_meta_step(sent, tid, tok, v);
            let (s2, c2) = spec_meta_step(s1, tid, tok, v);
            s2 == s1 && c2 == Seq::<SinkCallV>::empty()
        }),
{
    let (s1, c1) = spec_meta_step(sent, tid, tok, v);
    assert(s1.contains_key((tid, tok)) && s1[(tid, tok)] == v);
    let (s2, c2) = spec_meta_step(s1, tid, tok, v);
    assert(s2 == s1);
}

/// Changing the value does send again: after a value was recorded, a
/// different value for the same timeline and key makes exactly one call.
pub proof fn lemma_dedup_value_change(
    sent: Map<(u64, u64), AttrValV>,
    tid: u64,
    tok: u64,
    v1: AttrValV,
    v2: AttrValV,
)
    requires
        v1 != v2,
    ensures
        ({
            let (s1, c1) = spec_meta_step(sent, tid, tok, v1);
            let (s2, c2) = spec_meta_step(s1, tid, tok, v2);
            c2 == seq![SinkCallV::SetTimelineMetadata(tok, v2)]
        }),
{
    let (s1, c1) = spec_meta_step(sent, tid, tok, v1);
    assert(s1.contains_key((tid, tok)) && s1[(tid, tok)] == v1);
}

/// All timeline attributes of one event, in order.
pub open spec fn spec_send_tl(
    m: ClientModel,
    tid: u64,
    kvs: Seq<(Seq<u8>, AttrValV)>,
) -> (ClientModel, Seq<SinkCallV>)
    decreases kvs.len(),
{
    if kvs.len() == 0 {
        (m, Seq::empty())
    } else {
        let (m1, c1) = spec_send_tl(m, tid, kvs.drop_last());
        let (tok, keys2, next2, cd) = spec_intern(
            m1.timeline_keys,
            m1.next_token,
            m1.rename_timeline,
            tl_prefix(),
            kvs.last().0,
        );
        let m2 = ClientModel { timeline_keys: keys2, next_token: next2, ..m1 };
        let (sent3, cm) = spec_meta_step(m2.sent, tid, tok, kvs.last().1);
        (ClientModel { sent: sent3, ..m2 }, c1 + cd + cm)
    }
}

/// Interning all event attributes of one event, in order, keeping the
/// token each value will be sent under.
pub open spec fn spec_intern_evs(
    m: ClientModel,
    kvs: Seq<(Seq<u8>, AttrValV)>,
) -> (ClientModel, Seq<SinkCallV>, Seq<(u64, AttrValV)>)
    decreases kvs.len(),
{
    if kvs.len() == 0 {
        (m, Seq::empty(), Seq::empty())
    } else {
        let (m1, c1, t1) = spec_intern_evs(m, kvs.drop_last());
        let (tok, keys2, next2, cd) = spec_intern(
            m1.event_keys,
            m1.next_token,
            m1.rename_event,
            ev_prefix(),
            kvs.last().0,
        );
        let m2 = ClientModel { event_keys: keys2, next_token: next2, ..m1 };
        (m2, c1 + cd, t1.push((tok, kvs.last().1)))
    }
}

/// One whole event: open the timeline if it is not the active one, push
/// deduplicated timeline metadata, intern the event keys, and send the
/// event at its ordering.
pub open spec fn spec_send(
    m: ClientModel,
    tid: u64,
    tkvs: Seq<(Seq<u8>, AttrValV)>,
    ordering: u128,
    ekvs: Seq<(Seq<u8>, AttrValV)>,
) -> (ClientModel, Seq<SinkCallV>) {
    let (m1, c1) = if m.current == Some(tid) {
        (m, Seq::<SinkCallV>::empty())
    } else {
        (ClientModel { current: Some(tid), ..m }, seq![SinkCallV::OpenTimeline(tid)])
    };
    let (m2, c2) = spec_send_tl(m1, tid, tkvs);
    let (m3, c3, toks) = spec_intern_evs(m2, ekvs);
    (m3, c1 + c2 + c3 + seq![SinkCallV::SendEvent(ordering, toks)])
}

/// The interning, renaming and dedup state of one run.
pub struct Client {
    timeline_keys: Vec<(Vec<u8>, u64)>,
    event_keys: Vec<(Vec<u8>, u64)>,
    rename_timeline_attrs: Vec<(Vec<u8>, Vec<u8>)>,
    rename_event_attrs: Vec<(Vec<u8>, Vec<u8>)>,
    sent_timeline_attrs: Vec<((u64, u64), AttrVal)>,
    current_timeline: Option<u64>,
    next_token: u64,
}

impl Client {
    /// The abstract state this value stands for.
    pub closed spec fn model(self) -> ClientModel {
        ClientModel {
            timeline_keys: keys_model(self.timeline_keys@),
            event_keys: keys_model(self.event_keys@),
            rename_timeline: renames_view(self.rename_timeline_attrs@),
            rename_event: renames_view(self.rename_event_attrs@),
            sent: cache_model(self.sent_timeline_attrs@),
            current: self.current_timeline,
            next_token: self.next_token,
        }
    }

    /// A fresh client: nothing interned, nothing sent, no active timeline,
    /// and both rename tables normalized into their scopes.
    pub fn new(rename_timeline_attrs: Vec<AttrKeyRename>, rename_event_attrs: Vec<AttrKeyRename>) -> (r:
        Client)
        ensures
            r.model().timeline_keys == Map::<Seq<u8>, u64>::empty(),
            r.model().event_keys == Map::<Seq<u8>, u64>::empty(),
            r.model().sent == Map::<(u64, u64), AttrValV>::empty(),
            r.model().current is None,
            r.model().next_token == 0,
            r.model().rename_timeline == rename_timeline_attrs@.map_values(
                |a: AttrKeyRename| (norm_key(tl_prefix(), a.original@), norm_key(tl_prefix(), a.new@)),
            ),
            r.model().rename_event == rename_event_attrs@.map_values(
                |a: AttrKeyRename| (norm_key(ev_prefix(), a.original@), norm_key(ev_prefix(), a.new@)),
            ),
    {
        let ghost tgoal = rename_timeline_attrs@.map_values(
            |a: AttrKeyRename| (norm_key(tl_prefix(), a.original@), norm_key(tl_prefix(), a.new@)),
        );
        let ghost egoal = rename_event_attrs@.map_values(
            |a: AttrKeyRename| (norm_key(ev_prefix(), a.original@), norm_key(ev_prefix(), a.new@)),
        );
        let mut rt: Vec<(Vec<u8>, Vec<u8>)> = Vec::new();
        let mut i: usize = 0;
        let mut src_t = rename_timeline_attrs;
        let n_t = src_t.len();
        while i < n_t
            invariant
                i <= n_t == src_t@.len(),
                tgoal == src_t@.map_values(
                    |a: AttrKeyRename| (
                        norm_key(tl_prefix(), a.original@),
                        norm_key(tl_prefix(), a.new@),
                    ),
                ),
                rt@.len() == i,
                renames_view(rt@) == tgoal.take(i as int),
            decreases n_t - i,
        {
            let o = normalize_timeline_key(crate::attr::copy_bytes(&src_t[i].original));
            let w = normalize_timeline_key(crate::attr::copy_bytes(&src_t[i].new));
            let ghost rt0 = rt@;
            let ghost rv0 = renames_view(rt@);
            rt.push((o, w));
            proof {
                assert(rt@ == rt0.push((o, w)));
                assert(renames_view(rt@).len() == i + 1);
                assert forall|m: int| 0 <= m < i + 1 implies renames_view(rt@)[m] == tgoal.take(
                    i as int + 1,
                )[m] by {
                    if m < i {
                        assert(renames_view(rt@)[m] == rv0[m]);
                    } else {
                        assert(renames_view(rt@)[m] == (o@, w@));
                    }
                }
                assert(renames_view(rt@) =~= tgoal.take(i as int + 1));
            }
            i = i + 1;
        }
        let mut re: Vec<(Vec<u8>, Vec<u8>)> = Vec::new();
        let mut j: usize = 0;
        let mut src_e = rename_event_attrs;
        let n_e = src_e.len();
        while j < n_e
            invariant
                j <= n_e == src_e@.len(),
                egoal == src_e@.map_values(
                    |a: AttrKeyRename| (
                        norm_key(ev_prefix(), a.original@),
                        norm_key(ev_prefix(), a.new@),
                    ),
                ),
                re@.len() == j,
                renames_view(re@) == egoal.take(j as int),
            decreases n_e - j,
        {
            let o = normalize_event_key(crate::attr::copy_bytes(&src_e[j].original));
            let w = normalize_event_key(crate::attr::copy_bytes(&src_e[j].new));
            let ghost re0 = re@;
            let ghost rv0 = renames_view(re@);
            re.push((o, w));
            proof {
                assert(re@ == re0.push((o, w)));
                assert(renames_view(re@).len() == j + 1);
                assert forall|m: int| 0 <= m < j + 1 implies renames_view(re@)[m] == egoal.take(
                    j as int + 1,
                )[m] by {
                    if m < j {
                        assert(renames_view(re@)[m] == rv0[m]);
                    } else {
                        assert(renames_view(re@)[m] == (o@, w@));
                    }
                }
                assert(renames_view(re@) =~= egoal.take(j as int + 1));
            }
            j = j + 1;
        }
        proof {
            assert(tgoal.take(tgoal.len() as int) =~= tgoal);
            assert(egoal.take(egoal.len() as int) =~= egoal);
        }
        let r = Client {
            timeline_keys: Vec::new(),
            event_keys: Vec::new(),
            rename_timeline_attrs: rt,
            rename_event_attrs: re,
            sent_timeline_attrs: Vec::new(),
            current_timeline: None,
            next_token: 0,
        };
        proof {
            assert(keys_model(r.timeline_keys@) =~= Map::<Seq<u8>, u64>::empty());
            assert(keys_model(r.event_keys@) =~= Map::<Seq<u8>, u64>::empty());
            assert(cache_model(r.sent_timeline_attrs@) =~= Map::<(u64, u64), AttrValV>::empty());
        }
        r
    }
}

/// A map lookup as an optional value.
pub open spec fn map_opt<K, V>(m: Map<K, V>, k: K) -> Option<V> {
    if m.contains_key(k) {
        Some(m[k])
    } else {
        None
    }
}

fn lookup_key_token(keys: &Vec<(Vec<u8>, u64)>, k: &Vec<u8>) -> (r: Option<u64>)
    ensures
        r == map_opt(keys_model(keys@), k@),
{
    proof {
        assert(keys@.take(keys@.len() as int) =~= keys@);
    }
    let mut j = keys.len();
    while j > 0
        invariant
            j <= keys@.len(),
            map_opt(keys_model(keys@), k@) == map_opt(keys_model(keys@.take(j as int)), k@),
        decreases j,
    {
        j = j - 1;
        proof {
            assert(keys@.take(j as int + 1).drop_last() =~= keys@.take(j as int));
            assert(keys@.take(j as int + 1).last() == keys@[j as int]);
        }
        if crate::attr::bytes_eq(&keys[j].0, k) {
            return Some(keys[j].1);
        }
    }
    proof {
        assert(keys@.take(0) =~= Seq::<(Vec<u8>, u64)>::empty());
    }
    None
}

fn lookup_cache(cache: &Vec<((u64, u64), AttrVal)>, tid: u64, tok: u64) -> (r: Option<AttrVal>)
    ensures
        match r {
            Some(v) => map_opt(cache_model(cache@), (tid, tok)) == Some(v@),
            None => map_opt(cache_model(cache@), (tid, tok)) is None,
        },
{
    proof {
        assert(cache@.take(cache@.len() as int) =~= cache@);
    }
    let mut j = cache.len();
    while j > 0
        invariant
            j <= cache@.len(),
            map_opt(cache_model(cache@), (tid, tok)) == map_opt(
                cache_model(cache@.take(j as int)),
                (tid, tok),
            ),
        decreases j,
    {
        j = j - 1;
        proof {
            assert(cache@.take(j as int + 1).drop_last() =~= cache@.take(j as int));
            assert(cache@.take(j as int + 1).last() == cache@[j as int]);
        }
        if cache[j].0.0 == tid && cache[j].0.1 == tok {
            return Some(cache[j].1.duplicate());
        }
    }
    proof {
        assert(cache@.take(0) =~= Seq::<((u64, u64), AttrVal)>::empty());
    }
    None
}

proof fn lemma_calls_view_push(s: Seq<SinkCall>, c: SinkCall)
    ensures
        calls_view(s.push(c)) == calls_view(s).push(c@),
{
    assert(calls_view(s.push(c)) =~= calls_view(s).push(c@));
}

/// Intern one key in one scope, appending a `DeclareKey` call when the
/// key is new.
fn intern_key(
    keys: &mut Vec<(Vec<u8>, u64)>,
    next_token: &mut u64,
    renames: &Vec<(Vec<u8>, Vec<u8>)>,
    timeline_scope: bool,
    k: &Vec<u8>,
    calls: &mut Vec<SinkCall>,
) -> (tok: u64)
    ensures
        ({
            let si = spec_intern(
                keys_model(old(keys)@),
                *old(next_token),
                renames_view(renames@),
                if timeline_scope {
                    tl_prefix()
                } else {
                    ev_prefix()
                },
                k@,
            );
            &&& tok == si.0
            &&& keys_model(final(keys)@) == si.1
            &&& *final(next_token) == si.2
            &&& calls_view(final(calls)@) == calls_view(old(calls)@) + si.3
            &&& *old(next_token) <= *final(next_token) <= *old(next_token) + 1
        }),
{
    let nk = if timeline_scope {
        normalize_timeline_key(crate::attr::copy_bytes(k))
    } else {
        normalize_event_key(crate::attr::copy_bytes(k))
    };
    let fk = match lookup_rename(renames, &nk) {
        Some(v) => v,
        None => nk,
    };
    match lookup_key_token(keys, &fk) {
        Some(t) => {
            proof {
                assert(calls_view(calls@) =~= calls_view(calls@) + Seq::<SinkCallV>::empty());
            }
            t
        },
        None => {
            let t = *next_token;
            let declared = crate::attr::copy_bytes(&fk);
            let ghost keys0 = keys@;
            keys.push((fk, t));
            if t < u64::MAX {
                *next_token = t + 1;
            }
            let ghost calls0 = calls@;
            calls.push(SinkCall::DeclareKey { token: t, key: declared });
            proof {
                assert(keys@.drop_last() =~= keys0);
                lemma_calls_view_push(calls0, SinkCall::DeclareKey { token: t, key: declared });
                assert(calls_view(calls@) =~= calls_view(calls0) + seq![
                    SinkCallV::DeclareKey(t, declared@),
                ]);
            }
            t
        },
    }
}

/// The mathematical reading of a token-value list.
pub open spec fn toks_view(v: Seq<(u64, AttrVal)>) -> Seq<(u64, AttrValV)> {
    v.map_values(|p: (u64, AttrVal)| (p.0, p.1@))
}

impl Client {
    /// Plan the sink calls for one prepared event: switch timelines if
    /// needed, send only changed timeline metadata, and send the event at
    /// its ordering. The calls come back in the order they must be made.
    #[verifier::rlimit(100)]
    #[verifier::spinoff_prover]
    pub fn send_event_on_timeline(
        &mut self,
        timeline_id: u64,
        timeline_kvs: Vec<(Vec<u8>, AttrVal)>,
        ordering: u128,
        event_kvs: Vec<(Vec<u8>, AttrVal)>,
    ) -> (calls: Vec<SinkCall>)
        ensures
            ({
                let (m2, cs) = spec_send(
                    old(self).model(),
                    timeline_id,
                    crate::flatten::kvs_view(timeline_kvs@),
                    ordering,
                    crate::flatten::kvs_view(event_kvs@),
                );
                final(self).model() == m2 && calls_view(calls@) == cs
            }),
    {
        let ghost m0 = self.model();
        let ghost tkv = crate::flatten::kvs_view(timeline_kvs@);
        let ghost ekv = crate::flatten::kvs_view(event_kvs@);
        let mut calls: Vec<SinkCall> = Vec::new();
        let same = match &self.current_timeline {
            Some(cur) => *cur == timeline_id,
            None => false,
        };
        if !same {
            calls.push(SinkCall::OpenTimeline { timeline_id });
            self.current_timeline = Some(timeline_id);
        }
        let ghost m1 = self.model();
        let ghost c_open = calls_view(calls@);
        proof {
            if m0.current == Some(timeline_id) {
                assert(c_open =~= Seq::<SinkCallV>::empty());
            } else {
                assert(c_open =~= seq![SinkCallV::OpenTimeline(timeline_id)]);
            }
            assert(tkv.take(0) =~= Seq::<(Seq<u8>, AttrValV)>::empty());
        }

        let n_t = timeline_kvs.len();
        let mut i: usize = 0;
        while i < n_t
            invariant
                i <= n_t == timeline_kvs@.len(),
                tkv == crate::flatten::kvs_view(timeline_kvs@),
                ({
                    let (mi, ci) = spec_send_tl(m1, timeline_id, tkv.take(i as int));
                    self.model() == mi && calls_view(calls@) == c_open + ci
                }),
            decreases n_t - i,
        {
            let ghost (mi, ci) = spec_send_tl(m1, timeline_id, tkv.take(i as int));
            proof {
                assert(tkv.take(i as int + 1).drop_last() =~= tkv.take(i as int));
                assert(tkv.take(i as int + 1).last() == tkv[i as int]);
                assert(tkv[i as int] == (timeline_kvs@[i as int].0@, timeline_kvs@[i as int].1@));
            }
            let tok = intern_key(
                &mut self.timeline_keys,
                &mut self.next_token,
                &self.rename_timeline_attrs,
                true,
                &timeline_kvs[i].0,
                &mut calls,
            );
            let ghost m_mid = self.model();
            let send_it: bool = match lookup_cache(&self.sent_timeline_attrs, timeline_id, tok) {
                Some(vold) => !vold.value_eq(&timeline_kvs[i].1),
                None => true,
            };
            if send_it {
                let ghost cache0 = self.sent_timeline_attrs@;
                let v = timeline_kvs[i].1.duplicate();
                self.sent_timeline_attrs.push(((timeline_id, tok), v));
                let ghost calls0 = calls@;
                let v2 = timeline_kvs[i].1.duplicate();
                calls.push(SinkCall::SetTimelineMetadata { token: tok, value: v2 });
                proof {
                    assert(self.sent_timeline_attrs@.drop_last() =~= cache0);
                    lemma_calls_view_push(
                        calls0,
                        SinkCall::SetTimelineMetadata { token: tok, value: v2 },
                    );
                }
            }
            proof {
                let (mi2, ci2) = spec_send_tl(m1, timeline_id, tkv.take(i as int + 1));
                assert(self.model() == mi2);
                assert(calls_view(calls@) =~= c_open + ci2);
            }
            i = i + 1;
        }
        proof {
            assert(tkv.take(n_t as int) =~= tkv);
            assert(ekv.take(0) =~= Seq::<(Seq<u8>, AttrValV)>::empty());
        }
        let ghost m2 = self.model();
        let ghost c_tl = calls_view(calls@);

        let n_e = event_kvs.len();
        let mut toks: Vec<(u64, AttrVal)> = Vec::new();
        let mut j: usize = 0;
        proof {
            assert(toks_view(toks@) =~= Seq::<(u64, AttrValV)>::empty());
        }
        while j < n_e
            invariant
                j <= n_e == event_kvs@.len(),
                ekv == crate::flatten::kvs_view(event_kvs@),
                ({
                    let (mj, cj, tj) = spec_intern_evs(m2, ekv.take(j as int));
                    self.model() == mj && calls_view(calls@) == c_tl + cj && toks_view(toks@)
                        == tj
                }),
            decreases n_e - j,
        {
            proof {
                assert(ekv.take(j as int + 1).drop_last() =~= ekv.take(j as int));
                assert(ekv.take(j as int + 1).last() == ekv[j as int]);
                assert(ekv[j as int] == (event_kvs@[j as int].0@, event_kvs@[j as int].1@));
            }
            let tok = intern_key(
                &mut self.event_keys,
                &mut self.next_token,
                &self.rename_event_attrs,
                false,
                &event_kvs[j].0,
                &mut calls,
            );
            let ghost toks0 = toks@;
            toks.push((tok, event_kvs[j].1.duplicate()));
            proof {
                assert(toks_view(toks@) =~= toks_view(toks0).push(
                    (tok, event_kvs@[j as int].1@),
                ));
                let (mj2, cj2, tj2) = spec_intern_evs(m2, ekv.take(j as int + 1));
                assert(self.model() == mj2);
                assert(calls_view(calls@) =~= c_tl + cj2);
                assert(toks_view(toks@) =~= tj2);
            }
            j = j + 1;
        }
        proof {
            assert(ekv.take(n_e as int) =~= ekv);
        }
        let ghost calls1 = calls@;
        calls.push(SinkCall::SendEvent { ordering, attrs: toks });
        proof {
            lemma_calls_view_push(calls1, SinkCall::SendEvent { ordering, attrs: toks });
            let (mf, cs) = spec_send(m0, timeline_id, tkv, ordering, ekv);
            assert(calls_view(calls@) =~= cs);
        }
        calls
    }
}

/// The metadata updates among a list of planned calls, in order.
pub open spec fn metadata_calls(cs: Seq<SinkCallV>) -> Seq<(u64, AttrValV)>
    decreases cs.len(),
{
    if cs.len() == 0 {
        Seq::empty()
    } else {
        metadata_calls(cs.drop_last()) + (match cs.last() {
            SinkCallV::SetTimelineMetadata(t, v) => seq![(t, v)],
            _ => Seq::empty(),
        })
    }
}

proof fn lemma_mc_concat(a: Seq<SinkCallV>, b: Seq<SinkCallV>)
    ensures
        metadata_calls(a + b) == metadata_calls(a) + metadata_calls(b),
    decreases b.len(),
{
    if b.len() == 0 {
        assert(a + b =~= a);
        assert(metadata_calls(a) + metadata_calls(b) =~= metadata_calls(a));
    } else {
        lemma_mc_concat(a, b.drop_last());
        assert((a + b).drop_last() =~= a + b.drop_last());
        assert((a + b).last() == b.last());
        assert(metadata_calls(a + b) =~= metadata_calls(a) + metadata_calls(b));
    }
}

proof fn lemma_mc_intern(
    keys: Map<Seq<u8>, u64>,
    next: u64,
    renames: Seq<(Seq<u8>, Seq<u8>)>,
    prefix: Seq<u8>,
    k: Seq<u8>,
)
    ensures
        metadata_calls(spec_intern(keys, next, renames, prefix, k).3) == Seq::<(
            u64,
            AttrValV,
        )>::empty(),
{
    let cs = spec_intern(keys, next, renames, prefix, k).3;
    if cs.len() != 0 {
        assert(cs.drop_last() =~= Seq::<SinkCallV>::empty());
        assert(metadata_calls(cs) == metadata_calls(cs.drop_last()) + Seq::<(
            u64,
            AttrValV,
        )>::empty());
    }
    assert(metadata_calls(cs) =~= Seq::<(u64, AttrValV)>::empty());
}

/// Interning event keys touches only the event-key table and the token
/// counter, and never sends metadata.
proof fn lemma_intern_evs_effects(m: ClientModel, kvs: Seq<(Seq<u8>, AttrValV)>)
    ensures
        ({
            let (m2, cs, toks) = spec_intern_evs(m, kvs);
            &&& m2.timeline_keys == m.timeline_keys
            &&& m2.rename_timeline == m.rename_timeline
            &&& m2.sent == m.sent
            &&& m2.current == m.current
            &&& metadata_calls(cs) == Seq::<(u64, AttrValV)>::empty()
        }),
    decreases kvs.len(),
{
    if kvs.len() == 0 {
        assert(metadata_calls(Seq::<SinkCallV>::empty()) =~= Seq::<(u64, AttrValV)>::empty());
    } else {
        lemma_intern_evs_effects(m, kvs.drop_last());
        let (m1, c1, t1) = spec_intern_evs(m, kvs.drop_last());
        lemma_mc_intern(m1.event_keys, m1.next_token, m1.rename_event, ev_prefix(), kvs.last().0);
        let si = spec_intern(m1.event_keys, m1.next_token, m1.rename_event, ev_prefix(), kvs.last().0);
        lemma_mc_concat(c1, si.3);
        assert(metadata_calls(c1 + si.3) =~= Seq::<(u64, AttrValV)>::empty());
    }
}

/// The central dedup invariant: once an event has carried the timeline
/// attribute (k, v) to a timeline, planning any further event that carries
/// the same (k, v) to the same timeline sends no metadata update at all.
pub proof fn lemma_timeline_metadata_sent_once(
    m: ClientModel,
    tid: u64,
    k: Seq<u8>,
    v: AttrValV,
    ord1: u128,
    ekvs1: Seq<(Seq<u8>, AttrValV)>,
    ord2: u128,
    ekvs2: Seq<(Seq<u8>, AttrValV)>,
)
    ensures
        ({
            let (m1, c1) = spec_send(m, tid, seq![(k, v)], ord1, ekvs1);
            let (m2, c2) = spec_send(m1, tid, seq![(k, v)], ord2, ekvs2);
            metadata_calls(c2) == Seq::<(u64, AttrValV)>::empty()
        }),
{
    let tkvs = seq![(k, v)];
    assert(tkvs.drop_last() =~= Seq::<(Seq<u8>, AttrValV)>::empty());
    assert(tkvs.last() == (k, v));

    // the first send records (k, v) under the key's token
    let (ma, ca) = if m.current == Some(tid) {
        (m, Seq::<SinkCallV>::empty())
    } else {
        (ClientModel { current: Some(tid), ..m }, seq![SinkCallV::OpenTimeline(tid)])
    };
    let si = spec_intern(ma.timeline_keys, ma.next_token, ma.rename_timeline, tl_prefix(), k);
    let mb2 = ClientModel { timeline_keys: si.1, next_token: si.2, ..ma };
    let (sent3, cm) = spec_meta_step(mb2.sent, tid, si.0, v);
    let mb = ClientModel { sent: sent3, ..mb2 };
    assert(spec_send_tl(ma, tid, Seq::<(Seq<u8>, AttrValV)>::empty()) == (
        ma,
        Seq::<SinkCallV>::empty(),
    ));
    assert(spec_send_tl(ma, tid, tkvs) == (mb, Seq::<SinkCallV>::empty() + si.3 + cm));
    let nk = norm_key(tl_prefix(), k);
    let fk = match lookup_last(ma.rename_timeline, nk) {
        Some(nk2) => nk2,
        None => nk,
    };
    assert(mb.timeline_keys.contains_key(fk) && mb.timeline_keys[fk] == si.0);
    assert(mb.sent.contains_key((tid, si.0)) && mb.sent[(tid, si.0)] == v);

    lemma_intern_evs_effects(mb, ekvs1);
    let (m1, cc, toks) = spec_intern_evs(mb, ekvs1);
    assert(spec_send(m, tid, tkvs, ord1, ekvs1).0 == m1);
    assert(m1.current == Some(tid));
    assert(m1.rename_timeline == ma.rename_timeline);
    assert(m1.timeline_keys == mb.timeline_keys);
    assert(m1.sent == mb.sent);

    // the second send finds the token and the cached value, and is silent
    let si2 = spec_intern(m1.timeline_keys, m1.next_token, m1.rename_timeline, tl_prefix(), k);
    assert(si2.0 == si.0 && si2.3 == Seq::<SinkCallV>::empty());
    let mb2x = ClientModel { timeline_keys: si2.1, next_token: si2.2, ..m1 };
    let (sent3x, cmx) = spec_meta_step(mb2x.sent, tid, si2.0, v);
    assert(cmx == Seq::<SinkCallV>::empty());
    let mbx = ClientModel { sent: sent3x, ..mb2x };
    assert(spec_send_tl(m1, tid, Seq::<(Seq<u8>, AttrValV)>::empty()) == (
        m1,
        Seq::<SinkCallV>::empty(),
    ));
    assert(spec_send_tl(m1, tid, tkvs) == (mbx, Seq::<SinkCallV>::empty() + si2.3 + cmx));

    lemma_intern_evs_effects(mbx, ekvs2);
    let (m2e, cc2, toks2) = spec_intern_evs(mbx, ekvs2);
    let c2 = spec_send(m1, tid, tkvs, ord2, ekvs2).1;
    let c2_tl = Seq::<SinkCallV>::empty() + si2.3 + cmx;
    let last = seq![SinkCallV::SendEvent(ord2, toks2)];
    assert(c2 == Seq::<SinkCallV>::empty() + c2_tl + cc2 + last);
    lemma_mc_concat(Seq::<SinkCallV>::empty() + c2_tl + cc2, last);
    lemma_mc_concat(Seq::<SinkCallV>::empty() + c2_tl, cc2);
    lemma_mc_concat(Seq::<SinkCallV>::empty(), c2_tl);
    assert(metadata_calls(Seq::<SinkCallV>::empty()) =~= Seq::<(u64, AttrValV)>::empty());
    assert(c2_tl =~= Seq::<SinkCallV>::empty());
    assert(metadata_calls(last) =~= Seq::<(u64, AttrValV)>::empty()) by {
        assert(last.drop_last() =~= Seq::<SinkCallV>::empty());
    }
    assert(metadata_calls(c2) =~= Seq::<(u64, AttrValV)>::empty());
}

} // verus!
