//! The timeline identity registry: a process-lifetime mapping from a
//! timeline-identifying signature — the (key, value) pair that determined a
//! record's timeline — to a timeline identifier. An identifier is allocated
//! once per distinct signature and never changes for the rest of the run;
//! the caller translates identifiers to whatever the sink uses.

use vstd::prelude::*;

use crate::attr::{bytes_eq, AttrVal, AttrValV};

verus! {

/// The mathematical reading of a stored signature.
pub open spec fn sig_view(p: (Vec<u8>, AttrVal)) -> (Seq<u8>, AttrValV) {
    (p.0@, p.1@)
}

/// Signature-to-identifier registry. The identifier of a signature is its
/// position in arrival order.
pub struct TimelineRegistry {
    entries: Vec<(Vec<u8>, AttrVal)>,
}

impl TimelineRegistry {
    /// All registered signatures, in allocation order: the signature with
    /// identifier `i` sits at position `i`.
    pub closed spec fn sigs(self) -> Seq<(Seq<u8>, AttrValV)> {
        self.entries@.map_values(|p: (Vec<u8>, AttrVal)| sig_view(p))
    }

    /// No signature is registered twice.
    pub closed spec fn wf(self) -> bool {
        forall|i: int, j: int|
            0 <= i < j < self.sigs().len() ==> self.sigs()[i] != self.sigs()[j]
    }

    /// An empty registry.
    pub fn new() -> (r: TimelineRegistry)
        ensures
            r.wf(),
            r.sigs().len() == 0,
    {
        let r = TimelineRegistry { entries: Vec::new() };
        proof {
            assert(r.sigs() =~= Seq::<(Seq<u8>, AttrValV)>::empty());
        }
        r
    }

    /// How many distinct timelines have been seen.
    pub fn len(&self) -> (r: usize)
        ensures
            r == self.sigs().len(),
    {
        self.entries.len()
    }

    /// The identifier for a signature: the one it already has, or a fresh
    /// one — the next position — if the signature is new.
    pub fn resolve_or_create(&mut self, key: &Vec<u8>, val: &AttrVal) -> (id: u64)
        requires
            old(self).wf(),
            old(self).sigs().len() < 0xFFFF_FFFF_FFFF_FFFFu64,
        ensures
            final(self).wf(),
            id < final(self).sigs().len(),
            final(self).sigs()[id as int] == (key@, val@),
            (exists|i: int| 0 <= i < old(self).sigs().len() && old(self).sigs()[i] == (key@, val@))
                ==> *final(self) == *old(self),
            !(exists|i: int|
                0 <= i < old(self).sigs().len() && old(self).sigs()[i] == (key@, val@)) ==> {
                &&& final(self).sigs() == old(self).sigs().push((key@, val@))
                &&& id == old(self).sigs().len()
            },
    {
        let n = self.entries.len();
        let mut i: usize = 0;
        while i < n
            invariant
                i <= n,
                n == self.entries@.len(),
                *self == *old(self),
                self.wf(),
                forall|m: int| 0 <= m < i ==> self.sigs()[m] != (key@, val@),
            decreases n - i,
        {
            if bytes_eq(&self.entries[i].0, key) && self.entries[i].1.value_eq(val) {
                assert(self.sigs()[i as int] == (key@, val@));
                return i as u64;
            }
            i = i + 1;
        }
        let ghost old_sigs = self.sigs();
        self.entries.push((crate::attr::copy_bytes(key), val.duplicate()));
        proof {
            assert(self.sigs() =~= old_sigs.push((key@, val@)));
        }
        (self.entries.len() - 1) as u64
    }
}

/// Identifiers follow signatures exactly: two records whose signatures
/// agree resolve to the same identifier, and two whose signatures differ
/// resolve to different ones.
pub proof fn lemma_signature_determines_id(
    r: TimelineRegistry,
    i: int,
    j: int,
)
    requires
        r.wf(),
        0 <= i < r.sigs().len(),
        0 <= j < r.sigs().len(),
    ensures
        r.sigs()[i] == r.sigs()[j] ==> i == j,
        r.sigs()[i] != r.sigs()[j] ==> i != j,
{
}

/// The position of a signature among the registered ones: the first entry
/// equal to it.
pub open spec fn sig_index(sigs: Seq<(Seq<u8>, AttrValV)>, sig: (Seq<u8>, AttrValV)) -> int
    decreases sigs.len(),
{
    if sigs.len() == 0 {
        0
    } else if sigs.first() == sig {
        0
    } else {
        1 + sig_index(sigs.drop_first(), sig)
    }
}

/// What resolving a signature does at the model level: a known signature
/// keeps its position as its identifier; a new one is appended and gets
/// the next position.
pub open spec fn spec_resolve_id(
    sigs: Seq<(Seq<u8>, AttrValV)>,
    sig: (Seq<u8>, AttrValV),
) -> (u64, Seq<(Seq<u8>, AttrValV)>) {
    if sigs.contains(sig) {
        (sig_index(sigs, sig) as u64, sigs)
    } else {
        (sigs.len() as u64, sigs.push(sig))
    }
}

proof fn lemma_sig_index_at(sigs: Seq<(Seq<u8>, AttrValV)>, sig: (Seq<u8>, AttrValV), i: int)
    requires
        forall|a: int, b: int| 0 <= a < b < sigs.len() ==> sigs[a] != sigs[b],
        0 <= i < sigs.len(),
        sigs[i] == sig,
    ensures
        sig_index(sigs, sig) == i,
    decreases sigs.len(),
{
    if sigs.first() == sig {
        assert(i == 0);
    } else {
        assert(i > 0);
        let rest = sigs.drop_first();
        assert(forall|a: int, b: int| 0 <= a < b < rest.len() ==> rest[a] != rest[b]) by {
            assert(forall|a: int| 0 <= a < rest.len() ==> rest[a] == sigs[a + 1]);
        }
        assert(rest[i - 1] == sig);
        lemma_sig_index_at(rest, sig, i - 1);
    }
}

/// In a well-formed registry, any position holding a signature is the
/// position `sig_index` names.
pub proof fn lemma_id_is_sig_index(
    r: TimelineRegistry,
    sig: (Seq<u8>, AttrValV),
    i: int,
)
    requires
        r.wf(),
        0 <= i < r.sigs().len(),
        r.sigs()[i] == sig,
    ensures
        sig_index(r.sigs(), sig) == i,
{
    lemma_sig_index_at(r.sigs(), sig, i);
}

} // verus!
