//! Analysis cache: memoizes classifier output keyed by the
//! whole-document fingerprint, and guarantees at most one in-flight
//! classification pass per fingerprint.
//!
//! The cache is an explicitly owned object, created by its holder
//! and handed in where needed, never ambient global state. The
//! caller that receives `Compute` runs the one classification pass
//! and stores its result with `complete`; concurrent callers for the
//! same fingerprint receive `Wait` (and later reuse the stored
//! result), never a second `Compute`.

use vstd::prelude::*;

use crate::analyzer::PdfAnalysis;

verus! {

/// A cache slot: a pass is running, or its result is stored whole.
/// A slot never holds a partial result: `Ready` carries the complete
/// analysis by construction.
pub enum CacheSlot {
    InFlight,
    Ready(PdfAnalysis),
}

/// What a caller that announces an analysis should do.
#[derive(PartialEq, Eq, Structural, Clone, Copy, Debug)]
pub enum CacheDecision {
    Compute,
    Wait,
    Reuse,
}

pub struct AnalysisCache {
    entries: Vec<(String, CacheSlot)>,
}

/// The slot stored under a fingerprint: the first entry with that
/// key (later entries are shadowed).
pub open spec fn spec_cache_get(entries: Seq<(String, CacheSlot)>, k: Seq<char>) -> Option<
    CacheSlot,
>
    decreases entries.len(),
{
    if entries.len() == 0 {
        None
    } else if entries[0].0@ == k {
        Some(entries[0].1)
    } else {
        spec_cache_get(entries.drop_first(), k)
    }
}

/// The transition `begin` makes: the decision says exactly what the
/// slot held, a missing slot becomes `InFlight`, and no other key's
/// slot changes.
pub open spec fn begin_transition(
    pre: Seq<(String, CacheSlot)>,
    post: Seq<(String, CacheSlot)>,
    k: Seq<char>,
    d: CacheDecision,
) -> bool {
    &&& match d {
        CacheDecision::Compute => spec_cache_get(pre, k) is None && spec_cache_get(post, k)
            == Some(CacheSlot::InFlight),
        CacheDecision::Wait => spec_cache_get(pre, k) == Some(CacheSlot::InFlight) && post == pre,
        CacheDecision::Reuse => (spec_cache_get(pre, k) matches Some(CacheSlot::Ready(_))) && post
            == pre,
    }
    &&& forall|k2: Seq<char>| k2 != k ==> spec_cache_get(post, k2) == spec_cache_get(pre, k2)
}

impl AnalysisCache {
    pub closed spec fn view_entries(self) -> Seq<(String, CacheSlot)> {
        self.entries@
    }

    pub fn new() -> (r: AnalysisCache)
        ensures
            r.view_entries().len() == 0,
    {
        AnalysisCache { entries: Vec::new() }
    }

    fn find(&self, key: &String) -> (r: Option<usize>)
        ensures
            match r {
                Some(i) => i < self.entries@.len() && self.entries@[i as int].0@ == key@
                    && spec_cache_get(self.entries@, key@) == Some(self.entries@[i as int].1)
                    && (forall|j: int| 0 <= j < i ==> self.entries@[j].0@ != key@),
                None => spec_cache_get(self.entries@, key@) is None,
            },
    {
        let mut i: usize = 0;
        proof {
            assert(self.entries@.skip(0) =~= self.entries@);
        }
        while i < self.entries.len()
            invariant
                0 <= i <= self.entries@.len(),
                forall|j: int| 0 <= j < i ==> self.entries@[j].0@ != key@,
                spec_cache_get(self.entries@, key@) == spec_cache_get(
                    self.entries@.skip(i as int),
                    key@,
                ),
            decreases self.entries@.len() - i,
        {
            proof {
                assert(self.entries@.skip(i as int).drop_first() =~= self.entries@.skip(i + 1));
                assert(self.entries@.skip(i as int)[0] == self.entries@[i as int]);
            }
            if self.entries[i].0.eq(key) {
                return Some(i);
            }
            i = i + 1;
        }
        assert(self.entries@.skip(i as int).len() == 0);
        None
    }

    /// Announces an analysis for `key`. `Compute` is handed out only
    /// when no slot exists, and then marks the pass as in flight, so
    /// a later `begin` for the same key cannot get `Compute` again
    /// until the cache is torn down.
    pub fn begin(&mut self, key: &String) -> (d: CacheDecision)
        ensures
            begin_transition(old(self).view_entries(), final(self).view_entries(), key@, d),
    {
        let found = self.find(key);
        match found {
            Some(i) => {
                match &self.entries[i].1 {
                    CacheSlot::InFlight => CacheDecision::Wait,
                    CacheSlot::Ready(_) => CacheDecision::Reuse,
                }
            },
            None => {
                let ghost pre = self.entries@;
                let k = key.clone();
                let ghost kk = k;
                self.entries.insert(0, (k, CacheSlot::InFlight));
                proof {
                    assert(self.entries@.drop_first() =~= pre);
                    lemma_cache_get_insert_front(pre, kk, CacheSlot::InFlight);
                    assert(seq![(kk, CacheSlot::InFlight)] + pre =~= self.entries@);
                }
                CacheDecision::Compute
            },
        }
    }

    /// Stores the finished analysis for `key`. The stored slot is
    /// the whole result; every later lookup of `key` yields exactly
    /// this value, and no other key's slot changes.
    pub fn complete(&mut self, key: &String, analysis: PdfAnalysis)
        ensures
            spec_cache_get(final(self).view_entries(), key@) == Some(
                CacheSlot::Ready(analysis),
            ),
            forall|k2: Seq<char>| k2 != key@ ==> spec_cache_get(
                final(self).view_entries(),
                k2,
            ) == spec_cache_get(old(self).view_entries(), k2),
    {
        let ghost pre = self.entries@;
        let k = key.clone();
        let ghost kk = k;
        let ghost slot_g = CacheSlot::Ready(analysis);
        self.entries.insert(0, (k, CacheSlot::Ready(analysis)));
        proof {
            assert(self.entries@.drop_first() =~= pre);
            lemma_cache_get_insert_front(pre, kk, slot_g);
            assert(seq![(kk, slot_g)] + pre =~= self.entries@);
        }
    }

    /// The stored result for `key`, if its pass has completed.
    pub fn get_ready(&self, key: &String) -> (r: Option<&PdfAnalysis>)
        ensures
            match r {
                Some(a) => spec_cache_get(self.view_entries(), key@) == Some(
                    CacheSlot::Ready(*a),
                ),
                None => !(spec_cache_get(self.view_entries(), key@) matches Some(
                    CacheSlot::Ready(_)
                )),
            },
    {
        match self.find(key) {
            Some(i) => match &self.entries[i].1 {
                CacheSlot::Ready(a) => Some(a),
                CacheSlot::InFlight => None,
            },
            None => None,
        }
    }
}

/// Inserting a pair at the front shadows only its own key.
proof fn lemma_cache_get_insert_front(pre: Seq<(String, CacheSlot)>, key: String, slot: CacheSlot)
    ensures
        spec_cache_get(seq![(key, slot)] + pre, key@) == Some(slot),
        forall|k2: Seq<char>| k2 != key@ ==> spec_cache_get(seq![(key, slot)] + pre, k2)
            == spec_cache_get(pre, k2),
{
    assert((seq![(key, slot)] + pre)[0] == (key, slot));
    assert((seq![(key, slot)] + pre).drop_first() =~= pre);
}

/// At most one in-flight classification pass per fingerprint: when
/// one `begin` for a key has been told to compute, a second `begin`
/// for the same key on the resulting cache is never told to compute
/// again.
pub proof fn lemma_single_flight(
    c0: Seq<(String, CacheSlot)>,
    c1: Seq<(String, CacheSlot)>,
    c2: Seq<(String, CacheSlot)>,
    k: Seq<char>,
    d1: CacheDecision,
    d2: CacheDecision,
)
    requires
        begin_transition(c0, c1, k, d1),
        begin_transition(c1, c2, k, d2),
        d1 == CacheDecision::Compute,
    ensures
        d2 != CacheDecision::Compute,
{
}

/// Callers that reuse a stored result all see the same one: the
/// stored slot for a key is a single value of the cache state.
pub proof fn lemma_identical_results(
    c: Seq<(String, CacheSlot)>,
    k: Seq<char>,
    a1: PdfAnalysis,
    a2: PdfAnalysis,
)
    requires
        spec_cache_get(c, k) == Some(CacheSlot::Ready(a1)),
        spec_cache_get(c, k) == Some(CacheSlot::Ready(a2)),
    ensures
        a1 == a2,
{
}

} // verus!
