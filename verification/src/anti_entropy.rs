//! Anti-entropy: reconciling the sets of known messages by exchanging digests.
use vstd::prelude::*;

use crate::keyed::{lemma_push_fresh, lemma_take_grow, Key, KeyMap};
use crate::message::{id_views, MessageId};

verus! {

/// The abstract state of an `AntiEntropy` tracker.
pub struct AntiEntropyView {
    /// Known messages and the generation at which each was last recorded.
    pub known: Map<MessageId, u64>,
    /// Messages to request from peers.
    pub missing: Set<MessageId>,
    /// Sync generation counter.
    pub generation: u64,
}

impl AntiEntropyView {
    /// The state after recording `id`.
    pub open spec fn after_record(self, id: MessageId) -> AntiEntropyView {
        AntiEntropyView {
            known: self.known.insert(id, (self.generation + 1) as u64),
            generation: (self.generation + 1) as u64,
            ..self
        }
    }

    /// The ids named in `digest` that this node does not know.
    pub open spec fn missing_from(self, digest: Seq<MessageId>) -> Set<MessageId> {
        digest.to_set().difference(self.known.dom())
    }

    /// The ids of `digest` that this node does not know, in the digest's
    /// order, each at its first occurrence only.
    pub open spec fn missing_in_order(self, digest: Seq<MessageId>) -> Seq<MessageId>
        decreases digest.len(),
    {
        if digest.len() == 0 {
            Seq::empty()
        } else {
            let earlier = self.missing_in_order(digest.drop_last());
            let x = digest.last();
            if !self.known.contains_key(x) && !earlier.contains(x) {
                earlier.push(x)
            } else {
                earlier
            }
        }
    }

    /// The state after recording each id of `ids` in turn.
    pub open spec fn after_record_all(self, ids: Seq<MessageId>) -> AntiEntropyView
        decreases ids.len(),
    {
        if ids.len() == 0 {
            self
        } else {
            self.after_record_all(ids.drop_last()).after_record(ids.last())
        }
    }

    /// What every reachable state keeps: finitely many records, no more
    /// records than generations, and no record newer than the generation.
    pub open spec fn consistent(self) -> bool {
        &&& self.known.dom().finite()
        &&& self.missing.finite()
        &&& self.known.len() <= self.generation
        &&& forall|id: MessageId| #[trigger]
            self.known.contains_key(id) ==> 1 <= self.known[id] <= self.generation
    }
}


/// Recording a sequence of ids makes the node know exactly what it knew
/// before and those ids.
pub proof fn lemma_record_all_known(v: AntiEntropyView, ids: Seq<MessageId>)
    ensures
        v.after_record_all(ids).known.dom() == v.known.dom() + ids.to_set(),
    decreases ids.len(),
{
    if ids.len() == 0 {
        assert(ids.to_set() =~= Set::<MessageId>::empty());
        assert(v.known.dom() + ids.to_set() =~= v.known.dom());
    } else {
        let init = ids.drop_last();
        lemma_record_all_known(v, init);
        assert(init.push(ids.last()) =~= ids);
        init.lemma_push_to_set_commute(ids.last());
        assert(v.after_record_all(ids).known.dom() =~= v.known.dom() + ids.to_set());
    }
}

/// The diff against a peer's digest names exactly the messages that the peer
/// knows and this node does not.
pub proof fn law_diff_is_what_the_peer_knows_more(
    mine: AntiEntropyView,
    theirs: AntiEntropyView,
    digest: Seq<MessageId>,
)
    requires
        digest.to_set() == theirs.known.dom(),
    ensures
        mine.missing_from(digest) == theirs.known.dom().difference(mine.known.dom()),
{
}

/// For a digest without repeats, the ids missing in order are the digest
/// filtered by what this node does not know.
pub proof fn lemma_missing_in_order_filters(v: AntiEntropyView, digest: Seq<MessageId>)
    requires
        digest.no_duplicates(),
    ensures
        v.missing_in_order(digest) == digest.filter(|id: MessageId| !v.known.contains_key(id)),
    decreases digest.len(),
{
    let pred = |id: MessageId| !v.known.contains_key(id);
    if digest.len() > 0 {
        let init = digest.drop_last();
        let x = digest.last();
        assert(init.no_duplicates());
        lemma_missing_in_order_filters(v, init);
        assert(init.push(x) =~= digest);
        init.lemma_filter_push(x, pred);
        if v.missing_in_order(init).contains(x) {
            init.lemma_filter_contains_rev(pred, x);
            let j = choose|j: int| 0 <= j < init.len() && init[j] == x;
            assert(digest[j] == digest[digest.len() - 1]);
        }
    }
}

/// Recording what the diff against a peer's digest names, in any order,
/// leaves this node knowing every message that either side knew:
/// anti-entropy closes the gap.
pub proof fn law_recording_the_diff_reconciles(
    mine: AntiEntropyView,
    theirs: AntiEntropyView,
    digest: Seq<MessageId>,
    diff: Seq<MessageId>,
)
    requires
        digest.to_set() == theirs.known.dom(),
        diff.to_set() == mine.missing_from(digest),
    ensures
        mine.after_record_all(diff).known.dom() == mine.known.dom() + theirs.known.dom(),
{
    lemma_record_all_known(mine, diff);
    assert(mine.known.dom() + theirs.known.dom().difference(mine.known.dom()) =~= mine.known.dom()
        + theirs.known.dom());
}

/// Recording a message stamps exactly that message with the new generation;
/// every other record and the missing set stay as they were.
pub proof fn law_record_touches_only_the_message(v: AntiEntropyView, id: MessageId, other: MessageId)
    requires
        v.generation < u64::MAX,
    ensures
        v.after_record(id).known.contains_key(id),
        v.after_record(id).known[id] == v.generation + 1,
        v.after_record(id).generation == v.generation + 1,
        v.after_record(id).missing == v.missing,
        other != id ==> v.after_record(id).known.contains_key(other) == v.known.contains_key(other),
        other != id && v.known.contains_key(other) ==> v.after_record(id).known[other]
            == v.known[other],
{
}

/// Recording a message stamps it with a new generation, later than every
/// other record, and keeps the tracker consistent.
pub proof fn law_record_is_newest(v: AntiEntropyView, id: MessageId, other: MessageId)
    requires
        v.consistent(),
        v.generation < u64::MAX,
    ensures
        v.after_record(id).consistent(),
        v.after_record(id).known[id] == v.generation + 1,
        v.known.contains_key(other) && other != id ==> v.after_record(id).known[other]
            < v.after_record(id).known[id],
{
}

/// One call that changes an anti-entropy tracker, as its abstract state sees it.
pub enum AntiEntropyStep {
    Record(MessageId),
    RequestMissing(Seq<MessageId>),
    DrainMissing,
}

/// How many of the steps record a message.
pub open spec fn record_count(steps: Seq<AntiEntropyStep>) -> nat
    decreases steps.len(),
{
    if steps.len() == 0 {
        0
    } else {
        record_count(steps.drop_last()) + if steps.last() is Record {
            1nat
        } else {
            0nat
        }
    }
}

/// The ids that the steps record.
pub open spec fn recorded_ids(steps: Seq<AntiEntropyStep>) -> Set<MessageId> {
    Set::new(
        |id: MessageId| exists|i: int| 0 <= i < steps.len() && steps[i] == AntiEntropyStep::Record(id),
    )
}

impl AntiEntropyView {
    /// The state after one step.
    pub open spec fn after_step(self, s: AntiEntropyStep) -> AntiEntropyView {
        match s {
            AntiEntropyStep::Record(id) => self.after_record(id),
            AntiEntropyStep::RequestMissing(ids) => AntiEntropyView {
                missing: self.missing + ids.to_set(),
                ..self
            },
            AntiEntropyStep::DrainMissing => AntiEntropyView { missing: Set::empty(), ..self },
        }
    }

    /// The state after the steps, in order.
    pub open spec fn after_steps(self, steps: Seq<AntiEntropyStep>) -> AntiEntropyView
        decreases steps.len(),
    {
        if steps.len() == 0 {
            self
        } else {
            self.after_steps(steps.drop_last()).after_step(steps.last())
        }
    }
}

/// After any sequence of calls, the generation has grown by exactly the
/// number of records (a repeated record counts too), and the tracker knows
/// exactly what it knew before and the recorded ids.
pub proof fn law_generation_counts_records(v: AntiEntropyView, steps: Seq<AntiEntropyStep>)
    requires
        v.generation + steps.len() <= u64::MAX,
    ensures
        v.after_steps(steps).generation == v.generation + record_count(steps),
        record_count(steps) <= steps.len(),
        v.after_steps(steps).known.dom() == v.known.dom() + recorded_ids(steps),
    decreases steps.len(),
{
    if steps.len() == 0 {
        assert(recorded_ids(steps) =~= Set::empty());
        assert(v.known.dom() + recorded_ids(steps) =~= v.known.dom());
    } else {
        let init = steps.drop_last();
        let last = steps.last();
        law_generation_counts_records(v, init);
        assert forall|id: MessageId| #[trigger]
            recorded_ids(steps).contains(id) <==> (recorded_ids(init).contains(id) || last
                == AntiEntropyStep::Record(id)) by {
            if recorded_ids(steps).contains(id) {
                let i = choose|i: int|
                    0 <= i < steps.len() && steps[i] == AntiEntropyStep::Record(id);
                if i < init.len() {
                    assert(init[i] == AntiEntropyStep::Record(id));
                }
            }
            if recorded_ids(init).contains(id) {
                let i = choose|i: int|
                    0 <= i < init.len() && init[i] == AntiEntropyStep::Record(id);
                assert(steps[i] == AntiEntropyStep::Record(id));
            }
            if last == AntiEntropyStep::Record(id) {
                assert(steps[steps.len() - 1] == AntiEntropyStep::Record(id));
            }
        }
        assert(v.after_steps(steps).known.dom() =~= v.known.dom() + recorded_ids(steps));
    }
}

/// Any sequence of calls keeps the tracker consistent.
pub proof fn law_anti_entropy_steps_keep_consistent(v: AntiEntropyView, steps: Seq<AntiEntropyStep>)
    requires
        v.consistent(),
        v.generation + steps.len() <= u64::MAX,
    ensures
        v.after_steps(steps).consistent(),
    decreases steps.len(),
{
    if steps.len() > 0 {
        let init = steps.drop_last();
        law_anti_entropy_steps_keep_consistent(v, init);
        law_generation_counts_records(v, init);
        let u = v.after_steps(init);
        match steps.last() {
            AntiEntropyStep::Record(id) => law_record_is_newest(u, id, id),
            AntiEntropyStep::RequestMissing(ids) => {
                assert(u.after_step(steps.last()).missing.finite());
            },
            AntiEntropyStep::DrainMissing => {},
        }
    }
}

/// Anti-entropy mechanism for healing missed messages via periodic sync.
///
/// Nodes exchange digests (the ids of what they know) and request what the
/// other side knows and they do not.
pub struct AntiEntropy {
    known: KeyMap<(String, u64), u64>,
    missing: KeyMap<(String, u64), ()>,
    generation: u64,
}

impl View for AntiEntropy {
    type V = AntiEntropyView;

    closed spec fn view(&self) -> AntiEntropyView {
        AntiEntropyView {
            known: self.known@,
            missing: self.missing@.dom(),
            generation: self.generation,
        }
    }
}

impl AntiEntropy {
    pub closed spec fn wf(&self) -> bool {
        &&& self.known.wf()
        &&& self.missing.wf()
        &&& forall|id: MessageId| #[trigger]
            self.known@.contains_key(id) ==> 1 <= self.known@[id] <= self.generation
        &&& self.known@.len() <= self.generation
    }

    /// The abstract state of a valid tracker is consistent.
    pub proof fn lemma_consistent(&self)
        requires
            self.wf(),
        ensures
            self@.consistent(),
    {
        self.known.lemma_keys();
        self.missing.lemma_keys();
    }

    /// Create a new anti-entropy tracker.
    pub fn new() -> (ae: Self)
        ensures
            ae.wf(),
            ae@ == (AntiEntropyView { known: Map::empty(), missing: Set::empty(), generation: 0 }),
    {
        let ae = AntiEntropy { known: KeyMap::new(), missing: KeyMap::new(), generation: 0 };
        assert(ae@.missing =~= Set::empty());
        ae
    }

    /// Record that we've seen a message.
    pub fn record(&mut self, origin: &str, sequence: u64)
        requires
            old(self).wf(),
            old(self)@.generation < u64::MAX,
        ensures
            final(self).wf(),
            final(self)@ == old(self)@.after_record((origin@, sequence)),
    {
        proof {
            self.known.lemma_keys();
        }
        self.generation = self.generation + 1;
        self.known.insert((origin.to_owned(), sequence), self.generation);
    }

    /// Get a digest of all known messages for exchange: each known id once,
    /// in no promised order.
    pub fn digest(&self) -> (d: Vec<(String, u64)>)
        requires
            self.wf(),
        ensures
            id_views(d@).no_duplicates(),
            id_views(d@).to_set() == self@.known.dom(),
    {
        proof {
            self.known.lemma_keys();
        }
        let d = self.known.copy_keys();
        assert(id_views(d@) =~= self.known.keys());
        d
    }

    /// Compute what we're missing compared to a peer's digest: the set of
    /// `(origin, sequence)` pairs of the digest that we do not know, each
    /// once, in the digest's order of first occurrence.
    pub fn diff(&self, peer_digest: &[(String, u64)]) -> (r: Vec<(String, u64)>)
        requires
            self.wf(),
        ensures
            id_views(r@) == self@.missing_in_order(id_views(peer_digest@)),
            id_views(r@).no_duplicates(),
            id_views(r@).to_set() == self@.missing_from(id_views(peer_digest@)),
            id_views(peer_digest@).no_duplicates() ==> id_views(r@) == id_views(peer_digest@).filter(
                |id: MessageId| !self@.known.contains_key(id),
            ),
    {
        let ghost ds = id_views(peer_digest@);
        let mut r: Vec<(String, u64)> = Vec::new();
        let mut picked: KeyMap<(String, u64), ()> = KeyMap::new();
        let mut i: usize = 0;
        while i < peer_digest.len()
            invariant
                self.wf(),
                picked.wf(),
                ds == id_views(peer_digest@),
                i <= peer_digest@.len(),
                id_views(r@) == self@.missing_in_order(ds.take(i as int)),
                id_views(r@).no_duplicates(),
                forall|id: MessageId| #[trigger]
                    picked@.contains_key(id) <==> id_views(r@).contains(id),
                forall|id: MessageId| #[trigger]
                    id_views(r@).contains(id) <==> (ds.take(i as int).contains(id)
                        && !self@.known.contains_key(id)),
            decreases peer_digest@.len() - i,
        {
            let ghost x = ds[i as int];
            let ghost rv = id_views(r@);
            proof {
                lemma_take_grow(ds, i as int);
                assert(ds.take(i as int + 1).drop_last() =~= ds.take(i as int));
            }
            let id = &peer_digest[i];
            if !self.known.contains_key(id) && !picked.contains_key(id) {
                r.push(id.copy_key());
                picked.insert(id.copy_key(), ());
                proof {
                    assert(id_views(r@) =~= rv.push(x));
                    lemma_push_fresh(rv, x);
                }
            }
            i += 1;
        }
        assert(ds.take(i as int) =~= ds);
        assert(id_views(r@).to_set() =~= self@.missing_from(ds));
        proof {
            if ds.no_duplicates() {
                lemma_missing_in_order_filters(self@, ds);
            }
        }
        r
    }

    /// Request missing messages.
    pub fn request_missing(&mut self, missing: Vec<(String, u64)>)
        requires
            old(self).wf(),
        ensures
            final(self).wf(),
            final(self)@ == (AntiEntropyView {
                missing: old(self)@.missing + id_views(missing@).to_set(),
                ..old(self)@
            }),
    {
        let ghost ms = id_views(missing@);
        let mut i: usize = 0;
        while i < missing.len()
            invariant
                self.known == old(self).known,
                self.generation == old(self).generation,
                self.missing.wf(),
                ms == id_views(missing@),
                i <= missing@.len(),
                forall|id: MessageId| #[trigger]
                    self.missing@.contains_key(id) <==> (old(self)@.missing.contains(id)
                        || ms.take(i as int).contains(id)),
            decreases missing@.len() - i,
        {
            proof {
                lemma_take_grow(ms, i as int);
            }
            self.missing.insert(missing[i].copy_key(), ());
            i += 1;
        }
        assert(ms.take(i as int) =~= ms);
        assert(self@.missing =~= old(self)@.missing + ms.to_set());
    }

    /// Drain the set of missing messages we need to request: each once, in
    /// no promised order.
    pub fn drain_missing(&mut self) -> (r: Vec<(String, u64)>)
        requires
            old(self).wf(),
        ensures
            final(self).wf(),
            id_views(r@).no_duplicates(),
            id_views(r@).to_set() == old(self)@.missing,
            final(self)@ == (AntiEntropyView { missing: Set::empty(), ..old(self)@ }),
    {
        proof {
            self.missing.lemma_keys();
        }
        let r = self.missing.take_keys();
        assert(id_views(r@) =~= old(self).missing.keys());
        assert(self@.missing =~= Set::empty());
        r
    }

    /// Get the current generation number.
    pub fn generation(&self) -> (g: u64)
        ensures
            g == self@.generation,
    {
        self.generation
    }

    /// Number of known messages.
    pub fn known_count(&self) -> (n: usize)
        requires
            self.wf(),
        ensures
            n == self@.known.len(),
    {
        self.known.len()
    }

    /// Number of pending missing requests.
    pub fn missing_count(&self) -> (n: usize)
        requires
            self.wf(),
        ensures
            n == self@.missing.len(),
    {
        proof {
            self.missing.lemma_keys();
        }
        self.missing.len()
    }
}

impl Default for AntiEntropy {
    fn default() -> (s: Self)
        ensures
            s.wf(),
            s@ == (AntiEntropyView { known: Map::empty(), missing: Set::empty(), generation: 0 }),
    {
        Self::new()
    }
}

} // verus!
