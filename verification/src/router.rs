//! Fan-out routing with deduplication by message id.
use vstd::prelude::*;

use std::collections::VecDeque;

use crate::keyed::KeyMap;
use crate::message::{message_views, GossipMessage, MessageId, MessageView};

verus! {

/// The abstract state of a `GossipRouter`.
pub struct RouterView {
    pub node_id: Seq<char>,
    pub fanout: usize,
    /// Ids of the messages already broadcast or received.
    pub seen: Set<MessageId>,
    /// Messages queued for delivery, oldest first.
    pub pending: Seq<MessageView>,
    pub forwarded_count: u64,
}

/// The number of peers a new broadcast goes to when `seen_before` messages
/// were seen before it: the fan-out, at most the number of other messages
/// seen, and at least one.
pub open spec fn broadcast_width(fanout: usize, seen_before: nat) -> usize {
    let capped = if seen_before < fanout { seen_before as usize } else { fanout };
    if capped < 1 { 1 } else { capped }
}

impl RouterView {
    /// The state and answer after broadcasting `m`.
    pub open spec fn after_broadcast(self, m: MessageView) -> (RouterView, usize) {
        if self.seen.contains(m.id()) {
            (self, 0)
        } else {
            (
                RouterView {
                    seen: self.seen.insert(m.id()),
                    pending: self.pending.push(m),
                    forwarded_count: (self.forwarded_count + 1) as u64,
                    ..self
                },
                broadcast_width(self.fanout, self.seen.len()),
            )
        }
    }

    /// The state and answer after receiving `m` (before its hop).
    pub open spec fn after_receive(self, m: MessageView) -> (RouterView, bool) {
        if self.seen.contains(m.id()) {
            (self, false)
        } else if m.ttl > 0 {
            (
                RouterView {
                    seen: self.seen.insert(m.id()),
                    pending: self.pending.push(m.hopped()),
                    forwarded_count: (self.forwarded_count + 1) as u64,
                    ..self
                },
                true,
            )
        } else {
            (RouterView { seen: self.seen.insert(m.id()), ..self }, true)
        }
    }

    /// What every reachable state keeps: finitely many seen ids, a fan-out of
    /// at least one, every queued message already seen, no fewer forwards than
    /// queued messages, and no more forwards than seen ids.
    pub open spec fn consistent(self) -> bool {
        &&& self.seen.finite()
        &&& self.forwarded_count <= self.seen.len()
        &&& self.fanout >= 1
        &&& forall|i: int|
            0 <= i < self.pending.len() ==> self.seen.contains(#[trigger] self.pending[i].id())
        &&& self.pending.len() <= self.forwarded_count
    }
}


/// A message that was broadcast or received is refused afterwards, whatever
/// its payload or hop count: broadcasting it again answers 0 and receiving it
/// again answers false, and neither changes the router.
pub proof fn law_seen_message_is_refused(v: RouterView, m: MessageView, again: MessageView)
    requires
        again.id() == m.id(),
    ensures
        v.after_broadcast(m).0.after_broadcast(again) == (v.after_broadcast(m).0, 0usize),
        v.after_broadcast(m).0.after_receive(again) == (v.after_broadcast(m).0, false),
        v.after_receive(m).0.after_broadcast(again) == (v.after_receive(m).0, 0usize),
        v.after_receive(m).0.after_receive(again) == (v.after_receive(m).0, false),
{
}

/// Every message handled, by broadcast or by receive, is seen afterwards,
/// and nothing else becomes seen.
pub proof fn law_seen_records_every_handled_id(v: RouterView, m: MessageView)
    ensures
        v.after_broadcast(m).0.seen == v.seen.insert(m.id()),
        v.after_receive(m).0.seen == v.seen.insert(m.id()),
{
    if v.seen.contains(m.id()) {
        assert(v.seen.insert(m.id()) =~= v.seen);
    }
}

/// A broadcast of an unseen message queues exactly that message, with its
/// origin, payload, hop count and sequence number, behind what was queued.
pub proof fn law_broadcast_queues_the_message(v: RouterView, m: MessageView)
    requires
        !v.seen.contains(m.id()),
        v.forwarded_count < u64::MAX,
    ensures
        v.after_broadcast(m).0.pending.len() == v.pending.len() + 1,
        v.after_broadcast(m).0.pending.take(v.pending.len() as int) == v.pending,
        v.after_broadcast(m).0.pending.last().origin == m.origin,
        v.after_broadcast(m).0.pending.last().payload == m.payload,
        v.after_broadcast(m).0.pending.last().ttl == m.ttl,
        v.after_broadcast(m).0.pending.last().sequence == m.sequence,
        v.after_broadcast(m).0.forwarded_count == v.forwarded_count + 1,
        v.after_broadcast(m).0.fanout == v.fanout,
        v.after_broadcast(m).0.node_id == v.node_id,
        v.after_broadcast(m).1 as int == ({
            let capped: int = if (v.seen.len() as int) < (v.fanout as int) {
                v.seen.len() as int
            } else {
                v.fanout as int
            };
            if capped < 1 { 1int } else { capped }
        }),
{
    assert(v.after_broadcast(m).0.pending.take(v.pending.len() as int) =~= v.pending);
}

/// A receive of an unseen message with hops left queues that message with
/// one hop fewer and the same origin, payload and sequence number, behind what
/// was queued.
pub proof fn law_receive_queues_the_message(v: RouterView, m: MessageView)
    requires
        !v.seen.contains(m.id()),
        v.forwarded_count < u64::MAX,
        m.ttl > 0,
    ensures
        v.after_receive(m).0.pending.len() == v.pending.len() + 1,
        v.after_receive(m).0.pending.take(v.pending.len() as int) == v.pending,
        v.after_receive(m).0.pending.last().origin == m.origin,
        v.after_receive(m).0.pending.last().payload == m.payload,
        v.after_receive(m).0.pending.last().ttl == m.ttl - 1,
        v.after_receive(m).0.pending.last().sequence == m.sequence,
        v.after_receive(m).0.forwarded_count == v.forwarded_count + 1,
{
    assert(v.after_receive(m).0.pending.take(v.pending.len() as int) =~= v.pending);
}

/// A fresh broadcast goes to at least one peer and to no more than the fan-out.
pub proof fn law_broadcast_width_within_fanout(v: RouterView, m: MessageView)
    requires
        v.consistent(),
        !v.seen.contains(m.id()),
    ensures
        1 <= v.after_broadcast(m).1 <= v.fanout,
{
}

/// A fresh message is forwarded once, with one hop fewer, exactly when it
/// has hops left; an expired one is only marked as seen.
pub proof fn law_receive_forwards_while_alive(v: RouterView, m: MessageView)
    requires
        !v.seen.contains(m.id()),
    ensures
        v.after_receive(m).1,
        v.after_receive(m).0.seen == v.seen.insert(m.id()),
        m.ttl > 0 ==> v.after_receive(m).0.pending == v.pending.push(m.hopped())
            && v.after_receive(m).0.pending.last().ttl == m.ttl - 1,
        m.ttl == 0 ==> v.after_receive(m).0.pending == v.pending
            && v.after_receive(m).0.forwarded_count == v.forwarded_count,
{
}

/// Broadcasting and receiving keep the router invariant: every queued message
/// has been seen, and nothing is queued that was not counted as forwarded.
pub proof fn law_router_updates_keep_consistent(v: RouterView, m: MessageView)
    requires
        v.consistent(),
        v.forwarded_count < u64::MAX,
    ensures
        v.after_broadcast(m).0.consistent(),
        v.after_receive(m).0.consistent(),
{
    let b = v.after_broadcast(m).0;
    assert forall|i: int| 0 <= i < b.pending.len() implies b.seen.contains(
        #[trigger] b.pending[i].id(),
    ) by {
        if i < v.pending.len() {
            assert(v.seen.contains(v.pending[i].id()));
        }
    }
    let r = v.after_receive(m).0;
    assert forall|i: int| 0 <= i < r.pending.len() implies r.seen.contains(
        #[trigger] r.pending[i].id(),
    ) by {
        if i < v.pending.len() {
            assert(v.seen.contains(v.pending[i].id()));
        }
    }
}

/// One call that changes a router, as its abstract state sees it.
pub enum RouterStep {
    Broadcast(MessageView),
    Receive(MessageView),
    Drain,
}

/// The id that a step handles, if it handles a message.
pub open spec fn step_id(s: RouterStep) -> Option<MessageId> {
    match s {
        RouterStep::Broadcast(m) => Some(m.id()),
        RouterStep::Receive(m) => Some(m.id()),
        RouterStep::Drain => None,
    }
}

/// The ids that a sequence of steps handles.
pub open spec fn handled_ids(steps: Seq<RouterStep>) -> Set<MessageId> {
    Set::new(|id: MessageId| exists|i: int| 0 <= i < steps.len() && step_id(steps[i]) == Some(id))
}

impl RouterView {
    /// The state after one step.
    pub open spec fn after_step(self, s: RouterStep) -> RouterView {
        match s {
            RouterStep::Broadcast(m) => self.after_broadcast(m).0,
            RouterStep::Receive(m) => self.after_receive(m).0,
            RouterStep::Drain => RouterView { pending: Seq::empty(), ..self },
        }
    }

    /// The state after the steps, in order.
    pub open spec fn after_steps(self, steps: Seq<RouterStep>) -> RouterView
        decreases steps.len(),
    {
        if steps.len() == 0 {
            self
        } else {
            self.after_steps(steps.drop_last()).after_step(steps.last())
        }
    }

    /// The step forwards a message: a broadcast of an unseen id, or a receive
    /// of an unseen id with hops left.
    pub open spec fn forwards(self, s: RouterStep) -> bool {
        match s {
            RouterStep::Broadcast(m) => !self.seen.contains(m.id()),
            RouterStep::Receive(m) => !self.seen.contains(m.id()) && m.ttl > 0,
            RouterStep::Drain => false,
        }
    }

    /// How many of the steps forward, each judged in the state it meets.
    pub open spec fn forwards_over(self, steps: Seq<RouterStep>) -> nat
        decreases steps.len(),
    {
        if steps.len() == 0 {
            0
        } else {
            self.forwards_over(steps.drop_last()) + if self.after_steps(steps.drop_last()).forwards(
                steps.last(),
            ) {
                1nat
            } else {
                0nat
            }
        }
    }
}

/// After any sequence of calls, a router has seen exactly what it had seen
/// before and the ids of the messages broadcast or received; a new router
/// has therefore seen exactly the ids it was handed.
pub proof fn law_seen_is_every_handled_id(v: RouterView, steps: Seq<RouterStep>)
    ensures
        v.after_steps(steps).seen == v.seen + handled_ids(steps),
    decreases steps.len(),
{
    if steps.len() == 0 {
        assert(handled_ids(steps) =~= Set::empty());
        assert(v.seen + handled_ids(steps) =~= v.seen);
    } else {
        let init = steps.drop_last();
        let last = steps.last();
        law_seen_is_every_handled_id(v, init);
        let u = v.after_steps(init);
        match last {
            RouterStep::Broadcast(m) => law_seen_records_every_handled_id(u, m),
            RouterStep::Receive(m) => law_seen_records_every_handled_id(u, m),
            RouterStep::Drain => {},
        }
        assert forall|id: MessageId| #[trigger]
            handled_ids(steps).contains(id) <==> (handled_ids(init).contains(id) || step_id(last)
                == Some(id)) by {
            if handled_ids(steps).contains(id) {
                let i = choose|i: int| 0 <= i < steps.len() && step_id(steps[i]) == Some(id);
                if i < init.len() {
                    assert(step_id(init[i]) == Some(id));
                }
            }
            if handled_ids(init).contains(id) {
                let i = choose|i: int| 0 <= i < init.len() && step_id(init[i]) == Some(id);
                assert(step_id(steps[i]) == Some(id));
            }
            if step_id(last) == Some(id) {
                assert(step_id(steps[steps.len() - 1]) == Some(id));
            }
        }
        assert(v.after_steps(steps).seen =~= v.seen + handled_ids(steps));
    }
}

/// After any sequence of calls, the forwarded count has grown by exactly the
/// number of calls that forwarded a message; it never decreases.
pub proof fn law_forwarded_counts_forwarding_steps(v: RouterView, steps: Seq<RouterStep>)
    requires
        v.forwarded_count + steps.len() <= u64::MAX,
    ensures
        v.after_steps(steps).forwarded_count == v.forwarded_count + v.forwards_over(steps),
        v.forwards_over(steps) <= steps.len(),
        v.after_steps(steps).forwarded_count >= v.forwarded_count,
    decreases steps.len(),
{
    if steps.len() > 0 {
        law_forwarded_counts_forwarding_steps(v, steps.drop_last());
    }
}

/// Any sequence of calls keeps the router invariant.
pub proof fn law_router_steps_keep_consistent(v: RouterView, steps: Seq<RouterStep>)
    requires
        v.consistent(),
        v.forwarded_count + steps.len() <= u64::MAX,
    ensures
        v.after_steps(steps).consistent(),
    decreases steps.len(),
{
    if steps.len() > 0 {
        let init = steps.drop_last();
        law_router_steps_keep_consistent(v, init);
        law_forwarded_counts_forwarding_steps(v, init);
        let u = v.after_steps(init);
        match steps.last() {
            RouterStep::Broadcast(m) => law_router_updates_keep_consistent(u, m),
            RouterStep::Receive(m) => law_router_updates_keep_consistent(u, m),
            RouterStep::Drain => {},
        }
    }
}

/// Gossip router implementing fan-out message delivery.
///
/// When broadcasting, the router marks the message as seen and queues it for
/// delivery to `fanout` peers. Received messages are deduplicated by
/// `(origin, sequence)` and re-forwarded while their hop limit lasts.
pub struct GossipRouter {
    node_id: String,
    fanout: usize,
    seen: KeyMap<(String, u64), ()>,
    pending: VecDeque<GossipMessage>,
    forwarded_count: u64,
}

impl View for GossipRouter {
    type V = RouterView;

    closed spec fn view(&self) -> RouterView {
        RouterView {
            node_id: self.node_id@,
            fanout: self.fanout,
            seen: self.seen@.dom(),
            pending: message_views(self.pending@),
            forwarded_count: self.forwarded_count,
        }
    }
}

impl GossipRouter {
    pub closed spec fn wf(&self) -> bool {
        &&& self.seen.wf()
        &&& self@.consistent()
    }

    /// The abstract state of a valid router is consistent.
    pub proof fn lemma_consistent(&self)
        requires
            self.wf(),
        ensures
            self@.consistent(),
    {
    }

    /// Create a new router for the given node with specified fan-out.
    pub fn new(node_id: &str, fanout: usize) -> (r: Self)
        ensures
            r.wf(),
            r@ == (RouterView {
                node_id: node_id@,
                fanout: if fanout < 1 { 1 } else { fanout },
                seen: Set::empty(),
                pending: Seq::empty(),
                forwarded_count: 0,
            }),
    {
        let r = GossipRouter {
            node_id: node_id.to_owned(),
            fanout: fanout.max(1),
            seen: KeyMap::new(),
            pending: VecDeque::new(),
            forwarded_count: 0,
        };
        assert(r@.seen =~= Set::empty());
        assert(r@.pending =~= Seq::empty());
        r
    }

    /// Check if we've already seen a message.
    pub fn is_seen(&self, msg: &GossipMessage) -> (b: bool)
        requires
            self.wf(),
        ensures
            b == self@.seen.contains(msg@.id()),
    {
        self.seen.contains_key(&msg.id())
    }

    /// Mark a message as seen.
    fn mark_seen(&mut self, msg: &GossipMessage)
        requires
            old(self).wf(),
        ensures
            final(self).seen.wf(),
            final(self)@ == (RouterView { seen: old(self)@.seen.insert(msg@.id()), ..old(self)@ }),
    {
        self.seen.insert(msg.id(), ());
        assert(self@.seen =~= old(self)@.seen.insert(msg@.id()));
    }

    /// Broadcast a message to the network. Marks it as seen and queues it.
    /// Returns the number of peers it goes to, or 0 for a message seen before.
    pub fn broadcast(&mut self, msg: &GossipMessage) -> (count: usize)
        requires
            old(self).wf(),
            !old(self)@.seen.contains(msg@.id()) ==> old(self)@.forwarded_count < u64::MAX,
        ensures
            final(self).wf(),
            (final(self)@, count) == old(self)@.after_broadcast(msg@),
    {
        if self.is_seen(msg) {
            return 0;
        }
        proof {
            self.seen.lemma_keys();
        }
        self.mark_seen(msg);
        proof {
            self.seen.lemma_keys();
        }
        let count = self.fanout.min(self.seen.len().saturating_sub(1)).max(1);
        self.pending.push_back(msg.duplicate());
        self.forwarded_count = self.forwarded_count + 1;
        assert(self@.pending =~= old(self)@.pending.push(msg@));
        count
    }

    /// Receive a message from a peer. Returns true if it's new.
    /// A new message takes one hop and is queued again while hops remain.
    pub fn receive(&mut self, msg: &mut GossipMessage) -> (fresh: bool)
        requires
            old(self).wf(),
            !old(self)@.seen.contains(old(msg)@.id()) && old(msg)@.ttl > 0
                ==> old(self)@.forwarded_count < u64::MAX,
        ensures
            final(self).wf(),
            (final(self)@, fresh) == old(self)@.after_receive(old(msg)@),
            final(msg)@ == if fresh { old(msg)@.hopped() } else { old(msg)@ },
    {
        if self.is_seen(msg) {
            return false;
        }
        self.mark_seen(msg);
        if msg.hop() {
            self.pending.push_back(msg.duplicate());
            self.forwarded_count = self.forwarded_count + 1;
            assert(self@.pending =~= old(self)@.pending.push(old(msg)@.hopped()));
        }
        true
    }

    /// Drain pending outbound messages, oldest first.
    pub fn drain_pending(&mut self) -> (out: Vec<GossipMessage>)
        requires
            old(self).wf(),
        ensures
            final(self).wf(),
            message_views(out@) == old(self)@.pending,
            final(self)@ == (RouterView { pending: Seq::empty(), ..old(self)@ }),
    {
        let mut out: Vec<GossipMessage> = Vec::new();
        while self.pending.len() > 0
            invariant
                self.seen.wf(),
                self.node_id == old(self).node_id,
                self.fanout == old(self).fanout,
                self.seen == old(self).seen,
                self.forwarded_count == old(self).forwarded_count,
                out@ + self.pending@ == old(self).pending@,
            decreases self.pending@.len(),
        {
            let ghost before = self.pending@;
            match self.pending.pop_front() {
                Some(m) => {
                    out.push(m);
                    assert(before =~= seq![before[0]] + self.pending@);
                },
                None => {},
            }
            assert(out@ + self.pending@ =~= old(self).pending@);
        }
        assert(out@ =~= old(self).pending@);
        assert(self@.pending =~= Seq::empty());
        out
    }

    /// Get number of seen messages.
    pub fn seen_count(&self) -> (n: usize)
        requires
            self.wf(),
        ensures
            n == self@.seen.len(),
    {
        proof {
            self.seen.lemma_keys();
        }
        self.seen.len()
    }

    /// Get total forwarded count.
    pub fn forwarded_count(&self) -> (n: u64)
        ensures
            n == self@.forwarded_count,
    {
        self.forwarded_count
    }

    /// Get fanout degree.
    pub fn fanout(&self) -> (n: usize)
        ensures
            n == self@.fanout,
    {
        self.fanout
    }
}

} // verus!
