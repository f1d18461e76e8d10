//! Known peers, their topic subscriptions and their last-seen times.
use vstd::prelude::*;

use crate::keyed::{lemma_not_in_prefix, lemma_push_fresh, lemma_take_grow, string_views, KeyMap};

verus! {

/// The abstract state of a `PeerState`.
pub struct PeerStateView {
    /// Known peers and the topics each one subscribes to.
    pub peers: Map<Seq<char>, Set<Seq<char>>>,
    /// Logical time at which each peer was last touched.
    pub last_seen: Map<Seq<char>, u64>,
    /// Current logical time.
    pub clock: u64,
}

impl PeerStateView {
    /// The state after `p` is touched: the clock advances and `p` is seen now.
    pub open spec fn after_touch(self, p: Seq<char>) -> PeerStateView {
        PeerStateView {
            last_seen: self.last_seen.insert(p, (self.clock + 1) as u64),
            clock: (self.clock + 1) as u64,
            ..self
        }
    }

    /// The state after `p` is added with no subscriptions (dropping any it had).
    pub open spec fn after_add(self, p: Seq<char>) -> PeerStateView {
        PeerStateView { peers: self.peers.insert(p, Set::empty()), ..self }.after_touch(p)
    }

    /// The state after `p` is removed entirely.
    pub open spec fn after_remove(self, p: Seq<char>) -> PeerStateView {
        PeerStateView {
            peers: self.peers.remove(p),
            last_seen: self.last_seen.remove(p),
            ..self
        }
    }

    /// The state and answer after `p` subscribes to `t`; `p` is touched in
    /// any case, and an unknown `p` gains no subscription.
    pub open spec fn after_subscribe(self, p: Seq<char>, t: Seq<char>) -> (PeerStateView, bool) {
        let touched = self.after_touch(p);
        if self.peers.contains_key(p) {
            (
                PeerStateView { peers: self.peers.insert(p, self.peers[p].insert(t)), ..touched },
                !self.peers[p].contains(t),
            )
        } else {
            (touched, false)
        }
    }

    /// The state and answer after `p` unsubscribes from `t`.
    pub open spec fn after_unsubscribe(self, p: Seq<char>, t: Seq<char>) -> (PeerStateView, bool) {
        if self.peers.contains_key(p) {
            (
                PeerStateView { peers: self.peers.insert(p, self.peers[p].remove(t)), ..self },
                self.peers[p].contains(t),
            )
        } else {
            (self, false)
        }
    }

    /// The known peers subscribed to `t`.
    pub open spec fn subscribers_of(self, t: Seq<char>) -> Set<Seq<char>> {
        self.peers.dom().filter(|p: Seq<char>| self.peers[p].contains(t))
    }

    /// The topics of `p`; none for an unknown peer.
    pub open spec fn topics_of(self, p: Seq<char>) -> Set<Seq<char>> {
        if self.peers.contains_key(p) { self.peers[p] } else { Set::empty() }
    }

    /// What every reachable state keeps: no last-seen time later than the clock.
    pub open spec fn consistent(self) -> bool {
        &&& self.peers.dom().finite()
        &&& forall|p: Seq<char>| #[trigger] self.peers.contains_key(p) ==> self.peers[p].finite()
        &&& self.well_stamped()
    }

    /// Every known peer has a last-seen time, no last-seen time is later than
    /// the clock, and no two peers share one.
    pub open spec fn well_stamped(self) -> bool {
        &&& forall|p: Seq<char>| #[trigger]
            self.peers.contains_key(p) ==> self.last_seen.contains_key(p)
        &&& forall|p: Seq<char>| #[trigger]
            self.last_seen.contains_key(p) ==> self.last_seen[p] <= self.clock
        &&& forall|p: Seq<char>, q: Seq<char>|
            #![trigger self.last_seen[p], self.last_seen[q]]
            self.last_seen.contains_key(p) && self.last_seen.contains_key(q) && p != q
                ==> self.last_seen[p] != self.last_seen[q]
    }
}


/// Touching a peer makes its last-seen time later than every last-seen time
/// before, and keeps the tracker consistent.
pub proof fn law_touch_is_newest(v: PeerStateView, p: Seq<char>, q: Seq<char>)
    requires
        v.consistent(),
        v.clock < u64::MAX,
    ensures
        v.after_touch(p).consistent(),
        v.last_seen.contains_key(q) ==> v.after_touch(p).last_seen[p] > v.last_seen[q],
{
}

/// Unsubscribing undoes subscribing: a known peer that subscribes to a topic
/// it did not have and then unsubscribes from it is back to its former
/// topics, and the unsubscription reports the topic as removed.
pub proof fn law_unsubscribe_undoes_subscribe(v: PeerStateView, p: Seq<char>, t: Seq<char>)
    requires
        v.peers.contains_key(p),
        !v.peers[p].contains(t),
    ensures
        v.after_subscribe(p, t).0.after_unsubscribe(p, t).0.peers == v.peers,
        v.after_subscribe(p, t).0.after_unsubscribe(p, t).1,
{
    let w = v.after_subscribe(p, t).0.after_unsubscribe(p, t).0;
    assert(v.peers[p].insert(t).remove(t) =~= v.peers[p]);
    assert(w.peers =~= v.peers);
}

/// A known peer that subscribes to a topic is among its subscribers, and one
/// that unsubscribes is not.
pub proof fn law_subscribers_follow_subscriptions(v: PeerStateView, p: Seq<char>, t: Seq<char>)
    requires
        v.peers.contains_key(p),
    ensures
        v.after_subscribe(p, t).0.subscribers_of(t).contains(p),
        !v.after_unsubscribe(p, t).0.subscribers_of(t).contains(p),
{
}

/// Removing a peer forgets it entirely, whatever was recorded of it.
pub proof fn law_remove_forgets_peer(v: PeerStateView, p: Seq<char>)
    ensures
        !v.after_remove(p).peers.contains_key(p),
        !v.after_remove(p).last_seen.contains_key(p),
        v.after_remove(p).topics_of(p) == Set::<Seq<char>>::empty(),
{
}

/// Subscribing a known peer adds exactly that topic to its subscriptions and
/// answers whether it was new; every other peer keeps its subscriptions. An
/// unknown peer gains no subscription.
pub proof fn law_subscribe_adds_exactly_the_topic(
    v: PeerStateView,
    p: Seq<char>,
    t: Seq<char>,
    q: Seq<char>,
    u: Seq<char>,
)
    ensures
        v.peers.contains_key(p) ==> v.after_subscribe(p, t).0.topics_of(p).contains(t),
        v.peers.contains_key(p) && u != t ==> v.after_subscribe(p, t).0.topics_of(p).contains(u)
            == v.topics_of(p).contains(u),
        v.after_subscribe(p, t).1 == (v.peers.contains_key(p) && !v.topics_of(p).contains(t)),
        q != p ==> v.after_subscribe(p, t).0.topics_of(q) == v.topics_of(q),
        v.after_subscribe(p, t).0.peers.dom() == v.peers.dom(),
        !v.peers.contains_key(p) ==> v.after_subscribe(p, t).0.peers == v.peers,
{
}

/// Unsubscribing a known peer removes exactly that topic from its
/// subscriptions and answers whether it had it; a topic the peer lacks leaves
/// everything as it was, and every other peer keeps its subscriptions.
pub proof fn law_unsubscribe_removes_exactly_the_topic(
    v: PeerStateView,
    p: Seq<char>,
    t: Seq<char>,
    q: Seq<char>,
    u: Seq<char>,
)
    ensures
        !v.after_unsubscribe(p, t).0.topics_of(p).contains(t),
        u != t ==> v.after_unsubscribe(p, t).0.topics_of(p).contains(u) == v.topics_of(p).contains(
            u,
        ),
        v.after_unsubscribe(p, t).1 == v.topics_of(p).contains(t),
        !v.topics_of(p).contains(t) ==> v.after_unsubscribe(p, t).0 == v,
        q != p ==> v.after_unsubscribe(p, t).0.topics_of(q) == v.topics_of(q),
        v.after_unsubscribe(p, t).0.peers.dom() == v.peers.dom(),
        v.after_unsubscribe(p, t).0.last_seen == v.last_seen,
{
    if v.peers.contains_key(p) && !v.peers[p].contains(t) {
        assert(v.peers[p].remove(t) =~= v.peers[p]);
        assert(v.peers.insert(p, v.peers[p]) =~= v.peers);
    }
}

/// The topics of a peer and the subscribers of a topic tell the same thing:
/// `p` has `t` among its topics exactly when `p` is among the subscribers of `t`.
pub proof fn law_topics_and_subscribers_agree(v: PeerStateView, p: Seq<char>, t: Seq<char>)
    ensures
        v.topics_of(p).contains(t) <==> v.subscribers_of(t).contains(p),
{
}

/// Adding a peer gives it no topics and leaves every other peer's topics as
/// they were.
pub proof fn law_add_gives_no_topics(v: PeerStateView, p: Seq<char>, q: Seq<char>)
    ensures
        v.after_add(p).peers.contains_key(p),
        v.after_add(p).topics_of(p) == Set::<Seq<char>>::empty(),
        q != p ==> v.after_add(p).topics_of(q) == v.topics_of(q),
        q != p ==> v.after_add(p).peers.contains_key(q) == v.peers.contains_key(q),
{
}

/// Touching a peer stamps it with the new clock value and leaves every other
/// peer's last-seen time and every subscription as they were.
pub proof fn law_touch_stamps_only_the_peer(v: PeerStateView, p: Seq<char>, q: Seq<char>)
    requires
        v.clock < u64::MAX,
    ensures
        v.after_touch(p).last_seen[p] == v.clock + 1,
        v.after_touch(p).clock == v.clock + 1,
        v.after_touch(p).peers == v.peers,
        q != p ==> v.after_touch(p).last_seen.contains_key(q) == v.last_seen.contains_key(q),
        q != p && v.last_seen.contains_key(q) ==> v.after_touch(p).last_seen[q]
            == v.last_seen[q],
{
}

/// Removing a peer leaves every other peer, its topics and its last-seen
/// time as they were.
pub proof fn law_remove_keeps_other_peers(v: PeerStateView, p: Seq<char>, q: Seq<char>)
    requires
        q != p,
    ensures
        v.after_remove(p).peers.contains_key(q) == v.peers.contains_key(q),
        v.after_remove(p).topics_of(q) == v.topics_of(q),
        v.after_remove(p).last_seen.contains_key(q) == v.last_seen.contains_key(q),
        v.last_seen.contains_key(q) ==> v.after_remove(p).last_seen[q] == v.last_seen[q],
        v.after_remove(p).clock == v.clock,
{
}

/// Adding a peer, and subscribing any peer, stamps that peer with the new
/// clock value whether or not it was known; unsubscribing stamps nobody.
pub proof fn law_add_and_subscribe_touch_the_peer(v: PeerStateView, p: Seq<char>, t: Seq<char>, q: Seq<char>)
    requires
        v.clock < u64::MAX,
    ensures
        v.after_add(p).clock == v.clock + 1,
        v.after_add(p).last_seen[p] == v.clock + 1,
        v.after_subscribe(p, t).0.clock == v.clock + 1,
        v.after_subscribe(p, t).0.last_seen[p] == v.clock + 1,
        q != p ==> v.after_subscribe(p, t).0.last_seen.contains_key(q) == v.last_seen.contains_key(q),
        q != p && v.last_seen.contains_key(q) ==> v.after_subscribe(p, t).0.last_seen[q]
            == v.last_seen[q],
        v.after_unsubscribe(p, t).0.clock == v.clock,
{
}

/// Every update keeps the tracker consistent.
pub proof fn law_peer_updates_keep_consistent(v: PeerStateView, p: Seq<char>, t: Seq<char>)
    requires
        v.consistent(),
        v.clock < u64::MAX,
    ensures
        v.after_add(p).consistent(),
        v.after_remove(p).consistent(),
        v.after_subscribe(p, t).0.consistent(),
        v.after_unsubscribe(p, t).0.consistent(),
{
}

/// Tracks the state of the peers in the gossip network: their topic
/// subscriptions and when each was last seen.
#[derive(Clone)]
pub struct PeerState {
    peers: KeyMap<String, KeyMap<String, ()>>,
    last_seen: KeyMap<String, u64>,
    clock: u64,
}

impl View for PeerState {
    type V = PeerStateView;

    closed spec fn view(&self) -> PeerStateView {
        PeerStateView {
            peers: self.peers@.map_values(|t: KeyMap<String, ()>| t@.dom()),
            last_seen: self.last_seen@,
            clock: self.clock,
        }
    }
}

impl PeerState {
    pub closed spec fn wf(&self) -> bool {
        &&& self.peers.wf()
        &&& self.last_seen.wf()
        &&& forall|p: Seq<char>| #[trigger] self.peers@.contains_key(p) ==> self.peers@[p].wf()
        &&& self@.well_stamped()
    }

    /// The abstract state of a valid tracker is consistent.
    pub proof fn lemma_consistent(&self)
        requires
            self.wf(),
        ensures
            self@.consistent(),
    {
        self.peers.lemma_keys();
        assert(self@.peers.dom() =~= self.peers@.dom());
        assert forall|p: Seq<char>| #[trigger] self@.peers.contains_key(p) implies self@.peers[
            p
        ].finite() by {
            self.peers@[p].lemma_keys();
        }
    }

    /// Create an empty peer state tracker.
    pub fn new() -> (s: Self)
        ensures
            s.wf(),
            s@ == (PeerStateView { peers: Map::empty(), last_seen: Map::empty(), clock: 0 }),
    {
        let s = PeerState { peers: KeyMap::new(), last_seen: KeyMap::new(), clock: 0 };
        assert(s@.peers =~= Map::empty());
        s
    }

    /// Update last-seen timestamp for a peer.
    pub fn touch(&mut self, peer_id: &str)
        requires
            old(self).wf(),
            old(self)@.clock < u64::MAX,
        ensures
            final(self).wf(),
            final(self)@ == old(self)@.after_touch(peer_id@),
    {
        self.clock = self.clock + 1;
        self.last_seen.insert(peer_id.to_owned(), self.clock);
        proof {
            let v = self@;
            let o = old(self)@;
            assert forall|a: Seq<char>, b: Seq<char>|
                v.last_seen.contains_key(a) && v.last_seen.contains_key(b) && a != b implies v.last_seen[a]
                != v.last_seen[b] by {
                if a != peer_id@ && b != peer_id@ {
                    assert(o.last_seen[a] != o.last_seen[b]);
                } else if a != peer_id@ {
                    assert(o.last_seen[a] <= o.clock);
                } else {
                    assert(o.last_seen[b] <= o.clock);
                }
            }
            assert forall|q: Seq<char>| #[trigger]
                v.peers.contains_key(q) implies v.last_seen.contains_key(q) by {
                assert(o.peers.contains_key(q));
            }
            assert forall|q: Seq<char>| #[trigger]
                v.last_seen.contains_key(q) implies v.last_seen[q] <= v.clock by {
                if q != peer_id@ {
                    assert(o.last_seen.contains_key(q));
                }
            }
        }
    }

    /// Add a peer with no subscriptions; a known peer loses its subscriptions.
    pub fn add_peer(&mut self, peer_id: &str)
        requires
            old(self).wf(),
            old(self)@.clock < u64::MAX,
        ensures
            final(self).wf(),
            final(self)@ == old(self)@.after_add(peer_id@),
    {
        let ghost p = peer_id@;
        self.touch(peer_id);
        let subs: KeyMap<String, ()> = KeyMap::new();
        self.peers.insert(peer_id.to_owned(), subs);
        assert(self@.peers =~= old(self)@.peers.insert(p, Set::empty()));
        assert(self@ =~= old(self)@.after_add(p));
    }

    /// Remove a peer entirely.
    pub fn remove_peer(&mut self, peer_id: &str) -> (was_known: bool)
        requires
            old(self).wf(),
        ensures
            final(self).wf(),
            final(self)@ == old(self)@.after_remove(peer_id@),
            was_known == old(self)@.peers.contains_key(peer_id@),
    {
        let key = peer_id.to_owned();
        self.last_seen.remove(&key);
        let r = self.peers.remove(&key);
        assert(self@.peers =~= old(self)@.peers.remove(peer_id@));
        proof {
            let v = self@;
            let o = old(self)@;
            assert forall|a: Seq<char>, b: Seq<char>|
                v.last_seen.contains_key(a) && v.last_seen.contains_key(b) && a != b implies v.last_seen[a]
                != v.last_seen[b] by {
                assert(o.last_seen[a] != o.last_seen[b]);
            }
            assert forall|a: Seq<char>| #[trigger] v.peers.contains_key(a) implies v.last_seen.contains_key(a) by {
                assert(o.peers.contains_key(a));
            }
            assert forall|a: Seq<char>| #[trigger]
                v.last_seen.contains_key(a) implies v.last_seen[a] <= v.clock by {
                assert(o.last_seen.contains_key(a));
            }
        }
        r.is_some()
    }

    /// Subscribe a peer to a topic. The peer is touched either way; returns
    /// whether a known peer gained the topic.
    pub fn subscribe(&mut self, peer_id: &str, topic: &str) -> (added: bool)
        requires
            old(self).wf(),
            old(self)@.clock < u64::MAX,
        ensures
            final(self).wf(),
            (final(self)@, added) == old(self)@.after_subscribe(peer_id@, topic@),
    {
        self.touch(peer_id);
        let ghost mid = self@;
        let ghost p = peer_id@;
        match self.peers.find(&peer_id.to_owned()) {
            Some(i) => {
                let mut subs = self.peers.replace_at(i, KeyMap::new());
                let had = subs.insert(topic.to_owned(), ());
                self.peers.replace_at(i, subs);
                assert(self@.peers =~= mid.peers.insert(p, mid.peers[p].insert(topic@)));
                !had
            },
            None => false,
        }
    }

    /// Unsubscribe a peer from a topic; returns whether it had the topic.
    pub fn unsubscribe(&mut self, peer_id: &str, topic: &str) -> (removed: bool)
        requires
            old(self).wf(),
        ensures
            final(self).wf(),
            (final(self)@, removed) == old(self)@.after_unsubscribe(peer_id@, topic@),
    {
        let ghost p = peer_id@;
        match self.peers.find(&peer_id.to_owned()) {
            Some(i) => {
                let mut subs = self.peers.replace_at(i, KeyMap::new());
                let r = subs.remove(&topic.to_owned());
                self.peers.replace_at(i, subs);
                assert(self@.peers =~= old(self)@.peers.insert(p, old(self)@.peers[p].remove(topic@)));
                r.is_some()
            },
            None => false,
        }
    }

    /// Get all peers subscribed to a topic, each once, in no promised order.
    pub fn subscribers(&self, topic: &str) -> (r: Vec<String>)
        requires
            self.wf(),
        ensures
            string_views(r@).no_duplicates(),
            string_views(r@).to_set() == self@.subscribers_of(topic@),
    {
        let t = topic.to_owned();
        let ghost keys = self.peers.keys();
        proof {
            self.peers.lemma_keys();
        }
        let mut r: Vec<String> = Vec::new();
        let n = self.peers.len();
        let mut i: usize = 0;
        while i < n
            invariant
                self.wf(),
                keys == self.peers.keys(),
                keys.no_duplicates(),
                n == keys.len(),
                i <= n,
                t@ == topic@,
                string_views(r@).no_duplicates(),
                forall|p: Seq<char>| #[trigger]
                    string_views(r@).contains(p) <==> (keys.take(i as int).contains(p)
                        && self@.peers[p].contains(topic@)),
            decreases n - i,
        {
            let ghost k = keys[i as int];
            let ghost rv = string_views(r@);
            proof {
                lemma_take_grow(keys, i as int);
                lemma_not_in_prefix(keys, i as int);
                self.peers.lemma_keys();
                assert(keys.contains(k));
                assert(self.peers@.contains_key(k));
            }
            let subs = self.peers.value_at(i);
            if subs.contains_key(&t) {
                r.push(self.peers.key_at(i).clone());
                proof {
                    assert(string_views(r@) =~= rv.push(k));
                    lemma_push_fresh(rv, k);
                }
            }
            i += 1;
        }
        proof {
            assert(keys.take(n as int) =~= keys);
            assert(string_views(r@).to_set() =~= self@.subscribers_of(topic@));
        }
        r
    }

    /// Get the topics a peer is subscribed to, each once, in no promised
    /// order; none for an unknown peer.
    pub fn topics(&self, peer_id: &str) -> (r: Vec<String>)
        requires
            self.wf(),
        ensures
            string_views(r@).no_duplicates(),
            string_views(r@).to_set() == self@.topics_of(peer_id@),
    {
        match self.peers.get(&peer_id.to_owned()) {
            Some(subs) => {
                proof {
                    subs.lemma_keys();
                }
                let r = subs.copy_keys();
                assert(string_views(r@) =~= subs.keys());
                r
            },
            None => {
                let r: Vec<String> = Vec::new();
                assert(string_views(r@).to_set() =~= Set::empty());
                r
            },
        }
    }

    /// Get last-seen time for a peer.
    pub fn last_seen(&self, peer_id: &str) -> (t: Option<u64>)
        requires
            self.wf(),
        ensures
            t is Some <==> self@.last_seen.contains_key(peer_id@),
            t matches Some(v) ==> v == self@.last_seen[peer_id@],
    {
        match self.last_seen.get(&peer_id.to_owned()) {
            Some(t) => Some(*t),
            None => None,
        }
    }

    /// Check if a peer is known.
    pub fn has_peer(&self, peer_id: &str) -> (b: bool)
        requires
            self.wf(),
        ensures
            b == self@.peers.contains_key(peer_id@),
    {
        self.peers.contains_key(&peer_id.to_owned())
    }

    /// Number of known peers.
    pub fn peer_count(&self) -> (n: usize)
        requires
            self.wf(),
        ensures
            n == self@.peers.len(),
    {
        assert(self@.peers.dom() =~= self.peers@.dom());
        self.peers.len()
    }

    /// Get all known peer IDs, each once, in no promised order.
    pub fn peer_ids(&self) -> (r: Vec<String>)
        requires
            self.wf(),
        ensures
            string_views(r@).no_duplicates(),
            string_views(r@).to_set() == self@.peers.dom(),
    {
        proof {
            self.peers.lemma_keys();
        }
        let r = self.peers.copy_keys();
        assert(string_views(r@) =~= self.peers.keys());
        assert(self@.peers.dom() =~= self.peers@.dom());
        r
    }
}

impl Default for PeerState {
    fn default() -> (s: Self)
        ensures
            s.wf(),
            s@ == (PeerStateView { peers: Map::empty(), last_seen: Map::empty(), clock: 0 }),
    {
        Self::new()
    }
}

} // verus!
