//! Heartbeat membership with suspicion-based failure detection.
//!
//! Each member carries the logical time of its last heartbeat. A tick
//! advances the logical time; a member whose last heartbeat lies before the
//! failure threshold gains one suspicion level per tick, and a member that
//! reaches the suspicion limit is removed.
use vstd::prelude::*;

use crate::keyed::{lemma_not_in_prefix, lemma_push_fresh, lemma_take_grow, string_views, KeyMap};

verus! {

/// Suspicion level at which a member is declared failed and removed.
pub const SUSPICION_LIMIT: u32 = 3;

/// Minimum number of heartbeat intervals a member may miss.
pub const MIN_MISSED_INTERVALS: u64 = 3;

/// Grace period, in logical time units, granted past the missed intervals.
pub const GRACE_TICKS: u64 = 3;

/// The abstract state of a `MembershipProtocol`.
pub struct MembershipView {
    pub node_id: Seq<char>,
    pub heartbeat_interval_ms: u64,
    pub failure_timeout_ms: u64,
    /// Live members and the logical time of their last heartbeat.
    pub members: Map<Seq<char>, u64>,
    /// Suspicion levels; a member without an entry has level zero.
    pub suspicion: Map<Seq<char>, u32>,
    pub time: u64,
}

/// The number of heartbeat intervals a member may miss before it is overdue.
pub open spec fn missed_intervals(failure_timeout_ms: u64, heartbeat_interval_ms: u64) -> int {
    let interval = if heartbeat_interval_ms < 1 { 1 } else { heartbeat_interval_ms as int };
    let ratio = failure_timeout_ms as int / interval;
    if ratio < MIN_MISSED_INTERVALS { MIN_MISSED_INTERVALS as int } else { ratio }
}

/// Members whose last heartbeat is strictly before this logical time are overdue at `now`.
pub open spec fn failure_threshold(now: int, failure_timeout_ms: u64, heartbeat_interval_ms: u64) -> int {
    let missed = missed_intervals(failure_timeout_ms, heartbeat_interval_ms);
    let timeout = if now < missed { 0 } else { now - missed };
    if timeout > GRACE_TICKS { timeout - GRACE_TICKS } else { 0 }
}

impl MembershipView {
    /// The suspicion level of `p`: zero when it has no entry.
    pub open spec fn level(self, p: Seq<char>) -> int {
        if self.suspicion.contains_key(p) { self.suspicion[p] as int } else { 0 }
    }

    /// The threshold in force during the next tick.
    pub open spec fn next_threshold(self) -> int {
        failure_threshold(self.time + 1, self.failure_timeout_ms, self.heartbeat_interval_ms)
    }

    /// `p` is a member that gains a suspicion level at the next tick.
    pub open spec fn overdue(self, p: Seq<char>) -> bool {
        self.members.contains_key(p) && self.members[p] < self.next_threshold()
    }

    /// `p` is a member that the next tick removes.
    pub open spec fn fails_next(self, p: Seq<char>) -> bool {
        self.overdue(p) && self.level(p) + 1 >= SUSPICION_LIMIT
    }

    /// The members that the next tick removes.
    pub open spec fn failed_set(self) -> Set<Seq<char>> {
        self.members.dom().filter(|p: Seq<char>| self.fails_next(p))
    }

    /// `p` is a member that the next tick suspects for the first time.
    pub open spec fn suspected_next(self, p: Seq<char>) -> bool {
        self.overdue(p) && self.level(p) == 0
    }

    /// The members that the next tick reports: those it suspects for the
    /// first time and those it removes.
    pub open spec fn reported_set(self) -> Set<Seq<char>> {
        self.members.dom().filter(|p: Seq<char>| self.suspected_next(p) || self.fails_next(p))
    }

    /// The state after a tick.
    pub open spec fn after_tick(self) -> MembershipView {
        MembershipView {
            members: self.members.remove_keys(self.failed_set()),
            suspicion: Map::new(
                |p: Seq<char>|
                    (self.suspicion.contains_key(p) || self.overdue(p)) && !self.fails_next(p),
                |p: Seq<char>|
                    if self.overdue(p) {
                        (self.level(p) + 1) as u32
                    } else {
                        self.suspicion[p]
                    },
            ),
            time: (self.time + 1) as u64,
            ..self
        }
    }

    /// The state after `n` ticks in a row.
    pub open spec fn after_ticks(self, n: nat) -> MembershipView
        decreases n,
    {
        if n == 0 {
            self
        } else {
            self.after_ticks((n - 1) as nat).after_tick()
        }
    }

    /// The state after `p` joins, or re-joins with a fresh heartbeat.
    pub open spec fn after_add(self, p: Seq<char>) -> MembershipView {
        MembershipView {
            members: self.members.insert(p, (self.time + 1) as u64),
            suspicion: self.suspicion.remove(p),
            time: (self.time + 1) as u64,
            ..self
        }
    }

    /// The state after `p` leaves.
    pub open spec fn after_remove(self, p: Seq<char>) -> MembershipView {
        MembershipView {
            members: self.members.remove(p),
            suspicion: self.suspicion.remove(p),
            ..self
        }
    }

    /// The state after a heartbeat from `p`; one from a non-member changes nothing.
    pub open spec fn after_heartbeat(self, p: Seq<char>) -> MembershipView {
        if self.members.contains_key(p) {
            self.after_add(p)
        } else {
            self
        }
    }

    /// What every reachable state keeps: finitely many members, suspicion only
    /// for members and below the limit, and no heartbeat later than the
    /// current time.
    pub open spec fn consistent(self) -> bool {
        &&& self.members.dom().finite()
        &&& self.suspicion.dom().finite()
        &&& self.heartbeat_interval_ms == self.failure_timeout_ms / 3
        &&& forall|p: Seq<char>| #[trigger]
            self.suspicion.contains_key(p) ==> self.members.contains_key(p) && 1
                <= self.suspicion[p] < SUSPICION_LIMIT
        &&& forall|p: Seq<char>| #[trigger]
            self.members.contains_key(p) ==> self.members[p] <= self.time
    }
}

/// A tick keeps the membership invariant: suspicion only for members and
/// below the limit, and no heartbeat later than the current time.
pub proof fn lemma_tick_keeps_consistent(v: MembershipView)
    requires
        v.consistent(),
        v.time < u64::MAX,
    ensures
        v.after_tick().consistent(),
{
    let w = v.after_tick();
    assert forall|p: Seq<char>| #[trigger] w.suspicion.contains_key(p) implies w.members.contains_key(p)
        && 1 <= w.suspicion[p] < SUSPICION_LIMIT by {
        assert(!v.failed_set().contains(p));
    }
    vstd::set_lib::lemma_set_subset_finite(v.members.dom(), w.members.dom());
    vstd::set_lib::lemma_set_subset_finite(v.members.dom(), w.suspicion.dom());
}


/// The failure threshold never moves back as time advances.
pub proof fn lemma_threshold_monotone(a: int, b: int, failure_timeout_ms: u64, heartbeat_interval_ms: u64)
    requires
        a <= b,
    ensures
        failure_threshold(a, failure_timeout_ms, heartbeat_interval_ms) <= failure_threshold(
            b,
            failure_timeout_ms,
            heartbeat_interval_ms,
        ),
{
}

/// A tick removes members and never adds one; the members it keeps keep
/// their heartbeat times, and it removes exactly those that reach the
/// suspicion limit.
pub proof fn law_tick_only_removes(v: MembershipView, p: Seq<char>)
    ensures
        v.after_tick().members.contains_key(p) ==> v.members.contains_key(p)
            && v.after_tick().members[p] == v.members[p],
        v.members.contains_key(p) ==> (!v.after_tick().members.contains_key(p) <==> v.fails_next(
            p,
        )),
{
}

/// A member is suspected at the next tick exactly when its last heartbeat lies
/// outside the failure window: the missed heartbeat intervals plus the grace
/// period, counted back from the next tick's time.
pub proof fn law_overdue_exactly_outside_window(v: MembershipView, p: Seq<char>)
    requires
        v.members.contains_key(p),
    ensures
        v.overdue(p) <==> v.members[p] + missed_intervals(v.failure_timeout_ms, v.heartbeat_interval_ms)
            + GRACE_TICKS < v.time + 1,
{
}

/// A heartbeat from a member keeps it alive, stamps it with the new time and
/// clears its suspicion.
pub proof fn law_heartbeat_clears_suspicion(v: MembershipView, p: Seq<char>)
    requires
        v.members.contains_key(p),
        v.time < u64::MAX,
    ensures
        v.after_heartbeat(p).members.contains_key(p),
        v.after_heartbeat(p).members[p] == v.time + 1,
        v.after_heartbeat(p).level(p) == 0,
{
}

/// A member that is overdue stays overdue until it is heard from again, and
/// is removed within as many ticks as the suspicion limit.
pub proof fn law_overdue_member_removed(v: MembershipView, p: Seq<char>)
    requires
        v.overdue(p),
        v.time + 3 <= u64::MAX,
    ensures
        !v.after_tick().after_tick().after_tick().members.contains_key(p),
{
    let v1 = v.after_tick();
    let v2 = v1.after_tick();
    let v3 = v2.after_tick();
    law_tick_only_removes(v1, p);
    law_tick_only_removes(v2, p);
    if v1.members.contains_key(p) {
        lemma_threshold_monotone(v.time + 1, v1.time + 1, v.failure_timeout_ms, v.heartbeat_interval_ms);
        assert(v1.overdue(p));
        assert(v1.level(p) == v.level(p) + 1);
        if v2.members.contains_key(p) {
            lemma_threshold_monotone(v1.time + 1, v2.time + 1, v.failure_timeout_ms, v.heartbeat_interval_ms);
            assert(v2.overdue(p));
            assert(v2.level(p) == v1.level(p) + 1);
            assert(v2.fails_next(p));
        }
    }
}

/// Ticks advance the time by one each and change neither the node nor its
/// timing settings.
pub proof fn lemma_ticks_advance_time(v: MembershipView, n: nat)
    requires
        v.time + n <= u64::MAX,
    ensures
        v.after_ticks(n).time == v.time + n,
        v.after_ticks(n).node_id == v.node_id,
        v.after_ticks(n).failure_timeout_ms == v.failure_timeout_ms,
        v.after_ticks(n).heartbeat_interval_ms == v.heartbeat_interval_ms,
    decreases n,
{
    if n > 0 {
        lemma_ticks_advance_time(v, (n - 1) as nat);
    }
}

/// Ticking `a` times and then `b` times is ticking `a + b` times.
pub proof fn lemma_ticks_split(v: MembershipView, a: nat, b: nat)
    ensures
        v.after_ticks(a + b) == v.after_ticks(a).after_ticks(b),
    decreases b,
{
    if b > 0 {
        lemma_ticks_split(v, a, (b - 1) as nat);
        assert((a + b - 1) as nat == a + (b - 1) as nat);
    }
}

/// Ticks only remove members, and the members they keep keep their
/// heartbeat times.
pub proof fn lemma_ticks_only_remove(v: MembershipView, n: nat, p: Seq<char>)
    ensures
        v.after_ticks(n).members.contains_key(p) ==> v.members.contains_key(p)
            && v.after_ticks(n).members[p] == v.members[p],
    decreases n,
{
    if n > 0 {
        lemma_ticks_only_remove(v, (n - 1) as nat, p);
        law_tick_only_removes(v.after_ticks((n - 1) as nat), p);
    }
}

/// A peer never heard from again is gone after the missed heartbeat
/// intervals, the grace period and the suspicion limit have passed in ticks.
pub proof fn law_silent_member_removed(v: MembershipView, p: Seq<char>, n: nat)
    requires
        v.consistent(),
        n >= missed_intervals(v.failure_timeout_ms, v.heartbeat_interval_ms) + GRACE_TICKS
            + SUSPICION_LIMIT,
        v.time + n <= u64::MAX,
    ensures
        !v.after_ticks(n).members.contains_key(p),
{
    let k = missed_intervals(v.failure_timeout_ms, v.heartbeat_interval_ms);
    let a = (k + GRACE_TICKS) as nat;
    let w = v.after_ticks(a);
    lemma_ticks_advance_time(v, a);
    lemma_ticks_only_remove(v, a, p);
    if w.members.contains_key(p) {
        law_overdue_exactly_outside_window(w, p);
        assert(w.overdue(p));
        law_overdue_member_removed(w, p);
        assert(w.after_ticks(0) == w);
        assert(w.after_ticks(1) == w.after_tick());
        assert(w.after_ticks(2) == w.after_tick().after_tick());
        assert(w.after_ticks(3) == w.after_tick().after_tick().after_tick());
        let u = w.after_ticks(3);
        let rest = (n - a - 3) as nat;
        lemma_ticks_split(v, a, 3);
        lemma_ticks_split(v, a + 3, rest);
        assert(a + 3 + rest == n);
        lemma_ticks_only_remove(u, rest, p);
    } else {
        lemma_ticks_split(v, a, (n - a) as nat);
        lemma_ticks_only_remove(w, (n - a) as nat, p);
    }
}

/// A peer heard from now and not suspected stays a member, unsuspected, for
/// the `j` ticks that follow while `j` is within the failure window.
pub proof fn lemma_fresh_member_kept(v: MembershipView, p: Seq<char>, j: nat)
    requires
        v.members.contains_key(p),
        v.members[p] == v.time,
        !v.suspicion.contains_key(p),
        j <= missed_intervals(v.failure_timeout_ms, v.heartbeat_interval_ms) + GRACE_TICKS,
        v.time + j <= u64::MAX,
    ensures
        v.after_ticks(j).members.contains_key(p),
        v.after_ticks(j).members[p] == v.time,
        !v.after_ticks(j).suspicion.contains_key(p),
    decreases j,
{
    if j > 0 {
        let u = v.after_ticks((j - 1) as nat);
        lemma_fresh_member_kept(v, p, (j - 1) as nat);
        lemma_ticks_advance_time(v, (j - 1) as nat);
        law_overdue_exactly_outside_window(u, p);
        assert(!u.overdue(p));
        assert(!u.failed_set().contains(p));
    }
}

/// A peer that was just added, or just sent a heartbeat, is neither suspected
/// nor reported by the ticks that follow within the failure window.
pub proof fn law_fresh_member_unsuspected(v: MembershipView, p: Seq<char>, n: nat)
    requires
        v.members.contains_key(p),
        v.members[p] == v.time,
        !v.suspicion.contains_key(p),
        n <= missed_intervals(v.failure_timeout_ms, v.heartbeat_interval_ms) + GRACE_TICKS,
        v.time + n <= u64::MAX,
    ensures
        v.after_ticks(n).members.contains_key(p),
        v.after_ticks(n).level(p) == 0,
        forall|j: nat| j < n ==> !(#[trigger] v.after_ticks(j)).reported_set().contains(p),
{
    lemma_fresh_member_kept(v, p, n);
    assert forall|j: nat| j < n implies !(#[trigger] v.after_ticks(j)).reported_set().contains(p) by {
        lemma_fresh_member_kept(v, p, j);
        lemma_ticks_advance_time(v, j);
        law_overdue_exactly_outside_window(v.after_ticks(j), p);
    }
}

/// Joining stamps the peer with the new time and clears its suspicion,
/// whether or not it was a member before, and leaves every other peer as it
/// was.
pub proof fn law_add_stamps_only_the_peer(v: MembershipView, p: Seq<char>, q: Seq<char>)
    requires
        v.time < u64::MAX,
    ensures
        v.after_add(p).time == v.time + 1,
        v.after_add(p).members.contains_key(p),
        v.after_add(p).members[p] == v.time + 1,
        v.after_add(p).level(p) == 0,
        q != p ==> v.after_add(p).members.contains_key(q) == v.members.contains_key(q),
        q != p && v.members.contains_key(q) ==> v.after_add(p).members[q] == v.members[q],
        q != p ==> v.after_add(p).level(q) == v.level(q),
{
}

/// Leaving removes the peer and its suspicion and leaves every other peer
/// and the time as they were.
pub proof fn law_remove_drops_only_the_peer(v: MembershipView, p: Seq<char>, q: Seq<char>)
    ensures
        !v.after_remove(p).members.contains_key(p),
        v.after_remove(p).level(p) == 0,
        v.after_remove(p).time == v.time,
        q != p ==> v.after_remove(p).members.contains_key(q) == v.members.contains_key(q),
        q != p && v.members.contains_key(q) ==> v.after_remove(p).members[q] == v.members[q],
        q != p ==> v.after_remove(p).level(q) == v.level(q),
{
}

/// A heartbeat from a member stamps that member with the new time and clears
/// its suspicion only; every other peer keeps its stamp and its suspicion. A
/// heartbeat from a non-member changes nothing.
pub proof fn law_heartbeat_touches_only_the_sender(v: MembershipView, p: Seq<char>, q: Seq<char>)
    requires
        v.time < u64::MAX,
    ensures
        v.members.contains_key(p) ==> v.after_heartbeat(p).members[p] == v.time + 1
            && v.after_heartbeat(p).level(p) == 0 && v.after_heartbeat(p).time == v.time + 1,
        !v.members.contains_key(p) ==> v.after_heartbeat(p) == v,
        q != p ==> v.after_heartbeat(p).members.contains_key(q) == v.members.contains_key(q),
        q != p && v.members.contains_key(q) ==> v.after_heartbeat(p).members[q] == v.members[q],
        q != p ==> v.after_heartbeat(p).level(q) == v.level(q),
{
}

/// At a tick, a member that is not overdue keeps its suspicion; an overdue
/// member gains one level, and is removed exactly when that reaches the
/// limit. The time advances by one.
pub proof fn law_tick_raises_only_overdue_members(v: MembershipView, q: Seq<char>)
    requires
        v.consistent(),
        v.time < u64::MAX,
    ensures
        v.after_tick().time == v.time + 1,
        v.members.contains_key(q) && !v.overdue(q) ==> v.after_tick().members.contains_key(q)
            && v.after_tick().level(q) == v.level(q),
        v.overdue(q) && v.level(q) + 1 < SUSPICION_LIMIT ==> v.after_tick().members.contains_key(q)
            && v.after_tick().level(q) == v.level(q) + 1,
        v.overdue(q) && v.level(q) + 1 >= SUSPICION_LIMIT ==> !v.after_tick().members.contains_key(
            q,
        ),
{
}

/// A tick reports a member exactly when it either becomes suspected for the
/// first time (its level goes from zero to one) or is removed by the tick.
pub proof fn law_tick_reports_new_suspects_and_removals(v: MembershipView, q: Seq<char>)
    requires
        v.consistent(),
        v.time < u64::MAX,
    ensures
        v.reported_set().contains(q) <==> v.members.contains_key(q) && ((v.level(q) == 0
            && v.after_tick().members.contains_key(q) && v.after_tick().level(q) == 1)
            || !v.after_tick().members.contains_key(q)),
{
}

/// Joining, leaving and heartbeats keep the membership invariant.
pub proof fn law_membership_updates_keep_consistent(v: MembershipView, p: Seq<char>)
    requires
        v.consistent(),
        v.time < u64::MAX,
    ensures
        v.after_add(p).consistent(),
        v.after_remove(p).consistent(),
        v.after_heartbeat(p).consistent(),
{
}

/// Membership protocol managing join/leave and failure detection via heartbeats.
pub struct MembershipProtocol {
    node_id: String,
    heartbeat_interval_ms: u64,
    failure_timeout_ms: u64,
    members: KeyMap<String, u64>,
    suspicion: KeyMap<String, u32>,
    time: u64,
}

impl View for MembershipProtocol {
    type V = MembershipView;

    closed spec fn view(&self) -> MembershipView {
        MembershipView {
            node_id: self.node_id@,
            heartbeat_interval_ms: self.heartbeat_interval_ms,
            failure_timeout_ms: self.failure_timeout_ms,
            members: self.members@,
            suspicion: self.suspicion@,
            time: self.time,
        }
    }
}

impl MembershipProtocol {
    pub closed spec fn wf(&self) -> bool {
        &&& self.members.wf()
        &&& self.suspicion.wf()
        &&& self@.consistent()
    }

    /// The abstract state of a valid protocol is consistent.
    pub proof fn lemma_consistent(&self)
        requires
            self.wf(),
        ensures
            self@.consistent(),
    {
    }

    /// Create a new membership protocol instance.
    pub fn new(node_id: &str, failure_timeout_ms: u64) -> (m: Self)
        ensures
            m.wf(),
            m@ == (MembershipView {
                node_id: node_id@,
                heartbeat_interval_ms: failure_timeout_ms / 3,
                failure_timeout_ms,
                members: Map::empty(),
                suspicion: Map::empty(),
                time: 0,
            }),
    {
        MembershipProtocol {
            node_id: node_id.to_owned(),
            heartbeat_interval_ms: failure_timeout_ms / 3,
            failure_timeout_ms,
            members: KeyMap::new(),
            suspicion: KeyMap::new(),
            time: 0,
        }
    }

    /// Add a peer to the membership list.
    pub fn add_peer(&mut self, peer_id: &str)
        requires
            old(self).wf(),
            old(self)@.time < u64::MAX,
        ensures
            final(self).wf(),
            final(self)@ == old(self)@.after_add(peer_id@),
    {
        self.time = self.time + 1;
        self.members.insert(peer_id.to_owned(), self.time);
        self.suspicion.remove(&peer_id.to_owned());
        assert(self@ =~= old(self)@.after_add(peer_id@));
    }

    /// Remove a peer from the membership list.
    pub fn remove_peer(&mut self, peer_id: &str) -> (was_member: bool)
        requires
            old(self).wf(),
        ensures
            final(self).wf(),
            final(self)@ == old(self)@.after_remove(peer_id@),
            was_member == old(self)@.members.contains_key(peer_id@),
    {
        let key = peer_id.to_owned();
        self.suspicion.remove(&key);
        let r = self.members.remove(&key);
        assert(self@ =~= old(self)@.after_remove(peer_id@));
        r.is_some()
    }

    /// Record a heartbeat from a peer.
    pub fn receive_heartbeat(&mut self, peer_id: &str)
        requires
            old(self).wf(),
            old(self)@.members.contains_key(peer_id@) ==> old(self)@.time < u64::MAX,
        ensures
            final(self).wf(),
            final(self)@ == old(self)@.after_heartbeat(peer_id@),
    {
        let key = peer_id.to_owned();
        if self.members.contains_key(&key) {
            self.time = self.time + 1;
            self.members.insert(key, self.time);
            self.suspicion.remove(&peer_id.to_owned());
            assert(self@ =~= old(self)@.after_add(peer_id@));
        }
    }

    /// Get the list of live members, each once, in no promised order.
    pub fn members(&self) -> (r: Vec<String>)
        requires
            self.wf(),
        ensures
            string_views(r@).no_duplicates(),
            string_views(r@).to_set() == self@.members.dom(),
    {
        proof {
            self.members.lemma_keys();
        }
        let r = self.members.copy_keys();
        assert(string_views(r@) =~= self.members.keys());
        r
    }

    /// Get number of live members.
    pub fn member_count(&self) -> (n: usize)
        requires
            self.wf(),
        ensures
            n == self@.members.len(),
    {
        self.members.len()
    }

    /// Check if a peer is alive.
    pub fn is_alive(&self, peer_id: &str) -> (b: bool)
        requires
            self.wf(),
        ensures
            b == self@.members.contains_key(peer_id@),
    {
        self.members.contains_key(&peer_id.to_owned())
    }

    /// Get suspicion level for a peer.
    pub fn suspicion_level(&self, peer_id: &str) -> (level: u32)
        requires
            self.wf(),
        ensures
            level == self@.level(peer_id@),
    {
        match self.suspicion.get(&peer_id.to_owned()) {
            Some(s) => *s,
            None => 0,
        }
    }

    /// Generate a heartbeat payload to send to peers.
    pub fn heartbeat(&self) -> (r: (&str, u64))
        ensures
            r.0@ == self@.node_id,
            r.1 == self@.time,
    {
        (self.node_id.as_str(), self.time)
    }

    /// Tick: advance time and check for failures.
    /// Returns the peers that became suspected or were removed at this tick,
    /// each once, in no promised order.
    pub fn tick(&mut self) -> (reported: Vec<String>)
        requires
            old(self).wf(),
            old(self)@.time < u64::MAX,
        ensures
            final(self).wf(),
            final(self)@ == old(self)@.after_tick(),
            string_views(reported@).no_duplicates(),
            string_views(reported@).to_set() == old(self)@.reported_set(),
    {
        let ghost pre = self@;
        let ghost keys = self.members.keys();
        proof {
            self.members.lemma_keys();
        }
        self.time = self.time + 1;
        let interval = self.heartbeat_interval_ms.max(1);
        let missed = (self.failure_timeout_ms / interval).max(MIN_MISSED_INTERVALS);
        let timeout_threshold = self.time.saturating_sub(missed);
        let threshold = if timeout_threshold > GRACE_TICKS {
            timeout_threshold - GRACE_TICKS
        } else {
            0
        };
        assert(threshold == pre.next_threshold());
        let mut failed: Vec<String> = Vec::new();
        let mut reported: Vec<String> = Vec::new();
        let n = self.members.len();
        let mut i: usize = 0;
        while i < n
            invariant
                self.time == pre.time + 1,
                self.node_id@ == pre.node_id,
                self.heartbeat_interval_ms == pre.heartbeat_interval_ms,
                self.failure_timeout_ms == pre.failure_timeout_ms,
                self.members.wf(),
                self.suspicion.wf(),
                self.members@ == pre.members,
                self.members.keys() == keys,
                keys.no_duplicates(),
                forall|p: Seq<char>| #[trigger] pre.members.contains_key(p) <==> keys.contains(p),
                pre.consistent(),
                n == keys.len(),
                i <= n,
                threshold == pre.next_threshold(),
                forall|p: Seq<char>| #[trigger]
                    self.suspicion@.contains_key(p) <==> (pre.suspicion.contains_key(p) || (
                    keys.take(i as int).contains(p) && pre.overdue(p))),
                forall|p: Seq<char>| #[trigger]
                    self.suspicion@.contains_key(p) ==> self.suspicion@[p] == (if keys.take(
                        i as int,
                    ).contains(p) && pre.overdue(p) {
                        (pre.level(p) + 1) as u32
                    } else {
                        pre.suspicion[p]
                    }),
                string_views(failed@).no_duplicates(),
                forall|p: Seq<char>| #[trigger]
                    string_views(failed@).contains(p) <==> (keys.take(
                        i as int,
                    ).contains(p) && pre.fails_next(p)),
                string_views(reported@).no_duplicates(),
                forall|p: Seq<char>| #[trigger]
                    string_views(reported@).contains(p) <==> (keys.take(
                        i as int,
                    ).contains(p) && (pre.suspected_next(p) || pre.fails_next(p))),
            decreases n - i,
        {
            let ghost k = keys[i as int];
            let ghost fv = string_views(failed@);
            let ghost rv = string_views(reported@);
            proof {
                lemma_take_grow(keys, i as int);
                lemma_not_in_prefix(keys, i as int);
                assert(keys.contains(k));
            }
            let peer = self.members.key_at(i);
            let last = *self.members.value_at(i);
            if last < threshold {
                let level = match self.suspicion.get(peer) {
                    Some(s) => *s,
                    None => 0,
                };
                assert(level == pre.level(k));
                let bumped = level + 1;
                self.suspicion.insert(peer.clone(), bumped);
                if level == 0 || bumped >= SUSPICION_LIMIT {
                    reported.push(peer.clone());
                    proof {
                        assert(string_views(reported@) =~= rv.push(k));
                        lemma_push_fresh(rv, k);
                    }
                }
                if bumped >= SUSPICION_LIMIT {
                    failed.push(peer.clone());
                    proof {
                        assert(string_views(failed@) =~= fv.push(k));
                        lemma_push_fresh(fv, k);
                    }
                }
            }
            i += 1;
        }
        assert(keys.take(n as int) =~= keys);
        let ghost mid = self.suspicion@;
        let ghost fv = string_views(failed@);
        let mut j: usize = 0;
        while j < failed.len()
            invariant
                self.time == pre.time + 1,
                self.node_id@ == pre.node_id,
                self.heartbeat_interval_ms == pre.heartbeat_interval_ms,
                self.failure_timeout_ms == pre.failure_timeout_ms,
                self.members.wf(),
                self.suspicion.wf(),
                j <= failed@.len(),
                fv == string_views(failed@),
                forall|p: Seq<char>| #[trigger]
                    self.members@.contains_key(p) <==> (pre.members.contains_key(p)
                        && !fv.take(j as int).contains(p)),
                forall|p: Seq<char>| #[trigger]
                    self.members@.contains_key(p) ==> self.members@[p] == pre.members[p],
                forall|p: Seq<char>| #[trigger]
                    self.suspicion@.contains_key(p) <==> (mid.contains_key(p) && !fv.take(
                        j as int,
                    ).contains(p)),
                forall|p: Seq<char>| #[trigger]
                    self.suspicion@.contains_key(p) ==> self.suspicion@[p] == mid[p],
            decreases failed@.len() - j,
        {
            proof {
                lemma_take_grow(fv, j as int);
            }
            self.members.remove(&failed[j]);
            self.suspicion.remove(&failed[j]);
            j += 1;
        }
        assert(fv.take(j as int) =~= fv);
        assert(self.members@ =~= pre.after_tick().members);
        assert(self.suspicion@ =~= pre.after_tick().suspicion);
        assert(string_views(reported@).to_set() =~= pre.reported_set());
        proof {
            lemma_tick_keeps_consistent(pre);
        }
        reported
    }

}

} // verus!
