# gossip_sub

Gossip-based message dissemination, verified with Verus.

- `src/message.rs`: `GossipMessage`, its hop limit and its id `(origin, sequence)`.
- `src/peers.rs`: `PeerState`, peers with their topic subscriptions and last-seen times.
- `src/router.rs`: `GossipRouter`, fan-out broadcast and deduplicating receive.
- `src/membership.rs`: `MembershipProtocol`, heartbeats and suspicion-based failure detection.
- `src/anti_entropy.rs`: `AntiEntropy`, digests, diffs and requests for missing messages.
- `src/keyed.rs`: `KeyMap`, the insertion-ordered map under all of the above.

Each stateful type has a view (`...View`) and spec functions for its
transitions (`after_tick`, `after_receive`, ...); the executable methods are
proved to implement them exactly, and the public `law_*` proof functions state
what holds across calls, including over whole sequences of calls
(`after_ticks`, `after_steps`). `src/keyed.rs` is internal to the crate. `app/` supplies message sequence numbers from a
process-wide counter.
