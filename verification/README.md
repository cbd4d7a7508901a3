# pnyx_transp2p

Peer-to-peer transfer logic, verified with Verus.

- `src/buckets.rs`: distance buckets of connected peers, their saturation level and
  the choice of the peers closest to a target.
- `src/route_tab.rs`: route trees, the merging of route items, and the route table
  that keeps, per target and next hop, the route items by creation time.
- `src/transpp.rs`: the push/pull message exchange (announce a hash, pull the data,
  push it).
- `src/transp2p.rs`: the routed transfer behaviour: route discovery requests and
  answers, relayed data, data pulled by hash, and the periodic maintenance.
- `src/lru_cache.rs`, `src/hashing.rs`, `src/clock.rs`, `src/peer_text.rs`: the
  contracts under which the library uses the `lru`, `sp-core`/`parity-scale-codec`
  and `libp2p` crates and the system clock.
- `app/`: wire encodings of the messages, and the services that drive the library
  over a network.

The handlers of the library do no I/O: they return the packets to send and the
events to report, and their callers perform them.
