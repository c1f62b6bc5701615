# qaul_router

The routing layer of qaul's distance-vector protocol, written in Verus:
the functions in `src/` carry contracts that Verus proves, except the
small wrappers around outside crates and std described at the end, whose
contracts are trusted.

## Layout

- `src/codec/` — the wire format: message header, frames, the sections of
  indexes and mappings, and each message body with its encoder, decoder
  and a proof that decoding gives back what was encoded.
- `src/seq.rs`, `src/metric.rs` — sequence-number freshness with wrap-around,
  and the hop cost of each transport.
- `src/index.rs`, `src/dictionary.rs`, `src/indexes.rs`, `src/mirror.rs`,
  `src/table.rs` — the 16-bit index spaces: allocation with a cool-down,
  this node's own id↔index dictionaries and introduction marks, the
  dictionaries mirrored from each neighbour, and the routing table.
- `src/propagation.rs`, `src/receive.rs`, `src/mapping.rs`, `src/lookup.rs`,
  `src/expiry.rs` — what goes out in routing updates and index dumps, how
  incoming entries and mappings are judged, the next hop towards a user
  (its own route, else its cheapest live gateway's) and forwarding
  decisions, and route expiry.
- `src/manifest/`, `src/pull.rs` — node manifests: building, signing and
  verifying chunks, the change log and deltas, serving and pulling them.
- `src/identity.rs`, `src/profile.rs`, `src/admission.rs`,
  `src/delegation.rs`, `src/management.rs` — keys and signatures (every
  signature the library makes is stated to verify under the signing
  keypair's public key),
  profiles, delegation of users to gateway nodes, and management envelopes.
- `src/sphere.rs` — transports, spheres and the propagation form.
- `src/records.rs`, `src/tick.rs` — the records kept of users and nodes
  and what changes them (mappings, manifest deltas, profile responses,
  hosted users), the origin tick, the relay tick (expiry sweep, then the
  relay queue drained into routing updates) and the index dumps sent to a
  neighbour that comes up.
- `src/inbound.rs` — a received buffer handled frame by frame: routing
  updates (mappings, then entries translated, checked against the records,
  settled in the table and queued for relay), index dumps, manifest chunks
  assembled and committed (the origin's chunks kept to be served again),
  manifest deltas; the answers to a manifest request, item by item,
  through the serve decision and a per-peer rate window; and what each
  answer sends (the chunks of a full manifest, or a delta).
- `tests/` — tests on concrete values, one file per area.
- `app/` — the error types with `std::error::Error`, and the router state
  that holds the neighbours by peer id and queues the frames the library's
  decisions produce.

Signing, key encoding and hashing go through libp2p and sha2; the
occupancy bits of the allocator through bitvec; the random start of a
sequence number through rand; the clock through `std::time::Instant`.
Each such call is a small `#[verifier::external_body]` wrapper (declared
outside types likewise): Verus does not read its body and believes its
contract, which states what the crate's source or std's documentation
shows. These wrappers are trusted, not proved.
