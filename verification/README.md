# aivpn_server

The logic of a VPN server whose packets imitate other protocols: how a packet finds its session,
what a client may send and ask for, which masks a region is told about, how settings, keys and
bootstrap descriptors come about. Every function of the library states what it returns or
changes, and Verus proves it.

- `src/` is the verified library. `receive`, `ingress`, `session_lookup` and `candidates` take a
  packet from the network to its session; `data_plane`, `downlink`, `icmp` and `kernel` carry what is inside;
  `control`, `rotation` and `housekeeping` decide what the server does on its own or when asked;
  `mask_feedback`, `hints`, `feedback_map`, `feedback_laws`, `hll` and `region` count reports on
  masks without keeping who made them; `mask_catalog`, `layout`, `validate` and `mask_repair` are
  about masks; `bootstrap`, `publish`, `settings`, `management`, `enroll` and `dns` about running
  a server; `throttle`, `batch`, `peer`, `bytes` and `text` serve the others.
- `src/outside.rs` and `src/outside_maps.rs` hold everything that is believed without proof: the
  calls into other crates, each with what is claimed of it.
- `tests/` runs the library on concrete values.
- `app/` is the program around the library: arguments, files, sockets, the HTTP API. Sessions,
  ciphers and the tunnel device are linked in through the traits of `app/linked.rs`.

Times are nanoseconds on one monotonic clock unless a name says otherwise, and are passed in.
Scores and reporter counts are exact fractions and integers; there is no floating point in `src/`.
