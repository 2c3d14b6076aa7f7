# iris

The decision logic of Iris, a platform that forwards TCP and UDP traffic
through chains of relay nodes under a central master, written in Verus and
proved against its contracts.

`src/` is the verified library:

- `model`, `rules`, `cli`: forwards, hops and targets; checking and
  normalising a create/edit request; port conflicts; quotas; the command
  line's short path form.
- `lb`, `rank`, `dataplane`: choosing the next node of a hop (weighted round
  robin, weighted rendezvous hashing, least connections, lowest latency) and
  the order of targets at the exit.
- `control`, `node`, `session`, `neighbor`: what the master accepts from a
  node's heartbeat, the rules it sends back, node health, how a node
  reconciles its listeners, the table of a node's sessions, and the
  bookkeeping of its neighbor probes.
- `flows`, `conntrack`, `fastpath`: the kernel fast path: parsing the
  connection-tracking table, per-forward byte accounting, the packet-filter
  scripts and the capability probe.
- `frame`: the length prefix of the raw tunnel's frames.
- `api`, `auth`, `latency`, `calendar`, `net`, `common`, `upgrade`,
  `metrics`, `records`, `text`, `assoc`: the master's API rules, passwords
  and rate limits, the latency matrix, calendar arithmetic for quota resets,
  IP text, certificates, remote upgrades and the resource report.

`app/` holds what cannot be verified: running `nft`, reading `/proc`,
certificate files on disk, token buckets, floating-point averages and the
JSON forms of the values.
