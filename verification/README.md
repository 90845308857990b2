# solana_leader_precached

Keeps the leader schedule of the next epoch in memory before that epoch starts, so that requests
for slot leaders are answered across the epoch boundary. Without it, a node whose root lags behind
the tip answers such requests with JSON-RPC error -32602 for the first slots of an epoch.

* `src/` is the library, written in Verus. `LeaderScheduleCache` holds schedules by epoch, drops
  the least recently used one when it is full, and finds leaders. `LeaderSchedulePreCacher` decides
  when the next epoch is computed and takes in the result. `SlotLeaderRpcService` answers requests.
  Each function carries a contract over a view of its type; the modules whose names end in `_laws`
  state what holds across calls, above all that the gap at the boundary is closed
  (`pre_cacher_laws::law_boundary_gap_is_closed`).
* `app/` is the service around it: locks, background tasks, logging and error types.
* `tests/` runs the library with the crates that it calls.

What is believed without proof stands in `epoch_schedule.rs` and `leader_schedule.rs`: the calls
into `solana_epoch_schedule`, `solana_leader_schedule` and `solana_vote`, each in a function of its
own with a contract and a comment.
