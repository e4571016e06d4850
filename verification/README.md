# telemt

The verified core of a Telegram MTProto proxy front end, written in Verus.

- `src/ip_tracker.rs` admits client addresses per user: limits on addresses with
  open sessions or seen within a time window, caps on the whole, deferred
  releases, compaction. `src/tracker_model.rs` says what each operation does to
  the state, `src/tracker_laws.rs` what holds of every state and of sequences of
  operations. `src/ip_shard.rs`, `src/ip_table.rs`, `src/cleanup_queue.rs`,
  `src/sorted_map.rs`, `src/names.rs` and `src/user_map.rs` are what it is built
  from.
- `src/pool_mux.rs` routes a client to one of several pools by its address;
  `src/shard_plan.rs` decides which source addresses get a pool.
- `src/me_startup.rs` and `src/me_init.rs` decide what start-up of the pools does
  next after each report of the host; `src/startup_laws.rs` states what holds of
  every course of start-up. `src/me_plan.rs` and `src/ad_tag.rs` read the
  settings.
- `src/alpn.rs` chooses the application protocol that a handshake answers with.
- `src/ip_text.rs` and `src/ip_format.rs` read and write addresses.

`app/` is the process around the core: the runtime, the lock around the tracker,
the environment, and the loop that performs what start-up decides. Times are
passed in as readings of the clocks; every operation that reads the clocks itself
has a counterpart, named with `_at`, that takes a reading.
