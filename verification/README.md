# neobft

Verified, sans-I/O cores of Byzantine fault tolerant protocols.

- `src/protocol/neo`: a replica that executes requests in the order of an
  authenticated multicast. `model.rs` says what each step means, `replica.rs`
  and `shared.rs` implement it. `laws.rs` holds what follows for each step,
  `runs.rs` what follows for any number of steps, and `delivery.rs` that the
  order in which messages are delivered does not matter.
- `src/protocol/zyzzyva`: a client that commits a speculative result once all
  replicas agree on it, laid out in the same way.
- `src/config.rs`, `src/config_text.rs`, `src/text.rs`: the configuration of a
  cluster and its text form.
- `src/transport.rs`, `src/app.rs`: what a network and a replicated application
  have to offer.
- `src/executor.rs`: hands out tasks on a shared state to threads.

Handling a message or an event never blocks, sends or signs anything. It returns
what is to be done, and `app/` does it with threads, timers and a network.
