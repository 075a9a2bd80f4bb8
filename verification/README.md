# wrpc

Serving WebAssembly components over wRPC, with the logic verified by Verus.

- `src/` is the library: decoding of dynamically typed values, subscriptions for their
  asynchronous parts, and the decisions that running a component takes. Every function has a
  contract, and every contract is proved but those of five wrappers, which are believed: of the
  standard library's conversions to a character and to a string in `src/primitive.rs` and to an
  array in `src/subscribe.rs`, and of the `url` and `wasmparser` calls in `src/workload.rs`. What
  is believed of each stands above it.
- `app/` is the program around it: it talks to NATS, reads workloads and runs them with Wasmtime.
- `tests/` runs the library, in part against the payloads that the transport itself writes and
  reads.

A payload is decoded from a buffer that holds what has arrived of it. Decoding says that it is
done, that it needs more, that a resource has to be decoded by the caller, or that the payload is
invalid; the first and the last hold whatever arrives later.
