# sentinel_core

An NGAC-inspired authorization library whose decision logic is verified with
Verus.

- `src/attrs.rs`: multi-valued attribute maps (`AttrMap`), viewed as a map
  from key to a set of values, with order-insensitive equality.
- `src/graph.rs`: the policy graph (user attributes, object attributes,
  policy classes, associations, OA→PC assignments), its mathematical model
  `GraphModel`, every mutation with its exact effect on the model, and the
  read interface `PolicyView`.
- `src/pep.rs`: the point check `evaluate`, the list-filter resolution
  `scope` and the enumeration `reachable`, all specified against the
  authorization relation `allows`, and the proof that a resource is
  admitted by the resolved scope exactly when `evaluate` allows it. Object
  attributes match resources with `All`, `Matching { key, values }` or
  `Relative { resource_key, subject_key }`.
- `src/aggregate.rs`: the event-sourced aggregate's decisions: command
  validation (`handle_command`), event application (`apply`), and laws on
  replaying event logs.
- `src/time_travel.rs`: the instant-to-version translation over the policy
  stream (`version_at`) and fail-closed historical queries
  (`evaluate_historical`, `scope_historical`, `reachable_historical`).
- `app/`: the unverified I/O around the library: serde forms of the types,
  the aggregate wired to the epoch event-sourcing framework, and async
  time-travel queries.
- `tests/`: executable tests of the library.

Node ids are `u128` values (the bits of a UUID).
