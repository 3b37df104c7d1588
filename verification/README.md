# lichtung

Actors whose causality can be observed. Every message is stamped with a vector clock; every
event of a run goes to a causal log; a recorded log can be replayed, event by event, through one
linear extension of its happens-before order. The library is written and proved in Verus.

## Layout

- `src/clock.rs`, `src/clock_map.rs`: vector clocks and Lamport stamps.
- `src/causality.rs`: clocks tell exactly what happened before what.
- `src/log.rs`, `src/event.rs`, `src/text.rs`: the events of the log, their names, and its lines.
- `src/actor.rs`, `src/context.rs`, `src/envelope.rs`, `src/addr.rs`, `src/mailbox.rs`,
  `src/dispatch.rs`: actors, the stamping rules, and the seam to the backend.
- `src/prod/`: what the production executor decides: message numbers, messages in flight,
  delivery, the life of an actor, and when the log is flushed.
- `src/replay/`: the order of a recorded log, its canonical timeline, and the re-execution of
  actors against it.
- `app/`: JSON, files and tasks around the library.
- `tests/`: what the library does on concrete values.
