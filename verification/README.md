# compute_controller

The controller of a compute instance, verified with Verus.

A compute instance maintains collections (indexes, sinks and logs) on a set of replicas, each of
which does all of the work. The controller decides which commands the replicas get, which of
their answers are passed on, how far each collection may be compacted, and when a collection or a
replica can go.

## Layout

- `src/` is the library.
  - `instance.rs` and `instance/` hold the state and the requests: replicas, dataflows, peeks,
    read policies, and the responses of replicas.
  - `model.rs` and `propagation.rs` say what each request turns an instance into.
  - `laws.rs` and `laws/` prove what holds of the requests together: every read capability is
    held by someone, what is held readable is readable, read frontiers never move back, the
    storage controller is asked for exactly what the collections need, creating a dataflow moves
    no read frontier, a peek and its answer and a dataflow that is created and dropped leave
    nothing behind, a peek is answered at most once, the batches of a subscription follow one
    another without repeating an update, and a new replica is told of every pending peek. The
    accounts of the read capabilities balance as long as names are not used twice: a peek that is
    pending, an output that is tracked, a log of a new replica that is still read, or a
    collection within one list of reported frontiers, and as long as read policies are assigned
    to collections that exist.
  - `frontier.rs` and `changes.rs` hold the calls into timely dataflow, with what is relied on of
    each.
- `tests/` runs the library.
- `app/` connects an instance to its replicas, to an orchestrator and to a storage controller.

An instance performs no I/O. It queues `Action`s, which its surroundings carry out in order.

Times are 64-bit numbers. Rows, plans, metadata and tracing contexts are a type parameter that
the library passes through. The rule by which a read policy follows the write frontier is a type
parameter too.
