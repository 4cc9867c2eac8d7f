# mpmc_async

A multi-producer, multi-consumer async channel with reservations, verified with Verus.

A sender can reserve places in the channel's bounded queue ahead of time (`try_reserve`,
`try_reserve_many`, `try_reserve_owned`) and fill them later; values are read in the order of
their reservations, whatever the order in which the reservations are filled.

## Layout

- `src/linked_list.rs`: a doubly linked list whose entries can be removed, read, changed or
  used as anchors in O(1) through the handle returned when they were pushed. Nodes live in a
  vector of slots; stamps keep handles to removed entries from resolving again.
- `src/queue.rs`: the channel's buffer, a list of spots holding values or reservations, with
  the number of places they take kept within the capacity.
- `src/state.rs`: the channel's decisions (`InnerState`), one method per event, and the
  shared state (`State`) that runs them under a lock and wakes the tasks they name.
- `src/lib.rs`: the ends of the channel (`Sender`, `Receiver`) and the permits.
- `app/lib.rs`: the futures behind the waiting operations (`send`, `reserve`, `recv`, ...),
  an `Iterator` over the permits of a reservation, and error types that can be displayed.

Every executable function in `src/` is verified against its contract, except a few trusted
items, each with a doc comment that says what is assumed:

- the wrappers around `std::task::Waker`: `wake` and `wake_by_ref`, of which nothing is stated,
  and `clone`, whose copy is what `Clone::clone` gives. They run the executor's own code, so
  the promise not to panic holds only for wakers that do not panic;
- the wrapper around `Arc::clone`, whose copy holds the same value;
- the two wrappers that draw a list's identity from `RandomState`, of which nothing is stated;
  identities are random, so two lists share one only by a chance of about one in 2^64;
- the destructors of `Sender`, `Receiver` and the three permit types. A destructor is required
  to open no invariant and not to unwind; these take the channel's lock and wake tasks, so they
  are trusted, and each only calls a verified method (`leave`, `release_unused`,
  `release_rest`).

The laws of the list, the queue and the channel are proof functions beside the code they
speak of; `src/delivery.rs` states that no value is lost or received twice over any run of the
channel's operations. The channel's state sits behind a lock shared by all its ends, so the
contracts of `State`'s operations that take the lock, and of the `Sender`, `Receiver` and
permit methods built on them, say that each operation does, to some state the lock can hold,
exactly what `InnerState` decides; `InnerState`'s own contracts are exact. The destructors are
the exception: they are trusted, as said above.

A list hands out handles that carry its identity, a random 64-bit number drawn when the list is
made; a handle is answered only by a list with the same identity.
