# Limitless

A bounded ring buffer for any number of readers and writers, verified with Verus.

- `RingBuffer` is the ring in the hands of one owner. Its contracts say exactly what each call
  returns and which items it leaves.
- `SharedRing` is the ring that threads share, on atomic words and cells. A thread runs a `ReadOp`
  or a `WriteOp` on it, with a bound on the number of steps; every step is one atomic access.
- `Layout` encodes indices: a slot number, and the number of laps before it, as far as the word
  goes.
- `ops` says what each step of an operation does, for both rings.
- `protocol` runs any number of operations on one ring, their steps in any order, and keeps the
  ring's history; `laws` states what follows: values come out whole, once and in order, and none
  is overwritten or lost. `batches` says which reads are served and which writes are accepted,
  `order` that later operations come later in the queue, `progress` how many accesses an operation
  takes that nobody holds up.
- `outside` declares what the library takes from crossbeam and `core`, and what it relies on there.

`protocol` takes the accesses of all threads one after the other. An operation claims a slot by
comparing indices, and an index comes back when the machine word runs over: after at least half as
many operations as a word has values. What the laws say of order and of loss, they say of runs in
which no operation that is about to claim a slot sees so many others go by. That every value read
was stored by a write, and is read at most once, holds without this limit (`sources`).

A write reports `Full` where the read index that it loads is on the slot of its own index, in another
lap. A writer that others leave behind by whole laps, between two of its accesses, can report `Full`
although the ring has room again. Items that nobody reads are not dropped with the ring.

`app/` holds the loops that run an operation to its end, the USDT probes and a load test.
