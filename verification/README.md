# ternary_channel

Verified communication channels for inter-room messaging, written in Verus.

- `message`: `Message` (with a view by contents) and the ternary
  `TernaryPriority` (-1, 0, +1).
- `channel`: the `Channel` trait. Its contract holds for every channel:
  `receive` hands out the first message of the channel's delivery order,
  and a closed channel refuses sends and hands out nothing.
- `direct`: `DirectChannel`, a bounded FIFO queue.
- `broadcast`: `BroadcastChannel`, unique subscribers each with a bounded
  inbox; `send` copies a message once for every current subscriber,
  `receive_for` takes a subscriber's oldest copy and `receive` the oldest
  copy of all.
- `priority`: `PriorityChannel`, one FIFO band per priority; positive
  messages leave first, then neutral, then negative.
- `reliable`: `ReliableChannel`; `send` delivers the message to the inbox
  that `receive` reads and tracks a copy in the outbox, where it is
  acknowledged, retried (delivered again) up to a limit, or marked failed.
- `mux`: `ChannelMux`, named direct sub-channels with round-robin
  `receive_any`.
- `seqs`: lemmas about filtered sequences.

Each type has a view (an abstract state) and a well-formedness predicate;
every public function states its result and the new view exactly in terms
of spec functions, and the proof functions named `lemma_*` state the laws
that relate several operations (FIFO order, priority order, undoing a
subscription or a sub-channel, fan-out of a broadcast to every subscriber,
acknowledgement surviving retries, failure after the retry limit,
round-robin fairness).
