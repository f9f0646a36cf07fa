# riverbed

An in-memory publish/subscribe message broker with bounded per-subscriber
queues, written in Verus and verified.

- `src/topic.rs`: topic names and `*`-wildcard patterns, matched segment by
  segment; `matches` is proved equal to the specification `topic_matches`.
- `src/broker.rs`: the `Broker`, its abstract model `BrokerView`, and the
  operations `subscribe`, `unsubscribe`, `publish`, `receive` and the
  counters, each with a contract over the model.
- `src/error.rs`: `BrokerError` and its verified text.
- `src/laws.rs`: properties that span operations (bounded queues and
  memory, ids never reused, unsubscribe undoing subscribe, counters summing
  up, delivered = queued + received + evicted, first-in-first-out order for
  any number of publishes, whatever matching topic each uses, independence of subscribers).
- `src/history.rs`: a model of any sequence of calls, and the law that over
  any such history every subscriber's delivered count is its queued,
  received and evicted messages, with ids never coming back.
- `app/main.rs`: the `riverbed demo` command line program.
- `tests/`: scenarios run against the compiled library.

## Design notes

- A subscriber keeps the queue depth it was given. With depth 0 it never
  queues anything: every matching message counts as a drop, under either
  policy, since there is no oldest message to evict.
- Subscribers are held in a `Vec` ordered by id rather than in a
  `HashMap<u64, _>`. `receive` and `publish` change subscribers in place,
  and vstd specifies no `get_mut`, `values_mut` or `iter_mut` for `HashMap`;
  taking each subscriber out with `remove` and putting it back with
  `insert` would rehash every matching subscriber on each publish and
  receive, and publish would have to walk the map in its hash order.
  Ids are handed out in increasing order and never reused, so the list
  stays sorted with no id twice (part of the proved invariant), lookups by
  id are a binary search, and `publish` visits subscribers in a fixed order.
- Topic counters are a `Vec` of (name, counters) pairs with no name twice,
  seen as a `Map` from topic name to counters.
