# kafka_clone

A verified core for a small publish/subscribe system made of a coordinator,
brokers, producers and consumers.

- `src/brokermap.rs`: the coordinator's registry of which brokers hold which
  topic, modelled as a map from topic to a set of brokers, with its laws.
- `src/coordinator.rs`: the coordinator's answers to broker announcements and
  metadata requests.
- `src/eventlog.rs`: the broker's on-disk layout (event log plus index table of
  8-byte little-endian start positions), how an event is located and read, and
  the proof that reading event `k` of a log built by publishing gives back the
  `k`-th published name.
- `src/producer.rs`: the producer's ring buffer, its retry backoff and the
  round-robin choice of broker.
- `src/timestamp.rs`: timestamp text (through chrono) and the broker's
  acknowledgement text.
- `app/`: file I/O, locking and async loops around the library.
