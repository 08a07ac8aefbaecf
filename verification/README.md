# protohackers

Verified cores of four small TCP services, with a thin async application
around them.

- `src/mean.rs`: nine-byte price messages, the per-connection price history
  (a `BTreeMap`) and the mean-price query.
- `src/proxy.rs`: cutting chat messages into words and rewriting payment
  addresses in each word with a compiled regular expression.
- `src/primes.rs`: an incremental sieve of Eratosthenes and the answer to
  each primality request.
- `src/wire.rs`: the binary wire format of the speed-camera service.
- `src/speed.rs`: dispatcher registration, held-back tickets, the
  introduction rule and the heartbeat state machine of that service.
- `src/arith.rs`: divisibility facts the sieve's proofs use.

`app/` holds the sockets, JSON (de)serialisation and task plumbing; run it
with one of `mean`, `proxy`, `prime` or `speed`.
