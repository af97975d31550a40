# mamrot

An HTTP fuzzer: a client that floods a server with randomly built requests,
and a server (`mamrotd`) that answers anything with randomly built responses.
Every random choice comes from a generator seeded per batch, and the seeds are
logged to a ring buffer file so that a batch can be drawn again.

The library under `src/` is verified with Verus:

- `rng` — the draws the generators make (`RandomSource`), for rand's `StdRng`
  and `SmallRng`.
- `draws` — `Draws`, a random source that keeps a ghost log of every draw it
  hands out: the call and range (an integer draw records its integer type),
  or the list asked for, and the value given.
- `rotation` — what a rotation builds, as a function of its draws.
- `tables` — the fuzzing dictionaries.
- `bytes` — byte string helpers and their mathematical counterparts.
- `rubik` — the `Cube` and `rotate`. `rotate` states its result as the
  function of the draws it made, and `lemma_rotation_replays` proves that the
  same draws give the same rotation and are consumed to the same point.
- `http` — fuzzed requests and responses, each stated as the function of its
  draws, and the status code parser.
- `seed` — the seed log format: little-endian slots in a ring.
- `traffic` — when a client worker pauses, gives up, and how long writes take.
- `stats` — the totals of a run and the per-second report.

What is proved is that requests and responses are determined by the values
drawn. That a seed makes rand's `StdRng` or `SmallRng` hand out the same
values again is rand's own promise; nothing here proves it.

`app/` holds the programs: argument parsing, files, sockets and the tokio
runtime. Started under the name `mamrotd`, the binary runs the server.
