# rust_interview_lab

Interview-style data structures, algorithms, parsers and concurrency
building blocks, written in Verus: every function in `src/` carries a
contract, and Verus proves the code meets it.

- `src/` is the verified library. Collections (LRU caches, tries, bounded
  queues, rings, a bump arena, consistent-hash rings), graph searches over
  index-based and keyed adjacency lists, an HTTP/1.1 request parser, the
  decision logic of retry loops, rate limiters and thread pools, and the
  string and tree helpers they use. Public proof functions state the laws
  that relate several operations, such as a tree read back from its
  serialized lines, or keys that move only to a newly added ring node.
- `app/` holds what needs threads, locks, clocks, files, sockets or an async
  runtime. Each piece keeps the waiting and the I/O and asks the library for
  the decisions.
- `tests/` runs the library on concrete inputs.
