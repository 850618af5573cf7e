# protohackers

Four small network servers and the verified library that makes their
decisions.

- `src/arena.rs`: a generational arena (slots, a free list threaded through
  the vacant slots, versions that make stale handles fail) and the packing of
  an index into the 64-bit user data of an io_uring operation.
- `src/chat.rs`: the chat room of the io_uring server: operations in flight,
  clients, and what each completion makes the server submit next.
- `src/asset.rs`: prices by timestamp, the mean over a time range, and the
  nine-byte request format.
- `src/prime.rs`: primality of whole numbers.
- `src/database.rs`: the key-value store served one datagram at a time.
- `src/text.rs`: UTF-8 validation, byte comparison and line trimming.
- `app/`: the servers themselves (sockets, threads, io_uring, JSON), which
  hand bytes and numbers to the library and send what it answers.
