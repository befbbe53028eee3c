# sevent

A single-threaded event loop over `mio`, with the byte buffers that its
connections read and write length-prefixed frames with.

- `src/` is the verified library:
  - `frame.rs`: the frame format (a 4-byte big-endian length, then the
    payload) and the laws that frames written are read back, in order;
  - `circular_buf.rs`: `CircularBuffer`, a ring of bytes that doubles when full;
  - `iobuf.rs`: `IoBuffer`, a queue of chunks written at the back and read at
    the front;
  - `ext.rs`: frames in a plain `Vec<u8>`, and conversions of durations;
  - `connection.rs`: what a connection does after each read or write;
  - `evloop.rs`: the loop's state between polls, its work budget and the
    random order of its queues;
  - `handlers.rs`: the callbacks of timers, ticks and channels;
  - `lib.rs`: event tokens (an id and a kind in one `usize`) and `Config`.
- `app/` is the loop itself: polling, sockets, channels, timers, the
  registries of sources, and `bincode` (de)serialization of frames.
- `tests/` exercise the library.
