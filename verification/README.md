# wayland_commons

The protocol machinery shared by Wayland clients and servers, verified with
Verus: the wire format of messages, the buffering of a connection, the map of
protocol objects, the client's bookkeeping of objects and events, the lists of
advertised globals, and cursor animations.

## Layout

- `src/` is the verified library.
  - `words.rs`: words and the bytes they hold in memory.
  - `wire.rs`: arguments and messages, writing them into buffers and parsing
    them back (`law_write_then_parse`).
  - `socket.rs`: the buffers of a connection and the reading of messages out
    of them (`law_message_crosses_the_socket`).
  - `map.rs`: the object map and its ids, with its laws.
  - `client.rs`: what events, requests and dispatching do to a client's map.
  - `globals.rs`, `env.rs`: the globals a compositor advertises, and binding.
  - `cursor.rs`, `decimal.rs`: cursor images and animations, cursor themes.
  - `connect.rs`: where the environment says to connect.
  - `syscalls.rs`: what follows a system call in the blocking dispatch and
    in the creation of shared memory (retry, wait, fall back, give up).
  - `fd.rs`, `utils.rs`, `protocol.rs`, `backend.rs`: descriptors, an
    append-only list, interface descriptions, shared error types.
- `tests/` runs the library on concrete values.
- `app/` holds what talks to the system (the Unix socket, files, the
  environment) and the dynamically typed helpers that Verus cannot take.
