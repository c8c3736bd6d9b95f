# jftermd

A terminal multiplexer daemon. It keeps shells running in PTYs, holds a
sanitized, replayable buffer of each shell's output, and serves one client per
session over a Unix domain socket.

The library (`src/`) is free of I/O and verified with Verus:

- `unit`, `action`: complete pieces of a terminal stream, and the `vte` parser
  as a function from bytes to recorded actions.
- `sink`, `scanner`, `rendition`, `palette`, `sticky`, `status`, `ring`,
  `engine`: which spans of the stream are kept, dropped or clear the buffer, and
  the state that outlives them.
- `stream`, `restore`, `replay`: what holds of whole streams, however they are
  split into reads. Text is replayed verbatim, no sequence is split, and however
  few chunks are replayed, the terminal ends up in the tracked state. A replay
  holds no bell, notification, clipboard write or prompt marker, and none of the
  questions that make a terminal answer: status reports, device attributes, the
  terminal's version, the state of a mode, colours, capabilities and settings.
- `protocol`, `connection`: frames on the wire and what they ask for.
- `pty`, `session`, `server`, `registry`, `idle`: the decisions around a shell
  process, its session, the session's single client, and the daemon's own end.
- `socket`, `daemon`, `args`: starting up.

The program (`app/`) makes the system calls, moves bytes, and performs what the
library decides.
