# srp

A TCP proxy over one SSH connection that heals itself. Local programs speak
SOCKS5 or HTTP CONNECT to it. Their connections leave either as plain
`direct-tcpip` channels of the SSH server, or as streams to a small helper on
the server, which keeps the far ends open while the SSH connection is rebuilt:
both ends keep what the other has not acknowledged, and send it again.

## Layout

- `src/` is the library, written in Verus and proved. Nothing in it reads,
  writes or waits. Every part is a function from what has happened to what is to
  be done next.
  - `frame`, `addr`, `resume`: the wire protocol and the resumable byte streams
  - `mux`, `session`, `driver`: the client's end of the helper protocol
  - `helper`, `stream`, `allow`: the helper's end, and what it may connect to
  - `interop`: what holds of both ends together
  - `frontend`: SOCKS5 and HTTP CONNECT
  - `tunnel`: the supervision of the SSH connection, host keys, configuration
  - `cli`: targets, options and the setup dialogue
  - `testkit`: the rules of the test server and of the failing proxy
  - `text`, `ip`, `bigendian`, `buf`: numerals, addresses and byte buffers
- `tests/` runs the library on concrete values.
- `app/` is the program around it: sockets, SSH, files, the command line. It is
  one program under two names, `srp` and `srp-helper`.

## What is proved

Each public function states what it returns or changes for every input. The
functions whose names begin with `law_` state what holds across functions. The
central ones:

- nothing that can happen to a stream loses, repeats or reorders a byte, and
  after a reconnect everything that was written is delivered
  (`resume`, `interop`);
- frames are read back as they were sent, however the bytes are cut up
  (`frame`);
- a helper never claims to have resumed what it has lost (`helper`);
- writes during an outage are kept, or the stream is ended and said to be
  (`session`);
- a host key that has changed is refused under every policy that goes by the
  record (`tunnel::handler`);
- the shell on the server starts the helper with exactly the words that were
  meant (`tunnel::config`).

## What is taken on trust

The contracts of the `bytes` crate in `buf`, three conversions of the standard
library in `text`, the decoding of base64 in `frontend::http`, and a random
session number in `driver`, of which nothing is said. The pause between two
attempts to connect is floating-point arithmetic and stands in `app/`.
