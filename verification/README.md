# museek

A daemon for the Soulseek network: it keeps a session with the server, accepts
peers on a plain and an obfuscated port, and serves local clients over the
museek daemon interface.

The library (`src/`) is verified with Verus:

- `codec::wire` — little-endian integers, length-prefixed strings, IPv4
  addresses, frame headers and a read cursor, with the specifications the
  codecs are stated over.
- `codec::util` — packing and reading strings, paths and addresses, and zlib
  compression of message bodies.
- `codec::daemon`, `codec::server`, `codec::peer` — the three protocols. Each
  codec's `encode` appends exactly the frame its specification gives; each
  `decode` is stated as one step of a state machine over the bytes received
  (`*_decode_step`), and `try_decode` is total. Proof functions state the laws:
  reading a frame in two pieces gives what reading it at once gives (for the
  peer codec, except where the first piece ends inside the body of a frame with
  a one-byte handshake code: the codec then reads the body as if the code had
  four bytes), peer obfuscation undoes itself and 32 key rotations give the key
  back, a handshake frame reads back as written, a file entry reads back with
  either size width, and name tables hold each name once.
- `codec::structs` — file entries of search replies.
- `state` — the decisions the daemon makes between messages: tokens, what it
  sends after logging in, how it answers the server and its clients, and the
  challenge for a new client.
- `foreign` — the outside items the library calls (`bytes::BytesMut`, `flate2`,
  `md5`, `String::from_utf8`), each with the contract the proofs rely on.

The program (`app/main.rs`) runs the sockets and tasks on tokio and hands each
message to the library.
