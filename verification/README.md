# redis_lite

A small Redis-compatible server whose core is verified with Verus.

- `src/protocol/`: RESP values (`DataType`) and their model (`Resp`); the
  encoder (`serialize`), the decoder (`deserialize`) over a byte buffer, the
  human-readable text of a value, and commands read from requests. Proof
  modules state what holds across them: the decoder reads back the
  encoding of every value that the wire format carries faithfully
  (`wire_safe`: for instance no line feed in a simple string, and no
  `Null`, whose encoding is too short to be read) (`roundtrip`); bytes
  after a complete value change nothing (`framing`); decoded maps and sets
  have unique keys (`keys`); and big numbers are base 10^9 chunks whose
  decimal text is what `serialize` writes (`big_number`).
- `src/storage/`: the key-value store with expiry, lists, and streams, each
  with a mathematical view.
- `src/handler.rs`: the effect of each command on the store and the reply,
  as one step function; laws over it (a read after a write, list order,
  stream ranges).
- `src/text.rs`: decimal numbers read and written as `str::parse` and
  `Display` do, and UTF-8 helpers.
- `app/`: the TCP server: sockets, the clock, locking, and the waiting of
  `BLPOP`, around the library.

The current time is passed in by the caller (milliseconds since the Unix
epoch), so every library function is a function of its arguments.
