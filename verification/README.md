# websocket

A small WebSocket server library, verified with Verus.

- `src/frame.rs`: frame types, decoding of client frames (one at the start
  of a buffer, or all the frames of a read), and encoding of outgoing frames.
- `src/httpparser.rs`: reading a header value from the text of a request.
- `src/handshake.rs`: the accept key and the answer to an upgrade request
  (SHA-1 from `sha1`, Base64 from `base64`), and the split of the
  connections whose handshake completed.
- `src/bytes.rs`: big-endian numbers.
- `src/laws.rs`: properties that span several functions.
- `app/`: the TCP server around the library (listening, reading, writing).
