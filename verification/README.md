# mplex

Stream multiplexing over one message transport, as a Verus-verified library.

- `src/` is the verified library:
  - `message`: frame flags and the header word;
  - `varint`: the unsigned varints of the wire format;
  - `codec`: the frame decoder (a state machine that waits for more bytes
    and stays failed after an error) and encoder, with the laws that a frame
    decodes back to itself and that bytes may arrive in any pieces;
  - `session`: the chunks of one transport turned into frames and back;
  - `multiplexer`: open streams, local stream ids, routing of incoming frames;
  - `stream`: reading a stream's payload and closing its sending half;
  - `error`: the errors handed to users;
  - `buffer`: the `bytes` crate's buffers, behind trusted wrappers.
- `app/` drives the library with futures 0.1 and tokio-io: transports,
  channels and the `Stream`, `Sink`, `Read`, `Write` and `AsyncWrite` impls.
- `tests/` runs the library on concrete values.
