# stream_pipe

A video streaming pipeline: a producer downloads a video over HTTP and cuts
the body into numbered frames of a configured size, and one or more workers
take the frames off a shared queue and count the bytes they processed.

Layout:

- `src/` is the verified library.
  - `frame.rs`: the `Frame` type, the byte buffers it is built from, and the
    specification of how a byte stream is cut into frames, with its laws
    (reassembly, frame positions, frame shapes, and chunk independence for
    one step and for whole runs).
  - `downloader.rs`: the HTTP status decision and `FrameAssembler`, the
    producer's state machine (one call per body chunk, one at the end).
  - `pipeline.rs`: `Consumer`, the consumer's state machine, and the laws on
    byte totals (conservation, sharing among workers).
  - `logger.rs`: the default log level chosen from the configuration.
  - `configuration.rs` also supplies the default frame size.
  - `configuration.rs`, `error.rs`: the settings and the error type.
- `app/` is the program around it: reading `config.toml`, the async download
  and consumer loops that drive the state machines, the shared queue, and the
  logging setup.
- `tests/` exercises the library on concrete inputs.
