# proxchat

The verified core of a proximity voice-chat client.

- `src/` is the library, with its proofs:
  - `packet`: the datagrams exchanged with the relay (audio frames, the
    handshake, and the split of an inbound datagram into speaker id and frame);
  - `chunks`: cutting a sample queue into whole chunks for the resampler and
    the encoder, with the proof that chunks and tail give back the queue;
  - `buffers`: one sample queue per peer, the block each queue contributes to
    an output buffer, and the mixing plan that says which samples are averaged
    into each output sample;
  - `json`: the calls into serde_json, behind trusted wrappers whose results
    are named functions of the bytes;
  - `control`: decoding a control message from the relay, what it asks for,
    and the heartbeat the client sends;
  - `retry`: the rule of the sender that insists until the relay answers.
- `app/` is the program around it: sockets, threads, the sound card (cpal),
  the Opus codec (magnum-opus), the resampler (rubato) and the floating-point
  averaging of samples.
- `tests/` runs the library on concrete values.
