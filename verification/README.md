# tactus

A tempo/beat session peer: peers on a local network discover each other, agree
on one session, follow each other's tempo and transport, and share beat-stamped
audio.

The library under `src/` is written in Verus and verified. It holds everything
that a peer decides:

- the codecs of the discovery, measurement and audio datagrams, with proofs that
  what is encoded decodes to what it was;
- the beat arithmetic, with proofs of the rounding it may cost;
- the state machine of a peer, event by event: gossip and its priority rules,
  clock measurement, session election, timers and expiry;
- the audio runtime: announcement rounds, requests, packing of datagrams,
  delivery onto the local beat grid, loss counting.

It does no I/O. A caller hands in datagrams and the time of its clock, and sends
the datagrams that it finds in the outbox. Two things come from outside: random
identifiers (`getrandom`) and the text of names that may not be UTF-8
(`String::from_utf8_lossy`). Both stand behind functions marked
`#[verifier::external_body]`, in `src/random.rs` and `src/channels.rs`.

`app/` is a program around it: sockets, threads, the clock, floating-point
tempi and beats, and a console on standard input and output.

`tests/` runs the library on concrete values, and several peers on a simulated
network.
