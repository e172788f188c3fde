# pcmflux

Audio capture with Opus encoding, and mic playback, as a Python extension over PulseAudio.

- `src/` is the library: framing, loss recovery, queues, buffer recycling, the start and stop
  protocol, reconnecting, Ogg paging. Every function carries a contract that Verus proves,
  and the modules `red_laws` and `capture_laws`, with the lemmas beside the other types, state
  what holds over several calls.
- `app/` is the extension around it: PulseAudio, the Opus codec, threads, sockets and the
  Python classes.
- `tests/` runs the library.

One function is taken on trust: `pool::allocated`, the capacity of a `Vec`, which is never
less than its length.
