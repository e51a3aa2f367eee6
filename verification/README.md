# multisync

A server that records musicians together who play at different places. Users connect over
websockets, agree on a tempo, a count-in and a backing track, and send their audio. The server brings
the streams into step, plays them mixed with the backing track, and writes each track to a file.

- `src/` is the library: the rules of the protocol, the room, the streams and the mixing. It is
  verified with Verus. What it takes from other crates stands in `ring.rs` (ring buffers), `slots.rs`
  (the table of users) and `media.rs` (audio files), with the contracts that the proofs rely on.
- `app/` is the program around it: connections, threads, files, the audio device and floating point.
  It reads the sounds of the metronome from `MetronomeUp.raw` and `Metronome.raw` in the working
  directory: 16-bit samples, the lower byte first, 48000 per second.
- `tests/` holds the tests of the library.

## Messages of the protocol

| Text | From a user | To a user |
|------|-------------|-----------|
| `usr:NAME` | takes a name | |
| `bpm:N`, `cnt:N`, `buf:N` | sets tempo, count-in, buffer | tells them |
| `met:TEMPO:BAR` | takes a metronome as backing track | tells of it |
| `bck:` | a file with the backing track follows | the same |
| `abk:`, `nbk:` | the audience hears the backing track, or not | `abk:true`, `abk:false` |
| `off:N` | audio is late by so many samples | |
| `srt:`, `stp:` | starts, stops the recording (`stp:t`: at once) | `srt:N` with the count-in, `stp:` |
| `sts:` | ends the syncing phase | `syncstopN`, the last second of it |
| `tim:N`, `end:` | when the next packet begins; no more times | |
| `ops:`, `nps:` | audio is packed, or not | |
| `emg:NAME:N` | plays one user alone, or shifts a stream | |
| | | `onl:` who is there, `idx:` who is who, `syncnewf` outlines follow |
