# dub

The core of a two-deck DJ engine for timecode vinyl, verified with Verus: transport and
mixing on the audio thread, timecode decoding, and the analysis behind waveform displays.

Computations state their results down to the last bit, and Verus proves them. Since the
verifier reasons about integers and not about floating point, the library brings its own
single and double precision: `ieee` holds numbers by their bit patterns, with addition,
multiplication, division, square root, comparison and conversion specified as exact
rational arithmetic followed by rounding to nearest, ties to even.

What rests on a mathematical library (sine, cosine, logarithm, arc tangent) or on a
Fourier transform is handed in by the caller as a function; contracts say what is asked of
it and what is done with its answers. What other threads decide (how full a ring is, what
a shared value holds) stays open in the contracts: they say what is handed over, and what
follows from each answer.

## Layout

- `src/ieee` – numbers.
- `src/engine` – decks, thru sources, the mixer, commands, and the handle through which
  other threads control a running engine. `laws`, `playback`, `summing` and `custody` state
  what holds of the engine as a whole.
- `src/timecode` – formats, the decoder, the policy that decides when a deck follows its
  timecode. `turning` and `mirror` state what holds of the decoder.
- `src/peaks` – decimation of waveforms: broadband, per band, filtered, onsets; capture of
  a live signal and analysis of a whole track.
- `src/spectral` – windows, hops and bands of the spectrum.
- `src/track` – tracks in memory and the decisions of loading one.
- `tests` – tests that run the library against the floating point of the machine.
- `app` – what surrounds the library: files, threads, error messages, the check that
  rendering does not allocate, and the generator of foreign-language bindings.

## What is trusted

`src/engine/ring.rs` wraps the lock-free rings of the crate `ringbuf`, and
`src/engine/forget.rs` gives `core::mem::forget` its contract. What an end of a ring finds
depends on another thread; contracts therefore speak of what each end did: what it offered,
what was taken, what it received and how often it asked. A ring refuses nothing before it
has taken as many items as it has room for.
