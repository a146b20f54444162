# no_swear

A verified core for a tool that censors listed words in the audio of a media file: the
audio is transcribed, the recogniser's tokens are recombined into words, every word whose
lowercased text contains a listed word (also lowercased) marks its stretch of time, and the
samples whose times fall in those stretches are replaced by brown noise before the audio is
encoded again and muxed with the untouched other streams.

`src/` is the library, verified with Verus:

- `text` — character sequences, substring search, lowercasing.
- `transcript` — segments and tokens, and tokens recombined into words.
- `bleeps` — matching the listed words against words (or whole segments), ignoring case.
- `arith` — Rust's rounding-toward-zero division.
- `noise` — which samples of an audio frame fall in a censored stretch, and writing noise
  over exactly those samples.
- `frames` — planar audio cut into encoder frames, each stamped with the stream position of
  its first sample.
- `censor` — the next encoder frame together with the samples of it to be censored.
- `encoder` — what to do after each poll of the encoder, while draining and while flushing.
- `streams` — the check of the chosen stream and the layout of the output's streams.
- `model` — where the speech model is fetched from and when the cached copy is used.

`app/` holds the program: argument parsing, decoding and encoding with FFmpeg, the speech
recogniser, the noise samples themselves (floating point), and the model download.
