# chromagrain

An audiovisual granular sampling engine: one grain scheduler drives sound and picture, so
that every grain is heard and seen as the same thing. Projects are beat-based multitrack
arrangements of grain clips, straight snippets and step patterns, with effect chains that
act on both modalities, offline rendering, realtime playback, scripting and a GPU preview.

The library under `src/` is verified with Verus. Each function states what it computes; the
laws that relate several functions are the public proof functions named `law_...`, next to
what they speak of.

## Numbers

Floating-point numbers are held as IEEE 754 bit patterns (`num.rs`). Comparing, clamping,
negating and writing them out is done on the patterns. Operations that may round go through
a `Calc` (`calc.rs`), which the user of the library supplies; contracts speak of the results
that it gives, and hold for every `Calc` whose operations are defined and have one result.
The program and the tests supply the machine's own arithmetic.

Some laws are about the sizes of results: that snapping finds the nearest note of a key, that
the masks of a colour filter and of its opposite add up to one. They have the premise that
adding, subtracting, multiplying, dividing and converting round to the nearest number, ties
to even, as IEEE 754 asks (`rounding.rs`, `rounding_double.rs`). How exact sines, powers and
logarithms are is left open. The laws of `intonation.rs`, that a pitch is heard as the note it
was snapped to, say what they need of them: that logarithms undo powers of two to a few parts
in a million. Those of `spectra.rs`, that an inverse transform gives back what a forward one
was made of, and of `washes.rs`, that a stretched clip stays in range however soft it is, take
the sines and cosines to be within a given distance of the roots of unity. The bound that
`spectra.rs` states is a worst case: it grows with the number of values.

## Layout

- `src/` — the library; `lib.rs` lists the modules by layer
- `tests/` — tests of the library with the machine's arithmetic
- `app/` — the program around it: the window, the audio device, MIDI input, the GPU, rhai
  scripts, files, and the external tools ffmpeg, ffprobe, yt-dlp and the segmenter

## What is trusted

- `text.rs`: what `String::push` of the standard library does
- `playback.rs`: the two ends of an `rtrb` ring, and what putting in and taking out does
- `media.rs`: that encoding a PNG with `image` depends on the pixels and the size alone, and
  what bytes `hound` writes for 16-bit samples; that what it reads of a WAV file depends on
  the bytes alone, and that it reads such samples back
