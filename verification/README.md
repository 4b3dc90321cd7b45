# Sonara

A music composition language that compiles to audio. A `.son` file names a
tempo and a scale, then sections; each section holds up to four tracks
(`chords`, `bass`, `melody`, `drums`) that play together, and sections play one
after another.

- `src/` is the verified library: the lexer, the parser, note and chord names,
  MIDI numbers, and the render script that an audio engine turns into sound.
  Each function states what it returns over mathematical models (spec
  functions over sequences), and Verus proves it.
- `app/` is the command line program: reading files, expanding imports,
  running the audio engine and the MP3 converter.
- `tests/` runs the library on examples.

A song may move every pitch by a number of semitones with `transpose`. A note
may carry a velocity (`A4:64`); the render script gives each track a fixed
amplitude and does not use it. `R` is a rest: it takes its length and sounds
nothing.

Time in the render script is counted exactly, in sixths of a beat, and printed
rounded to the digits shown.
