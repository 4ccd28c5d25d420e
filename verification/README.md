# synfection

Clone a synth sound into a playable patch, then play with it: edit it, breed it, loop
it. The library in `src/` is verified with Verus; `app/` is the program around it.

A patch is a *genome*, 16 knobs between 0 and 1. The library never computes with
floating-point numbers itself: samples and knobs are values of a type that the caller
picks, their arithmetic is handed in as functions, and contracts speak of the results
of those functions. Where a value is stored, compared or held in its range it is the
bit pattern of an IEEE number; `single` says how those are ordered.

## Layout

| module | what it holds |
| --- | --- |
| `text`, `notes` | characters, decimal numbers, note names |
| `genome`, `presets` | the knobs, patch files, factory patches |
| `net`, `infer` | the weights bundle, running the network |
| `dsp`, `pitch`, `wavio` | frames, mel features, distances, filters, pitch, recordings |
| `matcher` | refining a guess |
| `synth`, `output` | rendering a note, the unison and the safety behind it |
| `vet`, `garden`, `vary` | hearing what is wrong, growing, lucky dips, mutation, crossover |
| `loops`, `midiio`, `smf` | patterns, grooves from MIDI files, laying notes onto a loop |
| `jobs`, `library`, `history`, `playback`, `ui` | the worker's queue, file names, undo, the meter, the app's state |
| `order`, `single`, `func` | stable orders, singles by their bits, pure functions |

Laws that span several functions are the proof functions whose names begin with `law_`.

What is believed without proof are the contracts given to `midly::Smf::parse`,
`str::from_utf8`, `char::is_alphanumeric` and `String::push`; a doc comment beside each
says what is claimed.

`app/` reads the network's weights from `weights/genonet.bin` at run time.
