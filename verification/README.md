# pi_natives

Desktop input and inline word completion, verified with Verus.

`src/` is the library. Every function has a contract, and the properties that
hold across functions are stated as public proof functions whose names begin
with `law_`.

- `desktop`: how input is planned, routed and given back on X11, Wayland
  (libei), macOS and Windows. Each gesture is a list of transitions that is
  complete before anything is sent.
- `ngram`: the adaptive n-gram engine: vocabulary, count tables, session and
  prompt caches, candidate gathering, hygiene, and the snapshot format.
- `smollm`: the engine over a small language model: tokenizer, context and
  memory, prefix-constrained search, and the bookkeeping of the decoder's cache.
- `prose`: which parts of a prompt count as typed text.
- `apple`: completion out of a spell checker's dictionary.
- `engine`, `bytes`, `patterns`, `strings`, `unicode`: what these share.

Probabilities are floating-point numbers and stay outside: the library holds
their bit patterns, and compares them by order keys.

`app/` is ordinary Rust around the library: files, threads, floating-point
arithmetic, the X server and the Wayland compositor. `tests/` runs the library.
