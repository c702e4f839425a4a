# token_visualizer

Token accounting for simulated LLM conversations, verified with Verus.
Each turn is described in free text ("300 prompt, 12k tools, 4k out,
repeat 3"); the library parses it, bills it into a conversation whose
cache grows with every turn, keeps markers and tabs, and stores
conversations as plain text files that reopen as they were saved.

Layout:

- `src/` the verified library
  - `text.rs` characters: trimming, splitting, lowercasing for keywords
  - `number.rs` counts with `k`/`m` suffixes
  - `parser.rs` turn lines to token counts
  - `lines.rs` markers, inline markers, repeat directives
  - `format.rs` decimal and thousands-grouped numbers
  - `model.rs` models and the custom-model form
  - `app.rs` the application state: billing, recall, pickers, tabs
  - `replay.rs` saving and reopening a conversation
  - `storage.rs` the conversation file format, file names, listing order
  - `layout.rs` history rows, scrolling, chart segments, centred boxes
  - `keys.rs` what each key does on each screen
- `tests/` tests of the library
- `app/` the terminal front end (rendering, key events, files on disk,
  prices and costs in money)
