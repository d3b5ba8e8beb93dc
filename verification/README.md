# ripx

A streaming, non-validating XML tokenizer and query library that works on raw
bytes, with its behaviour stated in contracts and proved with Verus.

## Layout

- `src/` — the verified library:
  - `search`, `tokenizer`, `simd_scanner`: byte searches, name and attribute
    scanning, entity-free attribute parsing.
  - `scratch`, `element_stack`, `attributes`, `input_buffer`, `source`:
    bounded buffers, the open-element stack, and byte sources (bytes held
    in memory, or a queue that a caller feeds piece by piece).
  - `slice_parser`, `parser`: the pull parser over a slice and over a stream,
    each specified one step at a time (`slice_step`, `stream_step`); a call
    of the stream parser's `next_event` is the reading and stepping that
    `stream_run` describes.
  - `arena_parser`, `event`: a parser over an input held in memory whose
    events borrow the input, with element names copied into a bump arena.
  - `reader`, `query`, `filter`: a simpler event reader (specified one event
    at a time by `reader_step`), path queries over it (`dispatch` gives the
    callback each event leads to), and a scanner that extracts whole elements
    by name.
  - `chunk`, `parallel`: splitting an input into chunks at top-level
    boundaries, and per-chunk collection of the elements a filter picks.
  - `writer`: writing events back out as XML text.
  - `id_match`: picking the elements with a given name and `id` out of the
    parser's events, one event at a time (`id_match_step`).
- `app/` — the command-line program, reading a file piece by piece into the
  parser's queue and printing matches, and
  the memory-mapped, multi-threaded chunk processing.
- `tests/` — tests of the library.
