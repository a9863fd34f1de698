# popo

Post-processing of OCR parser output into a document tree, written in Verus.
Page-level blocks from a reader (MinerU, MonkeyOCR, Dolphin, PaddleOCR-VL-1.5,
GLM-OCR) are normalized, sent through four model-driven subtasks (table
truncation, text truncation, title hierarchy, image-text association) in
page chunks, merged back, and turned into a heading tree whose long sections
are split into subnodes. An evaluator scores predicted trees against ground
truth with a tree edit distance.

## Layout

- `src/` — the verified library. Every function carries a `requires` /
  `ensures` contract over spec functions and views, and Verus proves it.
  - `readers` — reader output (content lists, layout parsing, recognition
    JSON, word results) to normalized blocks, and the reader factory.
  - `chunk` — boundary-aware page chunking with overlap.
  - `truncation`, `title`, `visual`, `merge`, `table` — the subtasks: prompt
    inputs, label parsing, reconciliation across chunks, table header
    detection and merging.
  - `tree`, `enrich` — heading tree construction and subnode splitting.
  - `eval` — tree edit distance over (text, level) sequences.
  - `labels`, `pyliteral`, `chars`, `pattern` — the small languages the
    model speaks and reads, and text helpers.
  - `model`, `engine`, `runner`, `infer`, `cli` — configuration, per-chunk
    state machines that decide the next model call, and argument handling.
  - `pages` — page images: stitching, borders, JPEG and base64 payloads.
  - `laws` — proof functions stating properties that span calls: round
    trips of the label formats, invariance of the tree distance, what
    chunking and title synchronization keep.
- `tests/` — tests of the library on concrete values.
- `app/` — the command-line program: file and network I/O, HTTP clients for
  the model endpoints, and the loops that drive the library's state machines.

## Outside crates

`regex`, `scraper`, `unicode-normalization`, `image` and `base64` are called
from `src/` through small trusted wrappers whose contracts name or state
what the call returns; each wrapper's doc comment says what is assumed.
