# lumiknit's CLI EDC, verified

Small command-line tools that work on standard input and output, with their
logic written and proved in Verus:

- `jflat` flattens TOML, YAML or JSON into `path <sep> type <sep> value`
  lines and builds documents back from such lines (also as shell variable
  assignments);
- `jex` fills JSON templates from text with regular expressions;
- `md` renders Markdown as ANSI terminal text and saves fenced code blocks;
- `llm` keeps a chat context file and talks to an OpenAI-compatible API
  through `curl`;
- `ww` passes standard input through the user's editor.

## Layout

- `src/` is the library. Every function in it has a contract that Verus
  proves; calls into `regex`, `serde_json` and `toml` stand behind small
  trusted wrappers whose contracts name what those crates compute.
  - `text.rs`, `jsonlite.rs`: strings, decimal numbers, JSON string quoting.
  - `jflat/`: paths (`path.rs`, `order.rs`), lines (`line.rs`), documents
    and their entries (`doc.rs`), building back (`unflat.rs`), shell
    output (`env.rs`), and the proof that unflattening reads back what
    flattening wrote (`rebuild.rs`, `norm.rs`, `times.rs`, `roundtrip.rs`).
  - `jex/`: template fields and regular expressions (`field.rs`), compiled
    templates and rules (`template.rs`).
  - `md/`: inline markup (`inline.rs`), block helpers (`block.rs`), the
    line-by-line renderer (`render.rs`).
  - `llm/`: the context file format (`context.rs`, with its read-back proof
    in `roundtrip.rs`) and the pieces of requests and replies
    (`request.rs`).
  - `args.rs` files, `ww.rs`, `editor.rs`, `version.rs`: command lines and
    small decisions of the tools.
- `tests/` runs the library on concrete inputs.
- `app/` is the program around it: argument and file I/O, parsing TOML and
  YAML into documents (their floating-point numbers are formatted there),
  printing JSON, YAML and TOML, running `curl`, the editor and external
  code printers.
