# scripted_prompt_lib

The logic of Scripted Prompt, a local tool for collecting reusable prompt
blocks (scripts), combining them into templates, and filling their
`{{variable}}` / `{{variable:default}}` placeholders, verified with Verus.

Layout:

- `src/` — the verified library.
  - `variable.rs`: the placeholder grammar (scanner, names, defaults, replacement).
  - `tags.rs`: hierarchical tags, the tag tree and its counts, rename, cascade
    delete, merge, suggestions, validation and sanitising.
  - `data.rs`, `value_map.rs`: scripts, templates and their shared values.
  - `search.rs`, `sort.rs`: fuzzy search with a verified stable sort, tag
    filters, highlighting.
  - `history.rs`: the bounded use history, recent items, statistics and trends.
  - `ai.rs`: locating the JSON object in a model reply, checking a compressed
    template, the compression prompt, provider error messages.
  - `commands.rs`: each request of the application on its in-memory state.
  - `storage.rs`: the example data and the merge of imported data.
  - `validator.rs`, `format.rs`, `settings.rs`, `clipboard.rs`, `clock.rs`, `text.rs`.
  - `laws.rs`: properties that span several functions, proved.
- `tests/`: tests of the library, run with the real outside crates.
- `app/`: a command-line front end: JSON files on disk, the platform clipboard,
  and serde forms of the library's types.
