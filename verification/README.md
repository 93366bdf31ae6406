# opencode_config

Reading, editing and writing `opencode.json`, the configuration file of
OpenCode: JSON with comments. The library is written in Rust and verified with
Verus. Its functions take the content of the file and the content that was read
last, and give the content to write; the crate under `app/` reads and writes the
file itself.

- `src/comments.rs`: stripping comments.
- `src/json.rs`: what a `serde_json` value holds, and the calls into `serde_json`
  and `jsonc_parser` whose contracts are trusted.
- `src/text.rs`: searching, replacing and ordering texts.
- `src/merge.rs`: writing a changed document over the text it was read from.
- `src/config.rs`: reading and writing the configuration as a whole.
- `src/sections.rs`: providers and MCP servers.
- `src/plugins.rs`: plugins, and which of them exclude each other.
- `src/typed.rs`: providers whose configuration has the expected form.
- `src/paths.rs`: where the files are.

A changed value is looked for in the text as it is written on one line. Where it
stands there in another layout, the text is written as it was and the change is
lost. Where the names of the top-level members change, the document is written
anew and the comments are lost instead.
