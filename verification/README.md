# eve_settings

A verified library for EVE Online settings files (`core_char_*.dat`,
`core_user_*.dat`): a decoder and encoder for CCP's "blue marshal"
serialization, and the editors built on the decoded tree. Every function in
`src/` is verified with Verus against a contract stated over a mathematical
model of the tree (`value::ValueView`).

## Layout

- `src/` — the library.
  - Codec: `opcodes`, `error`, `value`, `reader`, `text`, `encode`,
    `decode`, `roundtrip` (decoding what the encoder wrote gives the tree
    back), `reshare` and `reshare_laws` (inlining and compact re-sharing).
  - Tree editing: `path`, `parse`, `mutate`, `mutate_laws`, `container`,
    `batch`, `document`, `discover`, `surface_laws`.
  - Settings categories: `overview`, `overview_tabs`, `overview_states`,
    `overview_presets`, `overview_pack`, `pack_yaml` (pack files as YAML),
    `pack_apply` (import), `pack_read` (export), `pack_laws`, `autofill`,
    `neocom`, `keybinds`, `chat`.
- `tests/` — the tests, run against the compiled library.
- `app/` — the command-line tool `bmdump`: file I/O, argument handling,
  and printing, which includes reading and printing floats: a YAML real's
  text is read as a double there, and presets that share a name are put in
  the order of their `{:?}` text, which may hold a float.

Calls into std whose behaviour the library states without proof
(`String::from_utf8_lossy`, `str::to_lowercase`, `char::to_uppercase`,
`String::push`, `str::from_utf8`, `String::from_utf16`, `format!("{:?}")` of
a string) and the YAML loader of `yaml-rust2` are
small wrappers marked `#[verifier::external_body]`, each with a doc comment
saying what its contract claims.

The library does not cover the HUD-anchor and fleet-window editors.
