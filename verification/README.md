# workbench

The logic behind the modelwrite browser workbench, written in Verus and proved against its
contracts.

- `src/` is the verified library: recognising a dropped model file (`detect`), unpacking a
  Cameo `.mdzip` container (`zip`, `inflate`), deriving a project name (`naming`), the
  decisions each page takes before it reads or writes (`access`, `onboard`, `editing`,
  `stream`), the drawing scopes and their counts (`scope`, `diagram`), the structure tree and
  process layers of a model (`tree`, `composition`), what the pages read out of stored JSON
  records (`json`, `gate`, `allocation`), the walk over a model's history (`layout`, `history`), comparing two versions (`compare`,
  `impact`), search, the plain-language summaries (`facts`, `labels`) and the small text
  encodings every page relies on (`escape`, `text`, `form`, `number`).
- `tests/` runs the library on concrete values.
- `app/` is the ordinary Rust around it: the serde copies of the form types, the HTML
  fragments, the request-body spooling and the floating-point geometry of the drawings.
