# ollama_intl

Translates i18n resource files with a local model served by Ollama
(TranslateGemma). Three formats are read and written: Simple (a flat key→string
map, JSON or YAML), FormatJS / React-Intl descriptors (JSON), and Rails YAML
with a locale wrapper.

The library under `src/` is verified with Verus:

- `types` — messages, the key→message table with unique keys (read after write
  is proved), and the file formats.
- `order` — the key order of written JSON (a strict total order on strings) and
  the arrangement of a table in that order.
- `text` — string helpers with exact contracts (trimming, search, suffixes).
- `icu` — a plain-value model of ICU MessageFormat trees, with the literal walk
  used for translation, argument names and the generic-plural check; the
  parser and printer of `formatjs_icu_messageformat_parser` sit behind trusted
  wrappers.
- `parse` — reading JSON and YAML into the formats, and writing them back;
  writing always succeeds, and a written file reads back with its format, keys
  and texts (a FormatJS file, unless empty, also with its descriptions; an
  empty one reads back as Simple).
- `translate` — placeholder extraction and checks, the plan of the requests for
  one message and the assembly of the replies, the file to translate for each
  target (existing translations kept unless forced, keys the source lacks
  dropped), the settling of each message, the prompt, and the `Name:code`
  language argument.

`app/main.rs` is the command-line program: arguments, file I/O, the concurrent
requests to the model and the progress bars.
