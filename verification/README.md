# mozsearch_format

Rendering of source files, diffs and commits as annotated HTML pages, verified with Verus.

- `src/` is the library. It computes pages from plain values: the tokens of a source text, analysis
  records, blame lines, the output of git, what is known of a commit. `code` renders source text,
  with `symbols` for the annotations of a token and `json` for the data of the menus; `blame`
  follows the history of a line; `file`, `revision`, `diff` and `commit` build the four kinds of
  pages out of the parts in `page`, and render a text from its tokens on; `text`, `split`, `paths`,
  `time` and `source` hold what they share. `code_laws` states what holds of every rendering; the
  other modules hold their laws themselves, as public proof functions whose names start with `law_`.
- `app/` reads the repositories, runs git and writes the pages.
- `tests/` runs the library on given values.

Three outside functions are trusted: `rustc_serialize::json::encode`,
`rustc_serialize::json::as_pretty_json` and `chrono::DateTime::to_rfc2822`. So is `String::push` of
the standard library.
