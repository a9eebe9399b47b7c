# langs_in_rust

Tooling for the list of languages written in Rust: `languages.json` holds every
language's name and URL plus what the GitHub API last said about it, and
`README.md` is rendered from it.

- `src/` is the library, verified with Verus:
  - `languages` — the `Language` entry and the table order (`by_status`):
    active and inactive halves, most stars first, ties in file order.
  - `readme` — rows, thousands separators and the whole README (`render`).
  - `github` — which entries are looked up and where (`is_github`, `api_url`),
    what a reply turns an entry into, activity windows, and `Refresh`, the
    step-by-step refresh of the whole list.
  - `pyjson` — the `ensure_ascii` escaping of JSON string fragments.
  - `text` — substring search and replacement on characters.
- `app/` is the program around it: command line, files, HTTP requests and
  serde.
- `tests/` runs the library on concrete lists.
