# otterly

The core of a note-taking application whose notes are Markdown files in a vault, a directory of
the file system. The library under `src/` is verified with Verus: each of its functions states what
it returns, and Verus proves it.

## Layout

- `text`, `byte_offset`, `string_map`, `ordering`: texts and their UTF-8 bytes, a sorted map from
  texts, sorting.
- `markdown`, `link_target`, `link_path`, `link_parser`, `link_rewrite`: the links of a note, where
  they lead, and how they are rewritten when notes move. `link_laws` and `rewrite_laws` state what
  holds of them as a whole.
- `vault_path`, `vault_lookup`: where a path lies below the vault root.
- `note_meta`, `note_files`, `note_moves`, `image_asset`: notes, their titles, renames and moves,
  and the images stored for them.
- `folder_cache`, `folder_listing`: what is in a folder, page by page.
- `search_index`, `index_run`: the writer of the search index.
- `git`: the history of a vault.

Files, repositories, the database, threads and messages are under `app/`. Where a decision depends
on them, the library holds it as a step from a state and what was found out to the next state, and
`app/` carries the steps out. What the application itself has to supply, such as the place of a
vault and the tables of the search index, `app/` takes through the traits in `app/host.rs`.

## What is trusted

Verus takes on trust what `comrak` makes of a text, what the bits of a `git2` status mean, and six
functions of the standard library: four on texts and two on paths. Each stands behind one small
function with a contract, in `markdown`, `git`, `text` and `vault_path`.

Paths are read as the machine reads them. The contracts say how for the paths that all machines read
alike, and leave open what only some take for a separator, a volume or an absolute path. What the
library makes of a path, once it was read, is stated for every way to read it.
