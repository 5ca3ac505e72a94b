# graph_notes

The core of a Markdown note vault, verified with Verus: parsing notes
(frontmatter, title, tags), extracting wikilinks, rewriting links when a note
is renamed, context snippets for backlinks, stable note ids, file naming and
the retry and watcher decisions of the note commands.

- `src/` is the verified library (`text`, `wikilink`, `refactor`, `parser`,
  `notes`, `graph`, `indexer`, `types`).
- `tests/` exercises it on concrete values.
- `app/` is the desktop shell around it: Tauri commands, the SurrealDB
  store, file I/O and the file watcher.
