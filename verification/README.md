# gera

The verified core of Gera, a desktop vault of markdown notes, projects, checkbox tasks
and calendar events kept as plain files (`events.yaml`, `tasks.md`, `notes/`,
`projects/`).

`src/` is the library, written in Verus and proved against its contracts:

- `text`, `numbers`, `chars`: characters, lines, words, trimming, decimal text and the
  Unicode classes that references use.
- `yaml`, `json`: YAML and JSON documents as plain values, read by serde_yaml and
  serde_json, with the lookups that the vault makes in them.
- `storage`: the vault layout, vault validation, content sanitising, front matter
  (framing, splitting, reading its entries and listed ids), titles and previews, the
  recent-vault list.
- `tasks`: parsing checkbox tasks and their references; resolving event and project
  names and deadlines.
- `repository`: paging, editing task lines, classifying watcher changes, tasks
  inheriting front-matter ids, note and project entities.
- `queries`, `index`: the page queries on the in-memory SQLite index (filters, order,
  page), the rows they return, reading rows back into entities, and the task and event
  pages; the search pattern.
- `events`, `event_file`, `gcal`, `time`: events read from `events.yaml`, built from
  commands and written back (adding, replacing and removing entries), Google Calendar
  events and the synchronisation plan, instants and offsets.
- `renderer`, `paths`, `watcher`, `models`: rendering documents with their references,
  path names, the watcher's debounce and batches, and the entities.
- `laws`: properties that relate several functions, proved.

`tests/` runs the library on concrete values. `app/` is the ordinary Rust around it: the
file system, the index's schema, inserts and searches, the file
watcher's thread, the Google Calendar HTTP client, and the commands.
