# sk_library

The core of a study-material organiser. A *home directory* holds one folder
per subject; the files inside a subject folder (at any depth) are its
entries. A SQLite catalogue in `<home>/.sk/skdata.db` remembers subjects and
entries between runs.

`src/` is a Verus-verified library:

- `ids` — UUIDs as 128-bit values and their hyphenated text (calls the `uuid` crate).
- `paths` — `Path::file_name`, `Path::join` and path equality (component by
  component) on text, with their Unix rules.
- `model` — catalogue rows and application records, and the conversions between them.
- `scan` — a snapshot of the home directory and what a walk of it reaches.
- `data_handler` — reconciliation of the catalogue with a walk of the home
  directory (`read_dir` walks one subject folder), and the data it yields.
- `config`, `state` — settings and the decisions taken when the main window opens.
- `library` — the plain `~/sylabus` folder library of the standalone window.
- `laws` — properties of reconciliation proved over the specifications.

`app/` is the window layer (tauri), the SQLite access (sqlx), the settings
file (serde_json) and the directory reading; it hands plain values to the
library.
