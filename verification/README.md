# haystack

The verified core of a desktop file library that turns directories into a
searchable, previewable collection shared on the local network.

- `src/` is the library, written in Verus and proved against its contracts:
  - `paths`: Unix and Windows paths as components (`starts_with` after
    resolving `.` and `..`, `join`, file name, parent), with containment
    laws;
  - `config`: configured roots and the store, which decides the root a
    path falls under;
  - `search`: directory listings, query normalisation, matching, the hit
    limit and the order of hits;
  - `files`: targets of new, moved and copied files, version-control
    detection and update steps;
  - `launch`: terminal and file-manager commands per platform;
  - `server`: HTTP status, port choice, routes, request resolution and
    content types;
  - `protocol`: the asset URI scheme used by the interface;
  - `tray`: the menu-bar icon's menu and actions;
  - `text`, `order`: character sequences (white-space trimming included)
    and stable sorting;
  - `external`: the trusted calls into std, `base64`, `percent_encoding`,
    `mime_guess` and `url`.
- `tests/` runs the library on concrete values.
- `app/` holds the file-system, process and network glue.
