# Desktop Organizer: verified core

The storage and organization rules of Desktop Organizer, a Windows desktop
organizer with Drawers (real folders shown as windows) and a Dock of
launchers backed by its own folder. The rules are written in Verus and
proved against their contracts; the program around them reads and writes
the real folders. Panels, window geometry and other floating-point
measurements are not part of this library.

## Layout

- `src/`: the verified library.
  - `drawer_items`, `drawer_sync`, `levels`, `import`: what a drawer holds,
    how its folder is rescanned (bookkeeping files hidden), how links move
    between levels, and how an imported configuration is checked and merged
    so that no configured drawer or link is removed.
  - `dock`, `dock_folder`, `dock_settings`: the Dock's launchers, their order,
    the rebuild of the Dock from its folder and metadata, and its settings.
  - `persistence`, `maintenance`, `logs`: schema migrations, backups (names,
    order, pruning), loading with recovery from the newest backup, the health
    report, and log rotation.
  - `storage`, `paths`, `items`: folder-name rules, path keys and relative
    level paths, file names and item kinds, and the safe move that never
    overwrites and never loses its source.
  - `icons`, `digest`, `ids`: icon cache keys, bitmap fix-up, PNG and base64
    encoding, SHA-256 digests of copies, and identifiers made from random
    values that the program draws and passes in.
  - `monitors`, `windows`, `tray`, `autostart`, `shell`, `validation`:
    placement on the work area, window labels, tray commands, start-up entry
    and input validation.
  - `sorting`, `order_map`, `text`: stable sorting, per-level manual orders,
    and the string operations the rest is built on.
- `tests/`: tests run against the compiled library.
- `app/`: a small maintenance program that applies the library to the user's
  folders (layout, Dock rebuild, backups, logs, verified copies and moves).
