# fsz

`fsz` (File/Folder Size) is an interactive terminal disk usage analyzer: it
walks a directory tree in parallel, totals sizes per directory (apparent or
allocated, with hard links counted once), and lets you browse the result
largest-first, delete entries, and flip between the two size notions without a
rescan.

## Layout

- `src/` is the verified library (Verus):
  - `sums.rs`, `model.rs`: sums over children lists and the model of the
    arena tree (subtree sums, reachability, parent chains) with their lemmas;
  - `mode.rs`: `SizeMode`;
  - `sort.rs`: the stable merge sort behind "largest first";
  - `tree.rs`: `Node`, `Tree`, totals, listing order, paths, deletion;
  - `scan.rs`: `Scan`, which folds walk records into a `Tree`;
  - `browse.rs`: `App`, the navigator's key handling and cursor.
- `app/` is the program around it: argument parsing, the filesystem walk,
  removal from disk, and drawing with ratatui.
- `tests/` exercises the library on concrete trees.

## Usage

```bash
fsz [PATH] [--mode apparent|allocated]
```

Keys: `↑`/`k`, `↓`/`j` move; `→`/`l`/`Enter` enter; `←`/`h`/`Backspace` go
back; `Home`/`End` jump; `a` toggles the size mode; `Ctrl`+`D` deletes the
selected entry (after confirmation); `q`/`Esc` quits (after confirmation).
