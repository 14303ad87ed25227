# arkcursor

A custom in-game cursor for Windows: the tool finds the game window, attaches
to its input queue while it is in the foreground, hides the system cursor and
draws its own cursor image in a layered overlay window.

## Layout

- `src/` - the verified library (Verus):
  - `text.rs` - character-level string helpers (order, search, path tails,
    trimming of Unicode white space; lowercasing from std)
  - `config.rs` - settings and the per-cursor-file profiles (size, update
    rate), with the laws that tie storing and reading a profile together
  - `cursor.rs` - decoding .cur / .ico / .ani / .png cursor files, hotspots
    included (PNG decoding through the `image` crate)
  - `pixels.rs` - straight RGBA to premultiplied BGRA for the overlay
  - `runtime.rs` - the worker's decisions: update period, target search and
    choice, attach / detach, overlay placement
  - `process_list.rs` - the rows of the process picker
- `app/` - the Windows program around it: egui GUI, Win32 calls, the worker
  loop, file I/O, TOML persistence and cursor scaling
- `tests/` - tests of the library
