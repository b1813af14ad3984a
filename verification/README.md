# spica

The core of a small modal text editor (Normal, Insert and Command modes, in
the manner of vi), verified with Verus.

- `src/text.rs`: the UTF-8 byte view of strings, the `String` operations the
  editor uses, and the splitting of a file's text into lines and their joining.
- `src/editor.rs`: rows, the buffer, the editor state and the handling of each
  key. Work that happens outside (writing a file, running a script, offering a
  key to a plugin) is returned as an `Action` or a `Command`; its outcome comes
  back through the `finish_*` methods.
- `src/render.rs`: the visible part of each row, the status bar and the
  cursor's screen position.
- `src/plugin.rs`: the key bindings, user commands and hooks that scripts
  define, and the configuration file paths.
- `src/laws.rs`: properties across operations (the viewport follows the
  cursor, Backspace undoes typing and Enter, a written file reads back the
  same, ...).
- `app/`: the terminal program: raw mode, drawing, file I/O and the pi-lisp
  script engine.
