# nbv

Jupyter notebooks in an embedded Neovim. The library in `src/` holds what nbv decides and
computes; every item of it is verified with Verus. `app/` is the program around it: the terminal,
Neovim's process, the kernel's channels and the files.

## The library

| Modules | What they hold |
|---|---|
| `text`, `path`, `json`, `msg`, `key`, `table` | Values: text, paths, JSON, MessagePack, cell keys, tables of cells |
| `document`, `history`, `notebook`, `load`, `save`, `session` | The notebook: its cells, undo and redo, reading and writing the file, and what holds after any calls |
| `adapter`, `projection`, `structure`, `parts`, `editor` | The notebook as lines of an editor's buffer, and back |
| `executor`, `stream`, `kernel`, `memory` | Execution: messages, streams, kernels, and which kernel was picked for which notebook |
| `redraw`, `grid`, `call`, `nvim`, `notice`, `decor`, `version` | Neovim: what it draws, what it is asked and what it reports |
| `style`, `ansi`, `outputs`, `layout`, `compose`, `paint` | The screen: outputs, boxes and where they go |
| `keys`, `nav`, `query`, `terminal`, `ui`, `app` | The session: keys, modes, and what follows from an event |

`ui` and `app` are state machines. An event goes in by a method; what the program has to do comes
out as a list of effects.

The contracts speak of the mathematical view of each type. What relates several functions stands
as a public proof function beside them: that undo and redo walk through the same states, that a
saved notebook opens again with its cells, that a stream may come in pieces, that lines typed into
the buffer stay with their cell.

What the library has from other crates (JSON, MessagePack, SHA-256, base64, pictures, column
widths, random numbers, Jupyter messages) it reaches through small functions whose contracts say
what is taken from the crate's documentation.
