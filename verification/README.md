# branchdiff

Shows in a terminal what the current branch of a repository changed: the lines that were committed,
staged and not yet staged, with the characters that changed within them, images side by side, and a
patch or a web page where no terminal is wanted.

The library in `src/` is written in Verus. What its functions return and change is stated in their
contracts, over the sequences of characters, lines and spans that they work on, and proved. The
properties that relate several functions are public proof functions whose names begin with `law_`.

| Modules | What they hold |
|---------|----------------|
| `diff`, `app`, `style`, `message`, `update` | lines, spans, styles and the state that the views read |
| `text`, `scan`, `bytes`, `path`, `float` | text, paths and floating-point arithmetic on integers |
| `git`, `gitignore`, `limits` | what Git and the system answer, and what a repository ignores |
| `syntax` | the colours of source text, line by line or in any order |
| `image_diff` | loaded images, their sizes, and those that are kept |
| `ui` | the screen: wrapping, selection, search, modified lines, images, status bar and help |
| `output`, `patch`, `print`, `html` | the diff as a patch, as text for a terminal and as a page |
| `input`, `event_loop` | what keys and the mouse ask for, and what the program does next |

A few small functions call other crates: `syntect` and `two-face` for grammars, `image` and `base64`
for pictures, `unicode-width` for the columns of text, `ratatui` for dividing areas, and `ignore` for
patterns. Their contracts are not proved; each says above it what it claims of the crate.

`app/` is the program around the library: arguments, `git` and the file system, the terminal, and the
threads. `tests/` runs the library on given values.
