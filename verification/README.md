# shadow-pane

One console for several herdr panes: what is typed into
it goes to all other panes of the tab, and what they show is mirrored side by
side, each with a shadow cursor where the next character will land.

`src/` is the library, verified with Verus:

| module | what it holds |
| --- | --- |
| `input`, `sender` | what keys mean, batching of strokes, fan-out to the panes |
| `mirror`, `ansi`, `wrap`, `width`, `line` | reading panes, styled lines, wrapping at the pane's width |
| `anchor`, `cursor` | where the shadow cursor is, and drawing it |
| `broadcast`, `picker`, `cli` | the pages and the command line |
| `herdr`, `herdr_socket` | herdr's commands, its socket protocol and its answers |
| `layout`, `table` | driving panes back to their sizes |
| `text` | characters, white space, decimal numbers |

Functions whose names begin with `law_` state what holds of the library as a
whole: that no stroke is lost or sent twice, that a mirror is never stale, that
the cursor follows what is typed, that driving panes comes to an end.

`app/` is the program around it: processes, the socket, threads, the terminal.
