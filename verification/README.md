# camembert

An interactive disk-usage explorer for the terminal: it scans a folder,
draws the result as a Unicode pie chart with a numbered, coloured legend, and
lets you drill down with the mouse or the keyboard.

The decisions of the program (what a command does, how a scan walks and what
it computes, what a scan's messages and the keys pressed meanwhile do, which
cached folders a refresh forgets, how everything is laid out and drawn) are a
library verified with Verus (`src/`). The program around it (`app/`) does the
terminal and file-system work, threads and channels, and the floating-point
angles of the pie, and applies what the library decides.

## Library (`src/`)

| module | what it decides |
|---|---|
| `lib.rs` | `DiskEntry`, `EntryKind` |
| `aggregator` | sort by size, keep the largest slices, fold the rest into « Autres » |
| `command` | the commands typed at the plain-text prompt |
| `event_map` | the command each key press or click asks for |
| `scanner` | the folder walk, as a state machine driven by its caller |
| `walk` | what a scan computes on a file tree, and the proof that the walk computes it |
| `tui` | skeleton and progress while scanning, layouts, what each command does to the view |
| `repl` | the command line and the plain-text prompt's decisions |
| `drives`, `drive_picker` | mounted volumes and the drive picker's choices |
| `render/layout` | pie radius and stacked or side-by-side legend |
| `render/renderer` | pie, legend, scan and progress views, and their click targets |
| `render/cheese_spinner` | the spinner's frames |
| `render/number_format` | sizes and percentages exactly as `{:.1}` prints them |
| `render/palette`, `render/mouse_target` | slice colours and the click-target grid |

## Program (`app/`)

Terminal setup and drawing (crossterm), the scan thread and the file system,
the drive sizes (fs2), and the floating-point angles of the pie's cells.
