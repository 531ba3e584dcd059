# tinyget

A small front end for `winget`: it lists the packages winget can upgrade, lets
you tick some and upgrade them in a terminal window you can watch, and pins the
ones you would rather leave alone.

The library in `src/` is written in Verus and proved against its contracts:

- `text` — strings as sequences of characters: white space, trimming, lines.
- `width` — display widths of characters, by way of the `unicode-width` crate.
- `table` — cleaning winget's output and reading its aligned tables, by header
  columns or, when the header does not fit, from the right.
- `winget` — the package and pin lists read from those tables, the argument
  lists of the pin commands, the upgrade command and script, and the errors.
- `upgrade` — the exit code an upgrade leaves behind and the steps of watching
  its terminal.
- `state` — what the window shows: upgrades, pins, the filter and the selection.

`app/` is the program around it: it runs winget, writes and launches the
upgrade script, waits on the terminal, and drives a Slint window.
