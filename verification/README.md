# Browser Picker

A tiny, native browser picker for Windows. Set it as the default browser and
every clicked link opens a small window asking which browser to open it in.

This crate is written in Verus. `src/` is the verified library: everything the
program decides or computes, each function with a contract that Verus proves.
`app/` is the Windows program around it: registry access through `winreg`,
windows and drawing through `winapi`, launching processes.

## Layout of `src/`

- `browsers` — a browser as registered under `Clients\StartMenuInternet`:
  parsing the executable out of its `shell\open\command`, choosing its display
  name, and selecting what the picker offers (no browser without an
  executable, never the picker itself, each executable once, ordered by name).
- `sort` — a stable insertion sort by key, proved to sort, to rearrange, and
  to keep the order of items with equal keys.
- `letters` — shortcut letters per browser id, and their stored text
  `id=L|id2=M|...`.
- `config` — the stored settings (order, favourite, letters), reading and
  writing their registry values, applying the user's order, and resolving
  each browser's shortcut letter.
- `settings` — the settings window: layout, hit tests, and what clicks and
  keys do to the order, favourite and letters.
- `ui` — colours, text truncation, the picker's layout, hit test and keys.
- `cli` — the command line, and the texts shown about detected browsers.
- `register` — the registry values that registration writes.
- `text` — character-level helpers with their specifications (white space,
  trimming, splitting, joining, lexicographic order, decimal numbers).
