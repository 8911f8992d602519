# ttyman

A terminal session manager: sessions run in background pseudo-terminals,
each serving a Unix domain socket through which clients attach, read the
screen or its scrollback, stream live output and inject input.

The crate is written in Verus.

- `src/` is the verified library: session names and socket paths, the IPC
  vocabulary and how the server plans each request, the menu protocol and
  the history of visited sessions, the configuration defaults, the screen
  text of the VT100 model, shell completion scripts, the `.ttyrec` frame
  format and keystroke remapping. Each public function states its result in
  its contract; where a result comes from the `vt100` emulator, the contract
  states it over named readings of the emulator's state. The laws that
  relate several functions are public proof functions.
- `app/` is the `ttyman` program around it: argument parsing, the daemon
  and its PTY, sockets, files, signals and the JSON and TOML encodings.
- `tests/` exercises the library with concrete values.
