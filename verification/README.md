# openbolt

The rules of a link between two machines on a Thunderbolt cable: keeping a
folder in step, browsing and moving files, sharing the clipboard, keyboard,
mouse and screen.

- `src/` is the library. Every decision that the program takes stands there,
  with a contract that Verus proves: what is sent, pulled, skipped, retried and
  logged, how addresses are written and read, which adapter is the cable's, how
  peers are found, how the streaming host is configured. Properties that span
  several functions are proof functions whose names begin with `law_`.
- `app/` is the program around it: the window, the HTTP server and client, the
  file system, the watcher, the announcements and the other programs.
- `tests/` runs the library on values.

What the library takes on trust is what it calls outside of itself: the glob
matcher, percent-encoding, and a few functions of the standard library on paths,
time and text. Each such call stands behind one function whose comment says what
is claimed of it.
