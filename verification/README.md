# f1r3x-serve

The communication harness between a rho executive running on a Mac and the
Rhobots client on a Vision Pro: a WebSocket, a session that outlives its
connection, and the admission control of the pacing rules, which over a
socket is an acknowledgment.

`src/` is the library, verified with Verus:

- `session` — the control state and the admission rule (lockstep is
  free-running with a buffer of one), acknowledgments, play, pause, step.
- `registry` — sessions by name, in order of id; the one connection a
  session may have; reaping sessions detached past their time to live.
- `proto` — the line protocol: correlation numbers, verbs, the panel's
  verbs and their replies, attach arguments.
- `driver` — what the driver does on each pass, and the frames it sends.
- `tree` — a normalised term written out as the rhobot vocabulary, with an
  explicit-stack walk, quotation and node budgets, and elision.
- `scene` — the three populations of a scene, card ids and labels, order.
- `ws` — SHA-1, base64, the opening handshake, the frame codec and the
  reassembly of messages.
- `json`, `text`, `net` — JSON output, the parts of `str` the protocol
  relies on, and listen addresses.

`app/` is the program around it: sockets, threads, locks, clocks, the
executive and its crates, and the command line.
