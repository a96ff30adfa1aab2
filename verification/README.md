# deepspace

A multiplayer spaceship game with an authoritative server, client-side
prediction with server reconciliation, and entity interpolation.

The crate's library (`src/`) holds the game's discrete rules, written in Verus
and checked by it:

- `server`: the server's world — admitting and dropping clients, player ids,
  which inputs count, shots, hits, deaths, kill credit, respawns, bullet
  lifetime and the bullet cap, timeouts, the viewers and the scoreboard;
- `scoreboard`: choosing the best scores;
- `order`: the order in which a tick's inputs are applied;
- `timeline`: the server's history of past positions (lag compensation) and
  the client's snapshot buffer (interpolation) — which recorded moments a
  time falls between;
- `prediction`: the client's unconfirmed inputs;
- `client`: the client's side of the connection;
- `connection`, `clock`, `config`, `protocol`: clients, clocks, settings and
  the discrete part of what packets carry.

Positions, headings, speeds and timers are floating point; the program in
`app/` keeps them beside the library's records, does the geometry, and runs
the sockets (`server` argument) or the bevy window (no argument).
