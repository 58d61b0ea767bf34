# pmc

A small media library manager for the command line: it indexes a movie
directory and a directory of shows, guesses titles, season and episode numbers
from file names, keeps a watch history, and plays media in mpv.

- `src/` is the library, written in Verus: the index, the lookups by id, the
  decoding of watch records, the choice of what to play or resume, and the
  decisions taken on each message from the player, each with its contract.
- `app/` is the program around it: the command line, directory walking,
  `index.json`, the SQLite history and the mpv socket.
- `tests/` runs the library on concrete values.
