# Oxy-Torrent

A small BitTorrent client whose engine is verified with Verus.

- `src/` is the engine. It reads no socket, file or clock: each protocol is a state machine that
  says what to do next and is told what came of it.
  - `metainfo`, `start`, `paths`: what a torrent file settles.
  - `pieces`: where the pieces lie in the file, and which of them it holds.
  - `manager`: the state of one download. `state`: the settings and the running torrents.
  - `wire`, `download`, `peer`: the messages, the fetching of one piece, and the work with one peer.
  - `tracker`: asking trackers for peers.
  - `bytes`, `text`: big-endian numbers and text. `outside`: the calls into other crates.
- `app/` is the client around it: the window, the files, the connections and the file formats.
- `tests/` run the engine.

The functions named `law_...` state what holds of the engine as a whole: that requests tile a piece
and pieces tile the file, that only bytes with the right digest are saved, that no piece is lost or
fetched twice, and that work which leaves nothing to fetch leaves a complete file.

What is believed rather than proved is in `outside`, apart from the contract of `String::push` in
`text`: SHA-1, percent-encoding and random numbers.
