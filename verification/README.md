# fractal_farm

A web farm that generates fractals, lets people rank them by pairwise duels
(a bisection over the current ranking) and hands out the best one on demand.

`src/` is the verified library:

- `elo` — the Elo update with factor 20, computed exactly in integers, with
  its laws (bounded; the loser, scored against the raised winner, loses
  what the winner gains or one point more; monotone in the rating gap).
- `models` — the rows of the fractal table and the records exchanged with
  clients.
- `store` — the updates of the fractal table the ranking logic issues, their
  meaning over the rows, and an in-memory table that applies them.
- `ranking` — the decisions of the rating: which fractal to duel next, and
  which updates settle a duel, a consumption, a deletion or a submission.
- `farm` — the whole operations (rate, duel, consume, delete, submit, clean
  up) on the in-memory table.
- `laws` — what these operations keep: the ranking stays a ladder of places
  1..n held once each, and each duel narrows the bisection.
- `naming` — file names of rendered images (size and SHA-256 of the json).
- `generation` — which kind of fractal to generate from a seed or a name.

`app/` is the Rocket web server around it: routes, templates, the sqlite
database through diesel, and the fractal rendering crate.
