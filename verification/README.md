# Ant colony

An ant colony on a grid where every ant decides for itself what to do next,
asking a language model (TypeSafe Jev) what the queen's one sentence means
for it. The library is written in Verus: the board, what an ant can see,
the options it is offered, the checks its answers go through, and the
simulation that carries the chosen intents out are verified against their
contracts.

- `src/` — the verified library. `world` holds the board and every rule by
  which intents are carried out, with the invariant that nothing ever shares
  a cell; `colony` hands decisions out and asks for new ones; `level` builds
  and rebuilds a level; `game` runs one frame; `options`, `vision`, `jev`,
  `rules` and `decisions` are the decision layer; `scent`, `nest`, `plank`,
  `grid` the ground it all stands on; `hud`, `bar`, `inspector` and
  `panels` are what the screen says about all of it, as lines and colours.
- `app/` — the terminal program around it: the network, the files, the
  clock, the typed commands, and the `--probe`, `--compare` and `--measure`
  tools.
- `tests/` — the tests, run against the compiled library.

## Three tests and the size of the board

The board is 64 × 32 with a six-wide nest at 29…34 × 13…18, as `config`
documents, and three tests are written for that board:

- `the_nest_is_a_square_in_the_middle` expects the nest at 29…34 × 13…18.
  A single ring of nest around the centre cell would need a three-wide nest,
  too small to hold the colony at the start.
- `a_trail_leads_a_carrier_home_to_the_nest` lays its trail from (20, 12)
  eastwards, towards the nest; a trail laid westwards would lead away from it.
- `a_fruit_carried_into_the_nest_is_counted` carries a fruit home from three
  cells away. From (5, 9), where a fruit four cells north of (5, 5) is picked
  up, the nearest nest cell is 24 steps away: at four steps a second that is
  all of six seconds in 50 ms frames, and the fruit is put down on the frame
  after the ant arrives, so six seconds are one frame too few.
