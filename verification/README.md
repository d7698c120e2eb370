# gerrymandering

The rules of a small puzzle game. A square grid of blue and red voters is
split by the player into districts, each as many cells as the grid is high;
a district takes the colour of its majority, and the level is won when the
side named as the goal holds the majority of the districts.

- `src/` is the verified library (Verus): the grid and its voters
  (`board`, `grid`), the game state and its clicks (`game`), the bound on the
  cells in use (`capacity`), the borders drawn around districts (`outline`),
  the texts and colours shown (`display`) and properties proved of the rules
  (`laws`).
- `app/` is the window around it (bevy): drawing, mouse input, and the
  conversion of pixel positions to grid cells.
- `tests/` runs the library on concrete games.
