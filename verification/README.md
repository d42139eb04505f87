# Vector Emancipation

A puzzle game on a rectangular grid. A level is covered by arrows; clicking an
arrow makes it slide along its own body and off the board. A level is complete
when no arrow is left.

The rules of the game are a library verified with Verus; the window, the
rendering and the input are a Bevy application around it.

## Layout

- `src/` is the library.
  - `ivec`, `path`: grid vectors, polylines and the cells that they cover.
  - `hash`, `rng`: the integer hash and the seeded random stream.
  - `placement`, `generate`: the tail walk and the level generator, each equal to
    a mathematical description of what it computes.
  - `solvable`: what every level guarantees. Its arrows are well formed, share
    no cell, leave by distinct outlets, and can be cleared in the listed order;
    none can be added.
  - `grid_map`: the map from cells to arrows.
  - `playfield`: level sizes and pixel layout.
  - `game`, `pointer`: screens, progress, hovering and clicking.
  - `slide`, `mesh`, `winding`: the slide of an arrow, the triangle layout of its
    body, and the order of every triangle's corners.
- `tests/` runs the library on concrete values.
- `app/` is the game itself.

## Numbers

The library works with integers. A hue is a numerator over 2^24, measures of an
arrow are ten-thousandths of a cell, and slide offsets and pointer positions are
rounded to whole pixels or grid units before they reach the library. The
application turns them into floating-point numbers.

## Running

Bevy is built here without a window backend. To open a window, enable Bevy's
`bevy_winit` feature together with the backend of the platform (`x11` or
`wayland` on Linux).
