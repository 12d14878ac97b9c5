# akvisionator

A run-and-gun platformer for the terminal, drawn with half-block characters in 24-bit color,
with a checker that tells whether a level can be finished.

The library (`src/`) is written in Verus; every function in it carries a contract that Verus
proves:

- `level`, `gates`, `parse`, `load`, `text`: the level format (tile grid plus `name`, `hint`
  and `link` metadata), its parser with exact error messages, and the groups of gate tiles
  that switches open.
- `render`, `sprites`, `tiles`, `hud`: the framebuffer, the diffing half-block screen and its
  escape sequences, sprite drawing, the look of every tile, and the heads-up display.
- `game`: the rules without motion: the random source, what crates hold, what pickups do,
  the hint row and the banners.
- `input`, `fullscreen`: held keys from press and release events, and when to toggle
  fullscreen.
- `validator`, `report`: the level checker's search state, what a hero's box touches, the
  level as pressed switches leave it, and the report with its messages.

The program (`app/`) is plain Rust: the terminal, the main loop, and everything that moves in
floating point (hero, bots, bullets, particles, camera, parallax background, and the scale at
which the framebuffer is shown, which `Screen::blit` takes as the image size), which also
drives the checker's search.

The tests under `tests/` run the library only. The checker's reachability search steps the
hero's floating-point physics and so lives in `app/`; the checker tests here hand `check`
search outcomes written out by hand and test the report built from them, not what is
reachable.
