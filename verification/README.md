# mazetot

The logic of a small first-person horror maze game (a raycaster over a
character grid), verified with Verus, and the game around it.

- `src/` — the verified library:
  - `maze` — the maze file format (one row per line), the grid of
    characters, its extent, walls, markers, and the floor test for
    whole-pixel points and collision boxes;
  - `pathfind` — walkable neighbours and shortest routes (breadth-first
    search), with a proof that a found route is shortest, and the first of
    the shortest ones in move order (right, left, down, up), and that
    `None` means no route exists;
  - `enemy` — the enemy's mind: patrol, investigation and chase states,
    routes, patrol choices and footstep rhythm;
  - `totem`, `player`, `game` — totems (the nearest one within reach is the
    one smashed), the player's lives and hiding, the interaction key, when
    the enemy wakes up and the end of a frame (win and loss);
  - `menu` — the menu state machine;
  - `framebuffer`, `textures`, `color`, `map_view` — the software pixel
    buffer, the decoded textures, and the map drawn from above into the
    buffer.
- `app/` — the window, input, audio, the raycaster and everything measured
  in floating-point world units, calling the library for every decision.
- `tests/` — tests of the library.

Verify with `verus` on `src/lib.rs`; build the game with the `raylib` crate
(it needs `cmake` and the system's graphics libraries).
