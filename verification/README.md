# turn_based_tactical

The rules of a small turn-based tactics game on a square grid, verified with
Verus, and the Bevy program that plays them.

- `src/` is the verified library:
  - `grid`: cells, tiles, the level layout, the tile map, Bresenham lines
    and line of sight;
  - `units`: range shapes, health, attacks, spawn points and stats, and the
    move and attack cells of every unit (`units::enemy`: damage taken from the
    player units and the enemies' movement; `units::player`: damage taken from
    the enemies, the start and the end of the player's turn);
  - `interaction`: selecting units and destinations with clicks;
  - `tile_overlays`: overlay layers, the highlight of a hovered unit's
    ranges, and the colour each tile shows;
  - `ui`: the action bar's buttons;
  - `game`: the start of a game, winning and losing.
- `tests/` runs the library on concrete boards.
- `app/` is the Bevy program: rendering, input, the ECS systems, and the
  conversions between its components and the library's types.
