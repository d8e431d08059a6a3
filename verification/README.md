# hoi25

The rules of a small grand-strategy game on a hexagonal map, verified with Verus.

- `src/` is the library: the hexagon grid, the map of provinces, path finding,
  division movement and stacking, borders, visibility of divisions to countries,
  the economy, country assignment of players, the map file's keys, and the
  client's selection state. Every function there carries a contract that Verus
  proves.
- `tests/` runs the library on concrete games.
- `app/` is the program around it: the Bevy server with its network, the map
  generator that reads an image, and the parts of combat that work on floats.
