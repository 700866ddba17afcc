# dt_lib

The verified core of a Disciples-like strategy game. The functions of
`src/` are proved by Verus against their contracts; the few that read the
system clock state what holds whatever time it gives.

Modules of `src/`:

- `room`, `lobby`: the PvP room registry and the lobby hub (sessions,
  rooms, chat with history cap, length cap and rate limit, the room half of
  the protocol), with the army check against a room's rules.
- `advini`: the ini codecs (`Ini` for strings, flags, numbers, options,
  lists) and the readers of properties and sections of ini documents.
- `locale`, `launcher`: localisation tables with a main and a fallback
  language, and the resolution of `$key` references in texts.
- `army`, `battlefield`, `bonus`: the battle grid: hit maps, where a troop
  fits, the kinds of places, moves, and the targets of abilities.
- `time`, `events`, `dtm`, `parse`: game time and its codec, event
  conditions, parts of the map file format, the readers of the object
  descriptions and of the settings, and small readers of game data.
- `map`: tile maps, ground kinds and the game map's hit map (ground,
  armies and building footprints).
- `mapdata`: the map data document: tile map, decorations, buildings and
  armies, sorted by id.
- `object`, `items`, `units`, `effects`, `registry`, `editor`,
  `validators`, `hotel`, `hwid`, `board`, `protocol`, `ai`, `text`,
  `sorted`: the remaining data types and their operations.

`app/` holds what the library does not do itself: reading files and the
machine id, the launcher's scan of its directories, the JSON form of the room protocol, and the board trait of the
analysed games. `tests/` runs the library on concrete values.
