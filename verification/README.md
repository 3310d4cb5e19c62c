# orlice

Draws political maps from Europa Universalis IV save games in the text
format.

- `src/` is the library, verified with Verus:
  - `eu4_save_parser`: the save format's values, parsed from the bytes of a
    save game;
  - `game_types`: nations and provinces, and how the nations (and the owners
    of the provinces) are read from the parsed values;
  - `eu4_province_reader`: the provinces, read from the definition table and
    the table of water bodies;
  - `image_generator`: the colour of each province on the map, the painting
    of the map from the table of map coordinates, and its PNG;
  - `map_converter`: the table of map coordinates, made from the province
    map image;
  - `savegame_reader`: one nation's colour and provinces, found with a
    regular expression;
  - `map_api`: what the web page asks of the library;
  - `csv_table`, `numbers`, `text`: reading tables and numbers, writing
    numbers.
- `app/` is the code around it: the wasm bindings of the web page, the
  desktop tool, fetching and reading files, and the floating-point parts
  (the blend factor, the floats of the save format).
- `tests/` runs the library on concrete inputs.
