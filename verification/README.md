# fix_flow

A FIX 4.4 codec between the `tag=value|` syntax and a JSON form with
`Header`, `Body` and `Trailer` sections, verified with Verus, and the
decisions of a small market-making bot built on it.

- `src/` is the verified library. `decoder` turns a message into JSON with
  the FIX 4.4 decoder and dictionary of `fefix`; `encoder` and `tagvalue`
  write the JSON form back as `tag=value|`; `json_message` reads the JSON
  text of a message (as `fefix`'s JSON decoder accepts it) and writes it;
  `roundtrip` and `json_roundtrip` state what the
  decoding side reads back from what the encoding side wrote; `tag_table`
  holds the simpler codec driven by a table of tags and names; `bot` holds
  the messages the bot sends, what it reads from replies, and the tracker of
  the orders it must cancel.
- `app/` is the program around it: the bot's connections, clock, random
  choices and floating-point prices, and the entry points that read JSON
  text or files.
- `tests/` runs the library against the real `fefix` and `serde_json`.
