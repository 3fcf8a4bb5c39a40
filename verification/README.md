# Hive

The core of a BitTorrent tracker, verified with Verus: its swarms, the HTTP and
UDP protocols, rate limits, metrics, settings and what is saved in a database.

- `src/` is the verified library. Each module states its functions' behaviour
  over plain mathematical values; the modules whose names end in `_laws` hold
  what follows for the library as a whole.
- `app/` is the program around it: listeners, files, the SQLite database.
- `tests/` runs the library on concrete values.

The library relies on a few outside functions whose behaviour is stated but not
proved: the map of `dashmap`, the registry and text encoder of `prometheus`, the
client table of `aquatic_peer_id`, the comparison of `subtle`, and the clocks, the
UTF-8 check and the quotation of texts of the standard library. Each has a doc comment that says what
is claimed of it.
