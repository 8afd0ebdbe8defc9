# live_datadash

The verified core of a live telemetry dashboard for a race car. Sensor boards send
packets over a serial radio as lines of comma-separated ASCII numbers; a receiver
program decodes them and stores them in an SQLite database, and desktop windows
show them.

- `src/` is the library, verified with Verus:
  - `text`: the byte-level text model (splitting at a separator, digits, decimal
    values) and its lemmas;
  - `live`: the acquisition board's line of unsigned integers, with its round-trip
    law;
  - `receiver`: the radio receiver's packets of signed decimal readings, with its
    round-trip law;
  - `storage`: which table a packet goes to and the statement that stores it;
  - `ports`, `input`: listing and choosing serial ports, reading prompts;
  - `commands`: the window's commands and shared state.
- `app/` holds the programs around it: the receiver (default), the dashboard
  window (`dashboard`) and the live-data window (`window`). Serial ports, the
  database, random sample data, floating-point values and the windows live there.
