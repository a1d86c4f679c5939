# modbus_translator

Translates raw Modbus register readings into the named fields of database and
front-end records, as a mapping file (CSV, no header row: key, address or
expression, kind `Simple` / `Combined` / `Bit`) prescribes.

- `src/` is the library, verified with Verus:
  - `address`: the sensor addresses an expression mentions;
  - `register`: hexadecimal register numbers, readings and formula inputs;
  - `mapping`: the mapping file's rows and the mapping table;
  - `lookup`: the keyed lookup of mapping rows (`lookups` crate);
  - `expression`: integer evaluation of `Bit` formulas (`evalexpr` crate);
  - `translator`: which value each field receives;
  - `structs`, `text`: shared types and string helpers.
- `app/` is the program around it: reading the mapping file, records with
  fields read and written by name, and evaluation of floating-point formulas.
- `tests/` exercises the library on concrete values.
