# tappio

Reading and writing the files of Tappio, a bookkeeping program, and turning
a Holvi journal workbook into one.

- `src/` is the library, verified with Verus:
  - `text`: white space, decimal numbers, building strings;
  - `sexpr`: s-expressions, their model and their text form;
  - `reader`: reading s-expressions from text;
  - `round_trip`: the proof that what is written of a list reads back as
    that list, whatever text follows it, wherever its atoms can be written
    (strings without `"`, symbols that read back as symbols and do not end
    a list);
  - `chart`: charts of accounts in the indented text format;
  - `ledger`: dates, journal rows as events, chart file headers and the
    Tappio document.
- `app/main.rs` is the command line program: it reads the files and the
  workbook, computes amounts in cents, and writes the result.
- `tests/` runs the library on concrete values.
