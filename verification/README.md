# mjx_sml

A packed cell store for SpreadsheetML worksheets, verified with Verus.

A worksheet's `sheetData` is held as three flat record arrays — rows, cells and the rare
per-cell extras — over one byte arena that starts with the part's own bytes. Every value the
store keeps is a range of that arena, so a row or cell nobody edited is written back by copying
the bytes it was read from.

## Layout

* `src/arena` — the byte arena (`text`), the start-tag attribute scanner (`attributes`) and the
  element splitter (`decompose`).
* `src/cells` — the store itself:
  * `read` turns a parsed element tree into records;
  * `store` holds the records and the edit surface;
  * `view` is the read-only surface (`Row`, `Cell`);
  * `write` writes the records back out;
  * `model` and `edits` say what the records mean and what each edit does, as spec functions;
  * `laws` states and proves what holds across operations;
  * `anomaly` reports what a file got wrong without repairing it;
  * `tidy` says which sheets have nothing to report and proves the edits keep them so.
* `src/address` — A1 cell references and the `spans` hint.
* `src/decimal`, `src/escape` — numerals and character-data escaping, as bytes.
* `src/features` — small value types of the worksheet's other parts, and the priority order of
  the conditional-formatting rules that apply to a cell (`conditional_chain`).
* `app` — the floating-point edges: a row's height and a cell's number as `f64`.

## What is proved

Every public function's contract is stated over the store's model (`SheetModel`), and Verus
checks the code against it. The laws in `src/cells/laws.rs` include:

* a sheet read from a part writes that part's bytes back unchanged;
* a sheet, row or cell read by ranges and rebuilt from its parts writes the same bytes;
* a cell edit leaves every other row, and every other cell of its own row, unchanged;
* a written value is read back;
* a removed row or cell is gone;
* an edit rewrites only its own cell's bytes;
* the sheet's cells are its rows' cells, row after row.

Elsewhere: a spans list's text reads back as the list (`address`); an attribute a run lacks is
appended and reads back; setting one it carries rewrites the first in place and drops the rest,
removing one drops every copy with the whitespace before it, and every other attribute reads as
before (`arena/attributes`); a part read whole is verbatim throughout (`cells/laws`); edits from an authored sheet leave nothing to report (`cells/tidy`);
the rule chain ascends by priority and keeps equal priorities in the order given
(`features/conditional_chain`). Reading a tree fails for size only when the part, or what the
reader stores beside it, outgrows the `u32` byte space, or the records outgrow their indices.

## What is not here

* The worksheet's other parts — comments, hyperlinks, filters, tables, conditional-format rule
  bodies, differential formats and the like — are built on the workbook's element model, an
  interner and the worksheet frame, none of which this crate holds. Of the conditional formats,
  only the ordering of the rules that apply to a cell is here, over plain values; collecting those
  rules from the worksheet's blocks is left to the caller.
* Parsing XML into a `SourceElement` is the caller's: the reader takes a tree and, optionally,
  the bytes its ranges point into.
* Floating point stays in `app`: a row's height and a cell's number are read and written there,
  and a NaN or an infinity is refused before it reaches the store.
* Record sizes are checked by tests, not stated to the verifier.
