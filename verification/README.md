# acatrack_rust

Reads student result sheets (PDF or plain text) into records: the seat number,
name and semester from the header, and the internal and external marks of each
subject code asked for, with a log of what was seen.

The library under `src/` is verified with Verus:

- `text` — characters, Unicode white space, trimming, lines and words, digits;
- `marks` — reading (internal, external) marks from the tokens after a code;
- `record` — the record, its mark table, its log, and the set of codes;
- `pattern` — the header fields and the shape of a subject code (regular expressions);
- `scan` — the token scanner over running text;
- `table` — stacked rows, codes in a row, marks from the cells after the code;
- `sheet` — a whole sheet: header, then each page's table or text;
- `pdf` — reading an opened PDF with `pdfsink_rs`;
- `entries` — the record as named fields;
- `laws` — what holds of the parser as a whole.

`app/` holds the Python bindings: opening files, threads, and writing the log as text.
