# rzpdf

A library for reading, changing and saving PDF documents, written in Verus:
every function of `src/` carries a contract that Verus proves.

## Layout

- `src/objects.rs`: the PDF objects and their mathematical model (`Obj`).
- `src/parser/`: bytes to objects. `character` classifies bytes, `syntax`
  reads words, numbers, strings, names, arrays, dictionaries, streams and
  indirect objects (`syntax_spec` states what each read gives), `parser`
  finds `startxref` and reads xref tables with their `Prev` chains,
  `xref_stream` reads xref streams (a filtered one from its data once
  decoded, through `xref_stream_table_decoded`), `security` pads passwords
  and reads crypt filters.
- `src/cross_ref_table.rs`: the cross-reference entries and the trailer.
- `src/store.rs`, `src/pdf_context.rs`, `src/document.rs`: an open document,
  the objects read from its file and the changes made to them.
- `src/writer.rs`: saving a document: its objects, its xref table, its
  trailer.
- `src/read_back.rs`, `src/round_trip.rs`: what the writer writes, the reader
  reads back; a saved document, opened again, gives back its objects.
- `src/page/`: content streams: operators, the content parser, the content
  builder (`content_round_trip`: what the builder builds, the parser reads
  back), and the small state types of pages.
- `src/path/`: paths, their segments and their transforms.
- `app/`: what works with files or with floating-point numbers.
- `tests/`: tests of the library on concrete values.
