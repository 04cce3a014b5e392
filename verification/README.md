# caj2pdf

Reads CNKI's academic-journal containers (CAJ, HN, C8, KDH, PDF, TEB) and
turns them into PDF. The library is written in Verus: its functions carry
contracts, and the verifier proves the code against them. The exception is
`src/bindings.rs`, whose small wrappers around std and the outside crates
are trusted: their contracts are stated from those crates' sources and
believed, not proved.

## Layout

* `src/types.rs` – errors, formats, outline entries, raw and decoded images.
* `src/format.rs` – telling the formats apart by their first four bytes.
* `src/document.rs` – a document held in memory: header fields, outline,
  page-data layout; `src/caj.rs` and `src/hn.rs` read the CAJ and HN / C8
  containers, `src/hn_page.rs` the text records of an HN page.
* `src/jbig1_codec.rs`, `src/jbig1_tables.rs`, `src/jbig1.rs` – CNKI's
  JBIG1 variant, decoded against a mathematical model of the arithmetic
  coder and of the packed output.
* `src/jbig2.rs` – JBIG2 images, decoded by `pdfluent-jbig2` and packed
  into rows of bits.
* `src/pdf.rs` – the outline tree, its depth-first order and the
  dictionaries of the PDF outline; outline injection into an existing PDF.
* `src/builder.rs` – assembling a new PDF from page images.
* `src/convert.rs` – what each format becomes on its way to a PDF, and the
  KDH decryption.
* `src/bindings.rs` – the calls into std and the outside crates
  (`encoding_rs`, `flate2`, `pdfluent-jbig2`, `lopdf`), each with the
  contract the rest of the library relies on.
* `src/gui.rs` – the state of the desktop front-end's file queue.
* `app/` – the `caj2pdf` command line: file I/O, argument handling, logging
  and the floating-point page geometry.
* `tests/` – tests run against the compiled library.
