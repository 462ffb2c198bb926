# fast_ebook

A library for reading, writing, validating and converting EPUB 2 and
EPUB 3 books, written in Verus: each function states what it does in its
contract, and Verus proves the code against it.

- `src/` is the verified library.
  - `xml`, `container`, `manifest`, `spine`, `metadata`, `ncx`, `nav`:
    the XML documents of a book, parsed by `roxmltree` and read from the
    plain node list it gives.
  - `archive`: ZIP archives through the `zip` crate, for reading and writing.
  - `reader`, `refines`: a book from the bytes of an archive.
  - `writer`, `timestamp`: the package, NCX and Nav documents, and the
    archive of a book.
  - `model`, `metadata`, `item_type`, `builder`: books, items and their
    metadata.
  - `validation`, `markdown`, `report`: checks, Markdown, and what the
    command-line tool prints.
- `tests/` runs the library on concrete books and documents.
- `app/` holds what stays outside the proofs: file access, parallel
  reading with `rayon`, the `clap` command-line tool and the `pyo3` module.
