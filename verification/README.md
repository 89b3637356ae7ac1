# pmmlruntime

A Verus-verified reader for PMML documents: the hardened XML reader (size
cap, depth cap, skipped declarations), the unmarshalling of a document's
events into raw model structures, and the small pieces of logic around them
(tokenisation, value maps, a string map, error values).

Layout:

- `src/` — the verified library. `xml.rs` turns the `quick-xml` reader's
  output into plain events and names the event stream of a document;
  `reader.rs` is the depth-tracking reader; `unmarshal/` holds one module
  per model kind, with `cursor.rs` for the specification of how values are
  read from tags, and `document.rs` for the whole document.
- `tests/` — the tests, run against the compiled library.
- `app/` — what stays outside the verifier: floating-point numbers read from
  the raw text, the `thiserror` error type, and arena helpers.
