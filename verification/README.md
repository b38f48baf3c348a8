# ros_madair

A page-based static index for SPARQL-style queries over heritage data
(Arches resources, their tiles and SKOS concept schemes). The index is a set
of binary files — dictionary, summary quads, resource map, concept intervals
and tree, and per-page record and tile files — that a client fetches piece by
piece and queries in memory.

The library is written in Verus: every function in `src/` carries a
contract, and the file formats, lookups, quantisation and routing logic are
proved against it. Laws that span several functions (encode/decode round
trips, the Hilbert grid bijection, date order, page planning, the DFS
interval property of concept hierarchies, cache coverage, Hilbert range
coverage, deterministic dictionary files) are public proof
functions.

Layout:

- `src/` — the verified library, one module per concern: byte codecs and
  sorting (`codec`, `sort`, `text`, `decimal`), the file formats
  (`dictionary`, `summary_quads`, `resource_map`, `page_file`,
  `tile_content_file`, `concept_intervals`, `concept_tree`), value
  quantisation and curves (`quantize`, `calendar`, `hilbert`,
  `hilbert_inverse`), index building (`concept_build`, `page_assignment`,
  `value_extract`, `rdf_export`), and reading and querying (`page_cache`,
  `tile_source`, `resource_listing`, `query_results`, `range_response`,
  `uri`, `datatype_class`).
- `tests/` — tests of the library on concrete values.
- `app/` — what the library does not hold: conversions from alizarin and
  JSON types, floating-point geometry, file reading, and the alizarin tile
  source implementations.
