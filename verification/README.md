# strata

PDF → Markdown / JSON-graph document model for retrieval pipelines, with
its logic verified by Verus.

- `src/` — the verified library: the document AST and its provenance
  records, geometry on binary32 bit patterns, text normalisation and
  letter-spacing repair, noise filtering and paragraph grouping, the
  section tree, Markdown and graph serialisation, token-budget chunking,
  fusion of AI payloads, the mapping of AI responses to payloads, CID-font
  health classification, GPU snapshots, worker planning and the latency
  window of the back-pressure loop.
- `tests/` — behaviour tests of the library.
- `app/` — the `strata` command line and everything that needs I/O or
  floating-point arithmetic: PDFium extraction, glyph clustering, heading
  sizes, XY-Cut++ reading order, table detection, NVML, Prometheus metrics,
  the page scheduler and the embedded AI worker.
