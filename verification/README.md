# warhammer_graph

A knowledge graph built from a Wahapedia corpus v1 export, and a question
answerer that retrieves passages from it, with the logic verified by Verus.

- `src/graph/`: the builder. Corpus entities become nodes (one per entity of a
  node table, one per wargear line, one per normalized keyword), pending edges
  are kept when both endpoints are nodes and their key is new, each node gets a
  passage, and the manifest counts kinds. `bundle.rs` states the validation
  rules in order; `builder.rs` proves that a built bundle passes the endpoint,
  passage, keyword, edge-payload and manifest rules, so that, with its
  snapshot decoding back to the same payloads, it validates exactly when each
  datasheet has its one faction edge and no two nodes share a payload, and
  that building is deterministic.
- `src/ask/`: the answerer. Loading a bundle, label search, expansion along
  edges, the search for the prompt within the chat model's budget (as many
  whole blocks as the token counts allow, seed texts cut only when the seeds
  alone do not fit), citations, the binary
  embedding index and its round trip, and how answers are printed.
- `src/foreign.rs`: the calls into `sha2`, `caseless`, `serde_json` and
  `std::str::from_utf8`, with the contracts the library relies on.
- `app/`: the two command lines (`wh-graph`, `wh-ask`), file I/O, serde
  records, the postcard snapshot, llama.cpp models, vector ranking and the
  settings window.
- `tests/`: tests of the library on concrete values.
