# lemonade_context_engine

The verified core of a folder-aware retrieval layer for Lemonade: it decides what an
indexing pass does with each file, how a chunk rejected as too large is halved and
retried, how an embeddings reply becomes vectors or a labelled error, which installed
models may be offered for chat and in what order, and how a chat reply is cleaned of
`<think>` blocks and grounded with numbered, cited context.

- `src/text.rs` — search, `White_Space` trimming, code-point order and decimal
  rendering over the character view of strings.
- `src/lemonade.rs` — chat replies, the model picker, embeddings replies.
- `src/rag.rs` — indexing bookkeeping, chunk bisection, grounded prompts.
- `src/config.rs` — settings and their locations.
- `app/` — the HTTP client, file access, serde shapes and the floating-point model
  sizing, around the library.
