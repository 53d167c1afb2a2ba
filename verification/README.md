# uwu_wiki

The engine of a wiki, written in Verus: what it computes and decides is stated
in contracts and proved.

## The library, `src/`

| Module | What it holds |
|---|---|
| `text`, `json`, `float`, `time`, `ids` | texts, JSON values, comparisons of floating-point numbers by their bits, points in time, identities |
| `seqs`, `assoc`, `sort` | sequences, tables with text keys, a stable sort |
| `tree` | documents as trees of blocks: operations, batches that are applied as a whole or not at all, undo and redo |
| `page` | pages whose source is Markdown: front matter, blocks, operations and batches that are applied as a whole or not at all, rendering, how summaries were derived |
| `table` | tables: columns, rows, views with filters, order and pages, cells filled by a language model |
| `graph` | directed graphs: walks, orders, layouts, export, a store with indexes that hold exactly the nodes of its graphs |
| `collab` | who may read which block; operations as changes of a replicated tree |
| `storage`, `memory` | queries, hits, links and versions; stores in memory |
| `llm` | fusing hits, prompts, citations, embeddings that are out of date, when to try again |
| `workflow` | taking in sources, answering and writing back, auditing |
| `config`, `error` | settings and errors |

A value of the library has a model (`deep_view`) made of `Seq`, `Option` and
plain values, and the contracts speak of models. What relates several functions
is stated by the public proof functions whose names begin with `law_`.

What comes from other crates stands behind small functions marked
`external_body`, each with the claim that the proofs rest on: parsing and
notation of JSON, parsing and rendering of Markdown, BLAKE3, UUIDs, the clock and
the notation of dates, and the Unicode properties of characters.

## The service, `app/`

Ordinary Rust around the library: asynchronous ports for stores and for the
language model, the stores in memory behind locks, the loops of the workflows,
records for JSON and YAML, and everything that is floating point (similarities,
scores, coordinates, waiting times).

## Tests, `tests/`

The tests call the library as any other crate would.
