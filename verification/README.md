# intentdb

A semantic record store: records (text, embedding vector, timestamp, tags)
kept in a binary database file, searched through an HNSW graph index, with a
command-line tool, an HTTP API and an MCP server around them.

The library in `src/` is written in Verus and proved against its contracts:

- `le`, `codec`, `record`: little-endian fields, the `.idb` database format
  (reading gives back what writing wrote);
- `hnsw`: the graph index (greedy descent through the upper layers, then
  a beam on each layer below; insertion keeps the graph well formed, its
  neighbour lists within bounds and free of repeats, links the new node to
  the best of each beam and each chosen neighbour back to it; search ranks
  the bottom-layer beam and is exact on indexes of up to `2 * M + 1`
  nodes; the `.hnsw` file format, which also reads back what it wrote);
- `store`: records and index kept in step through put, delete, update,
  import and pull;
- `query`, `timeline`, `dedup`: tag and time filters, resolving search hits,
  the chronological timeline with its session, role and limit filters,
  duplicate pairs;
- `date`, `text`, `transfer`, `api`, `tools`: dates and timestamps, text
  helpers, CSV and text import/export, request checks, prompts and the
  assistant tools' selections.

Vectors are kept as `f32` bit patterns; the distance between two vectors is
supplied by the caller as an ordering key, so the library itself computes
with integers only.

`app/` holds the programs around the library: argument parsing, files,
network calls, floating-point scoring and clustering, and the HTTP and MCP
servers.
