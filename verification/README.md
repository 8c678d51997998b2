# opencodesearch

A code search server for MCP clients. It keeps the code of a repository in a vector store
(Qdrant) and in a keyword index (Quickwit, with a local shadow index), and answers queries
from both.

Four processes work together: the orchestrator supervises the others, the ingestor indexes
the code base, the MCP server answers searches, and the watchdog follows the commits.

- `src/` is the library: how files are cut into chunks, what is written to and read from the
  stores, how hits are ranked and merged, which process runs when, and in which steps an
  update proceeds. Every function has its contract, proved with Verus, but for those that only
  call another crate or the standard library: their contracts are believed, and say so. The
  `*_laws` modules hold what is true of several functions together.
- `app/` is the program around it: the processes, the network, the file system and git.
- `tests/` run the library.

Run the server with

    opencodesearch orchestrator --config config.json
