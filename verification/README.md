# engramai

The core of a memory substrate for agents: projecting tables of memories,
entities and links onto one graph of nodes and edges, checking that the
projection is faithful, and synthesizing insights from clusters of memories.

- `src/` is the library. Every item is verified with Verus.
  - `substrate/` holds the nodes and edges, the drivers that fill them from the
    older tables, the derived ids, and the checks of what was filled in.
  - `synthesis/` holds cluster discovery, the synthesis gate, prompts and
    replies, provenance, and the course of a run.
  - `triple`, `triple_extractor`, `turn_window`, `temporal_dim`, `time_phrases`
    and `temporal_grounding` deal with what is read out of conversations: facts
    as triples, the turns before one, and phrases that name a time.
  - `text`, `json`, `time`, `score`, `ranking` and `hashing` are what the others
    stand on. A `Score` is a double by its bits, with the order of doubles.
- `app/` is ordinary Rust around the library: SQL, HTTP, clocks, floating-point
  arithmetic, and copies of the types that are serialized.
- `tests/` runs the library on concrete values.

Functions that only an outside crate can compute stand behind small trusted
functions, each of which names the call that it makes and what is claimed of it.
