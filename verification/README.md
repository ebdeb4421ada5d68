# Strandmap

Strandmap is a relationship graph for code, tests, schemas, configuration and documentation
that should be reconsidered together. Anchors name places, strands collect the anchors that
serve one intent, and relations connect anchors. Strandmap tells which strands a change
touches, gathers the source around a task, and keeps records of reviews.

- `src/` is the library, written in Verus: reading annotations, finding the source they stand
  for, building and refreshing the index, following changes through the graph, searching,
  printing context, editing metadata, migrating annotations, and reviews. Every function states
  what it returns, and the modules whose names end in `_laws` state what holds across functions.
- `app/` is the `strandmap` program: the command line, files, git, the documents that serde
  reads and writes, and the floating-point weights of the search.
- `tests/` runs the library on examples.
