# pdf_extractor

Text extraction, indexing and search over collections of PDF files.

- `src/` is the library: the rules, state machines and text algorithms, each
  with its contract. It holds the table of jobs and what a scan puts into it,
  the distribution of jobs among workers, the conversation with a worker and
  the frames it is made of, the indexer's batches and commits, the text and the
  tokens of a page, the stored positions of words, queries and what they ask of
  an index, enrichment of hits, recognition of text from images, and the
  viewer's state.
- `tests/` runs the library, with an index in memory where a search is made.
- `app/` is the program around it: the command line, the databases, the index
  on disk, PDFium, worker processes and threads, and the window. Coordinates,
  scores and times are floating point there; the library carries them as bit
  patterns.

Names of properties that hold of several functions together begin with `law_`.
