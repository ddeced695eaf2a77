# folio

Section-scoped semantic search over a markdown corpus. The index holds
references (a path, a line range, the heading trail and the frontmatter of
each section), never bodies.

The crate is in two parts.

- `src/` is the library, verified with Verus: splitting a file into heading
  sections and dividing long ones to a character budget, flattening
  frontmatter, the `--where` grammar and the filters it builds, which
  settings win and where credentials may be sent, which files a re-index
  embeds again, moves or retires, how sections are committed in batches and
  how a compacted matrix is renumbered, the service file `folio unit` prints,
  and what `folio status` and `folio index` report. Each public function
  states its result in its contract, and the properties that span functions
  stand as proof functions beside them. Where the filesystem answers a
  question (whether a directory holds an index, whether a file is there), the
  contract states what is done with every possible answer: the walks upward
  take the nearest directory the filesystem marks.
- `app/` is the `folio` command: argument parsing, the SQLite record store,
  the HTTP calls to the embeddings endpoint, the walk over the corpus, the
  vector arithmetic, and printing. It asks the library for every decision.

`tests/` runs the library on concrete inputs.
