# eol_attributes

Line endings of files in a repository.

- `src/line_endings.rs`: what a line ending is, what it means to normalize a byte sequence, and the
  automaton that normalizes a stream byte by byte.
- `src/eol.rs`: the target formats, and the transformer that stands between an inner reader and the
  buffers it is read into. It does no I/O: it is told what the inner reader did, and says what to do.
- `src/eol_laws.rs`: laws of normalization and of whole streams.
- `src/repo_path.rs`: paths within a repository.
- `src/attribute_search.rs`: the search for attributes, done by `gix`, and what is relied on of it.
- `src/git_attributes.rs`: the attributes `text` and `eol` of a file, and the resolver that goes
  through the directories of a repository to find them. It asks for files and is told what they hold.
- `src/git_attributes_laws.rs`: laws of attributes and of the way of the resolver.
- `app/`: the asynchronous reader, and the resolver over a tree and a store.

A CRLF that directly follows a lone LF belongs to the line ending of that LF: `\n\r\n` is one line
ending, while `\n\n` and `\r\n\r\n` are two.

`Cargo.toml` holds `kstring`, which `gix` uses and the library does not name itself, at a release
that builds with Rust 1.73 and later. Its release 2.0.5 asks for Rust 1.96.
