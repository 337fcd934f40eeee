# presemble

A site of markdown files, each file of the shape that a schema gives it, and the
conductor that keeps such a site: it reads the files, edits them, suggests edits, and
says which pages are to be built again.

- `src/` is the library, verified with Verus but for the short functions that make the
  calls into outside crates.
  - Content: `document`, `parser`, `list`, `link`, `slot_assignment`, `validator`,
    `serializer`, `transform`, `diff`, `adapters`, `applying`, `slot_editor`.
  - The conductor: `conductor`, `commands`, `steps`, and one module for each part of
    its work: `loading`, `populate`, `affected`, `pages`, `rebuild`, `editing`, `suggesting`,
    `deciding`, `saving`, `showing`, `anchor`, `stamp`, `client`.
  - Pieces of their own: `bencode`, `dep_graph`, `content_editor`, `dirty`,
    `self_write_tracker`.
  - What the others are built on: `text`, `decimal`, `order`, `path`, `table`,
    `ranked`, `node_store`, `schema`, `site`, `editorial`, `protocol`, `error`.
  - The outside crates: `markdown`, `vector`, `unicode`, and the clock in `stamp`.
- `app/` is the ordinary Rust around it: files, sockets, and the loop that carries out
  the steps that the conductor asks for. It links against the nng library of the
  system.
- `tests/` runs the library on examples.

A command is carried out in steps. `Conductor::handle_command` gives the first one; a
step is either the result, or something that has to be done outside (read a file,
render pages, run a program). Whoever does it hands the outcome to the handler of that
step, which gives the next one.
