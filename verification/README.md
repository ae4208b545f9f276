# xml_oxydizer

Streaming XML validation with proved contracts. A descriptor tree declares
the expected structure of a document, an access mode per element (streamed
with a context frame, or captured as a small owned tree) and the rules to
run when each element closes. The validation engine consumes tokenizer
events in one forward pass.

The library under `src/` is written in Verus and verified:

- `tree::builder` — the fluent `TreeBuilder`; `build` is proved to accept
  exactly the declarations without duplicate paths, rules whose `needs`
  returned capture on streamed nodes, or nested captures, to report the
  first offender, and to produce a well-formed tree whose node `i` is
  declaration `i`, its needs computed from what its rules' `needs` returned.
- `tree::descriptor`, `tree::path` — the tree (each node indexing its
  children by the hash of their tag), its needs flags, paths, and a check
  of well-formedness for trees assembled by hand.
- `reader::parser` — the engine (`StreamParser`) with a contract for each
  event (at an end tag: each rule of the element called once, in order, on
  a view of that element), laws on how elements open and close, and
  `parse_slice` for in-memory documents, proved to run the engine over
  exactly the events that `quick-xml` hands out for the document.
- `reader::capture` — the memory-limited builder of captured subtrees.
- `reader::siblings` — per-parent sibling counters (`smallvec`).
- `reader::events` — tokenizer events as plain values.
- `view`, `rule` — what rules see, and the rule traits.

`app/` holds what is not verified: reading from byte streams, the rayon
pipeline over many files with diagnostics sent over a crossbeam channel,
error messages (`thiserror`) and the `build_tree!` macro.
