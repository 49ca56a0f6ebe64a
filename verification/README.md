# Aurora

The engine room of an experimental browser: the document and its shadow trees,
selectors and the cascade, the mirror of the document in the renderer, custom
elements, and what scripts can ask of a page. The library is verified with
[Verus](https://github.com/verus-lang/verus).

## Layout

- `src/dom`: nodes in an arena, attributes, shadow roots and slots, and the
  outline and SVG forms of a document.
- `src/html`: the tree that a tokenizer builds.
- `src/css`: what selectors see of an element, the cascade, and the style
  sources of a document.
- `src/blitz_document`: the mirror. Changes of the document become plans of
  renderer operations; the outcome is recorded, and the mirror can be checked
  node by node.
- `src/js`: mutations and their dispatch, queries, custom elements, their
  reactions and their forms, wrappers, timers, storage and network tasks.
- `src/fetch`: requests, their pacing, and responses.
- `src/text.rs`, `src/order.rs`: texts and ordered keys.
- `tests`: the library at work with the real tokenizer, selector engine and
  renderer.
- `app`: ordinary Rust around the library, with all input and output, layout in
  floating point, and the script engine.

## How contracts read

A document is viewed as a sequence of node views, and every function that
changes it says what sequence comes out. Walks through the document end where
no node is its own descendant; functions that walk ask for that. `dom::walks`
decides it for a document as a whole, `dom::layers`, `js::ends` and
`blitz_document::ends` show that it is enough, and `js::acyclic` that mutations
keep it.

Nodes live as long as their arena, but a parent link keeps nothing: `dom::kept`
says which nodes are still held, and takes the others away as parents.

Work that only the renderer or the script engine can do is split: a function
says what is to be done, the outside does it, and another function takes the
outcome and says what follows. Which form owns an element is asked of a
form source, a function that is handed in; contracts speak of its answers.
