# DOM nodes, verified

The core DOM types: the basic node hierarchy (documents, document types, fragments,
elements, text and comments), the tree that links them, and the DOM operations that read
and rearrange it (`appendChild`, `insertBefore`, `removeChild`, `textContent`, ...),
written in Verus and proved against their contracts.

Nodes live in a `NodeArena`; an `AbstractNode` is a handle on a node, its place in the
arena. The arena keeps, as ghost state, the children of every node in order and the set of
ancestors of every node, and its well-formedness says that the sibling, child and parent
links agree with these records and that no node is its own ancestor. Every operation that
changes the tree keeps it well formed.

The layout data of a node is held in a `NodeLayoutData`, which only the layout task's
view of the tree (`NodeArena<LayoutView>`, `AbstractNode<LayoutView>`) can read or change.

Work that belongs to the document (waiting until layout is done with the tree,
registering the ids of inserted elements, noting that the content changed) is left as
`DocumentAction` requests in the arena, in order, for the document to carry out.

- `src/types.rs`: node kinds, errors, DOM strings, what each kind of node carries.
- `src/layout.rs`: the data that layout keeps for each node.
- `src/node.rs`: `Node`, `AbstractNode`, the walk over children, debug output.
- `src/tree.rs`: the arena, its invariant, and the link-level tree operations.
- `src/fragment.rs`: moving the children of a document fragment, in order, under a new
  parent.
- `src/script.rs`: the DOM operations of the script task.
- `src/derived.rs`: access to what a node carries by its kind, and to layout data.
- `src/laws.rs`: properties that relate several operations.
- `app/lib.rs`: writing the debug dump, and the operations that are not supported.
