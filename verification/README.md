# syntax_cursor

Immutable syntax trees in two layers, verified with Verus.

- `src/green.rs` holds the *green* tree: shared nodes and tokens, without positions.
- `src/cursor.rs`, `src/children.rs`, `src/preorder.rs`, `src/offsets.rs` and `src/syntax_text.rs`
  hold the *cursor* layer: nodes and tokens with parents and absolute offsets, the steps between
  them, walks, searches by offset and by range, and replacement.
- `src/place.rs` and `src/walk.rs` hold the model that contracts are written over: a place is a path
  from the root of a green tree, a walk is a sequence.
- `src/laws.rs` and the files below `src/laws/` state and prove what holds of several operations
  together.
- `app/` adds what needs the traits of `std::fmt` and `Iterator`.

## What is trusted

- `allocation_address` reads the address of a green node. Nothing is claimed of the number; nodes
  are compared by it, together with their offsets.
- `sole_owner` is `Rc::get_mut`. A chain of parents is let go by means of it.
- `hash_key` feeds a key to a hasher. Nothing is claimed.
- `LiveCount` and `count_node` hold and make a `countme::Count`, which counts the nodes that are
  alive. Nothing is claimed.
