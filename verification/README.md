# rque

An in-memory store of named groups of items, served over HTTP. A group is
an ordered list of items; an item is a non-empty list of strings whose first
string is its head, and no two items of a group share a head.

- `src/` is the verified library (Verus):
  - `data_storage.rs`: `Group` and `Storage`, their models (`Seq` of items,
    `Map` from names to groups), range reads and the lemmas about them;
  - `routes.rs`: what each endpoint decides and does to the store, from the
    request's values to a reply value;
  - `utils.rs`: the secret-key check, the help-page access rule and port
    parsing;
  - `globals.rs`: the default port and the refusal reasons with their texts.
- The store keeps its groups in a private `Vec` of (name, group) pairs,
  with the invariant that no name stands twice, and shows them to
  contracts as a `Map` from name to group. It is not a
  `HashMap<String, Group>`. vstd specifies `HashMap` only for key types
  that it knows obey its key model, and `String` is not one of them. That
  fact can only be assumed, and this crate proves everything it states.
  vstd's `StringHashMap` would do for lookups, but it cannot list its
  keys, and `GET /all` needs the names. A lookup is a linear scan over the
  names.
- `app/` is the server: actix-web handlers that read requests, call the
  library and write JSON replies, and `main`.
- `tests/` exercises the library on concrete values.
