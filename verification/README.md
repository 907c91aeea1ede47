# tables

Tables of items addressed by handles, with sorted indices and one-to-one
relations between items, verified with Verus.

A `Table<A>` stores items under fresh handles (`store`), hands them back
(`seek`, `seek_mut`), and takes them out (`free`). Every handle is used once
and never again. A table can keep sorted indices (`create_sort`), each of
which orders the items by a key computed from them, ties broken by the order
in which the items entered the index; `resolve` lists the items through an
index from either end, and `mutate` runs a callback over them in that order,
letting it change each item and plan further stores and frees.

A relation (`one_to_one`, `one_to_one_self`) pairs items of two tables, or
of one table with itself. Freed items drop out of every reading of a
relation at once; `gc` later removes their pairs for good.

## Layout

- `src/handle.rs`: handles and their equality.
- `src/table.rs`: the table, its consistency predicate `wf`, and the laws of
  store, seek and free.
- `src/index.rs`, `src/sort.rs`, `src/query.rs`: the index interface, sorted
  indices, and queries; the laws that a sorted listing is unique and that
  the descending listing reverses the ascending one.
- `src/plan.rs`, `src/loops.rs`: plans of deferred stores and frees, and
  `Table::mutate`.
- `src/source.rs`, `src/onetoone.rs`: relation freelists, their collection,
  and one-to-one relations with their laws.
- `tests/`: the tests, run against the compiled library.
