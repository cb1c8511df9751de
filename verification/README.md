# fastnode

JSON Nodes stored with an index on every attrs path: typed postings, exact
decimal number keys, intervals and links. Queries combine predicates as sets
of ids (`and`, `or`, `not`, traversals), page in id order or by one sortable
path, and pull linked Nodes with each result.

## Layout

- `src/` — the library, verified with Verus. It holds the rules: how a Node
  becomes index entries (`index`), what a predicate and a query must satisfy
  and how their results are combined, ordered and paged (`model`, `query`),
  what each write changes in the indexes and which writes a type's policy
  allows (`store`), and the derived Node types (`types`). Sets of ids are
  `roaring` bitmaps, reached through a few trusted wrappers in `bitmap.rs`.
- `tests/` — tests of the library on concrete values.
- `app/` — the `fastnode` command: the SQLite store (`rusqlite`), the query
  engine that performs the reads the library asks for, JSON in and out
  (`serde_json`), bulk import and the rpc mode, whose decisions are taken
  by `session`.

A predicate is evaluated by `query::evaluation::Evaluation`: it walks the
predicate and stops at each read it needs (an index read, the live Nodes,
the estimates of an AND's operands, a hop or repeated hops of a relation);
the engine performs the read and hands the answer back. The estimates come
from `query::estimate`, which names the counts to read and combines them.

## Properties proved

Among them: answered with what the store holds, an evaluation ends with
exactly the Nodes the predicate means (`and`, `or`, `not` are intersection,
union and complement within the live Nodes, a traversal reaches what its
steps reach), whatever estimates order an AND; number keys are equal
exactly for equal decimal normal forms and sort by sign, magnitude and
significant digits; `unhex` reads back what `hex` wrote; a cursor decodes to the key
it encodes; key comparison is a total order (numbers before strings
ascending, reversed descending, Nodes without a value last); a prefix range
holds exactly the tokens with that prefix; id pages continue where the last
one stopped; repeated hops keep each Node at its shortest distance; an AND
evaluated smallest estimate first inside the survivors gives the
intersection; applying a change to a Node's entries leaves exactly its new
entries; a transaction reads one time, and the clock only grows; number
tokens and ordering keys keep the order of the keys they carry, numbers
before strings; escaped object keys are valid, distinct pointer segments
that are never wildcards; setting a state keeps the states of a key apart;
declaring the identical index again does nothing; after a failed request in
an rpc transaction only rollback is accepted; a predicate written as JSON
(`model::render`) reads back as itself, and a refused predicate, write or
field name comes with what was not known (the unknown members or op, the
schema and the name asked for).
