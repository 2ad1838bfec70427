# raw_table

The logic of a hash table that is laid out in two arrays: one of control bytes and
one of entries. Keys and values are fixed size byte arrays. The table does not grow,
and nothing is removed from it.

The constructors ask for entries without padding bytes and without an alignment
requirement. Whether the key or the value of an entry comes first in memory is up to
the compiler.

- `raw_table`: `RawTable` for reading, `RawTableMut` for inserting, `RawIter` for
  going through the entries.
- `swisstable_group_query`: looks at sixteen control bytes at a time.
- `byte_array`, `hash_fn`, `error`: what keys, values, hash functions and errors are.
- `model`: a table as a mathematical value, and the search in it.
- `probing`: why a probe sequence comes to every slot.
- `laws`: what holds of every table that insertions lead to.
