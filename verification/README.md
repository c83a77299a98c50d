# rw_core

The deciding parts of a streaming database, as verified Rust.

- The hash join of two streams of changes, for inner, outer, semi and anti joins. A change on one
  side is held against the rows of the other side under the same join key, and the changes of the
  output are put out in chunks. Rows live in memory, on their way to a state store, or there.
- The order in which a join takes messages, fetches rows ahead of them and puts messages out.
- The decision on `CREATE DATABASE`.
- The campaign of a node for leadership, and the list of the members of an election.
- The catalog entry of a user-defined function, and the page of a node of a highly available setup.

## Layout

| Files in `src/` | What they hold |
| --- | --- |
| `row`, `keyed`, `recency`, `chunk`, `schema`, `text` | rows, lists and maps under keys, chunks of changes, columns, numbers as text |
| `join_kind`, `join_builder`, `join_state`, `join_step`, `join_run` | one change, and one chunk, of one side of a join |
| `hash_join`, `join_stream`, `key_set` | the executor, and the order in which it works |
| `join_model`, `join_laws`, `join_history`, `join_append` | what a join is, and that the changes put out add up to it |
| `join_mirror`, `stream_mirror` | a join and its mirror image, with left and right exchanged |
| `stream_laws`, `executor_laws` | chunks, queue and fetches, and the executor's steps as events of a join's history |
| `stream_run`, `stream_history` | whole runs: their order, their end, and what they come to |
| `create_database`, `election`, `function_catalog`, `ha_setup` | the rest |

`app/` is the program around the library: it talks to etcd, to a state store and to clients.

## What holds of a join

`law_history` in `join_history` says that, whatever happens to a join from nothing on, the changes
that it has put out add up to the join of the rows that its sides hold, and that these are the rows
that came and were not removed. A condition of a semi or anti join must not depend on which of two
rows comes first.

`law_append_only_history` in `join_append` says that, of streams that only grow, the changes add up to
the join of all rows that ever came, though rows are dropped once they have matched.

`law_run_in_order` and `law_run_ends` in `stream_run` say that a join answers its messages in the order
in which they came, each barrier once and unchanged, and ends when its input has ended and all are
answered. `law_run_is_join` in `stream_history` says of such a run what `law_history` says of events.

`law_mirrored_runs` in `stream_mirror` says that a right semi or anti join puts out the same messages as
the left one with its inputs exchanged.
