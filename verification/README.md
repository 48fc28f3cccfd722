# vault domain

The domain of a secrets vault, written in Verus: every executable function carries a
contract, and the properties of the library as a whole are proved as lemmas.

## Layout

- `src/text.rs` — the order on texts (by code point) and its comparison.
- `src/ident.rs` — opaque object names and the identities built on them: `ObjectName`,
  `NodeId`, `BodyName`, `SyncMark`, `Revision`.
- `src/meta.rs` — node names (`NodeName::parse` accepts only names that cannot escape
  their directory), places, metas, bodies.
- `src/sorted_map.rs` — a map ordered by the text of its keys; the table keeps its maps in
  it, so iteration order, and everything decided in that order, depends only on what the
  map holds.
- `src/table.rs` — sorts, node entries, the table and its reverse index of children.
- `src/delta.rs` — the raw delta, its events, and the first phase of unfolding:
  `metas_to_open` names the objects the packer must open, and `apply_delta` lays the delta
  onto the table in two passes (metas, then bodies), classifying each object by the sort
  the table knows. A delta that names an object twice, or in which a secret is born or
  dies without its body, is refused.
- `src/validate.rs` — the second phase: `validate` refuses a changed body link, brings
  back the parents of orphans from the metas the history held at the sync mark
  (`missing_parents` names the next ones to read, given those read so far), breaks
  cycles at their least member, moving it to a free root name, and settles duplicate places by renaming only the nodes that collided, to a
  free `~` suffix; `ValidatedState::derive_path` is the only source of full paths.
- `src/interfaces.rs` — the traits that adapters implement (history, packer, working tree,
  persistence of the table).
- `src/laws.rs` — what validation guarantees (no cycle, every parent present so every
  path reaches the root, unique places, only real losers renamed, every resolution says
  what the table holds, body links fixed at birth across both phases), that every event
  is named by a delta entry of its kind, how one moved node changes paths, that the
  sorts and nodes of a table stay in agreement through both phases, that the reverse index
  is exact, and that results depend only on what the inputs hold.
- `src/replay.rs` — applying a delta is idempotent: laid again on the table it produced,
  it is accepted and changes nothing.
- `src/conflict.rs` — parallel edits (`validate::concurrent_edits` lists what the
  transport reported): `conflict_copies` makes each losing version a copy under a new identity,
  at a free place beside its original; the copies keep the graph sound.
- `src/repository.rs` — a model of the scatter at two revisions: the raw delta between
  them laid on the table of the first gives the same table as a full pass over the second.
- `src/full_pass.rs` — laying a delta keeps a table whole (sorts and nodes agree, bodies go
  with secrets, metas read back), and a full pass, every object appearing on an empty
  table, rebuilds such a table: the state the incremental deltas reached.

Tests are in `tests/`.
