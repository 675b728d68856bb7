# agfs

agfs runs programs over a staging file system: what they write is kept in a
journal beside the files that were there before, the base, until it is
committed or discarded. This crate holds the rules of that journal, written and
proved in Verus.

## Layout

`src/` is the library. Its functions are verified, but for the few that only
call other code (see "What is trusted").

- `entry_log`, `snapshots`: the log of byte entries with offsets, and the
  snapshots in it.
- `record_log`: parsing records, checkpoints and restores, what is reachable,
  resolving records into changes, restoring, committing and reporting them.
- `replay`: records cut into segments, which of them are live, and the passes
  that compact and simplify lists of actions.
- `overlay`: the directory tree that live actions build, its listing and its
  wire format, the audit trail, restoring and committing.
- `config`, `ioctl`, `kmod`, `mounts`, `commands`: permissions and mount
  options, kernel requests, mounts, and what the commands decide.
- `mcp`, `mcp_schema`: requests and answers of the tool server.
- `diff`, `report`, `events`, `commit`: what is shown of changes, and the steps
  of a commit.
- `text`, `fields`, `pathmap`, `sift`, `dtype`, `error`: strings, byte fields,
  maps by path, and small shared types.

`tests/` runs the library on concrete values. `app/` is the command line
program around it: files, namespaces, ioctls and printing.

## Laws

Public proof functions named `law_*` state what holds of the library as a
whole. Some of them:

- a restore gives back what was live at its target
  (`overlay::journal::law_restore_gives_tree_back`);
- what the reachable segments hold is what is reachable
  (`record_log::reach::law_reachable_segments_hold_reached`);
- what the tree shows is what a commit leaves, where each action fits what
  the tree shows before it (`overlay::commit::law_commit_gives_what_is_shown`,
  `all_fit`);
- resolving and committing keep the effect of the records, where each record
  fits the state before it and renames do not get in each other's way
  (`record_log::carry::law_commit_gives_effect`, `records_fit`,
  `renames_apart`);
- compacting and simplifying keep the effect of the actions, where no pass
  takes apart what later actions build on
  (`replay::chains::law_simplify_keeps_effect`, `simplifies_safely`);
- the bytes of a tree are read back as its entries, where nothing was moved
  from the empty path and everything fits its length field
  (`overlay::reading::law_serialized_reads_back`, `sources_named`,
  `tree_fits`);
- a walk of a tree visits each staged path once
  (`overlay::naming::law_walk_visits_once`).

## What is trusted

Calls into other code stand behind small functions marked
`#[verifier::external_body]`, each with a comment that says what its contract
claims: the diff of two texts (`diff`), forms of the tool protocol
(`mcp_schema`), text from bytes (`fields`, `ioctl`) and the address of a string
(`ioctl`); `text` adds a specification for `String::push`.
