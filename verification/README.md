# rbx_session

A session keeps a tree of Roblox instances in line with a project manifest and an
in-memory file system. The library is verified with Verus.

* `walk` says which snapshots a walk through the file system and the manifest can
  give; `snapshots` takes them. `file_type`, `localization`, `model` and `text` deal
  with single files.
* `met` says which files a walk meets, and `caution` looks ahead whether a binary model is
  among them.
* `branch` says what it is for instances to be a tree, and what it is for a tree to
  change in one place. `reify` makes snapshots into instances, `pairing` and
  `reconcile` bring instances in line with a snapshot.
* `session` puts these together: which instance a change concerns, what becomes of the
  tree, and what is announced.
* `filter_plugin` keeps test and user-interface files out of a project.
* `laws` states what holds of all of this, and proves it.

Instance trees, model files, CSV, JSON and patterns come from the crates `rbx_tree`,
`rbx_binary`, `rbx_xml`, `csv`, `serde_json` and `regex`. What is believed of them stands
at the functions that call them, in `tree`, `value`, `model`, `localization` and
`filter_plugin`; `text` and `path` call the standard library in the same way. IDs of
instances are UUIDs, read as numbers.

What a session does not survive is returned as a value: `SnapshotPanic` and
`UpdatePanic`. The decoder of binary models does not return on some damaged files; the
functions that take snapshots require that the walk meets none of them. In `session` each
of these has a form without that requirement, whose name starts with `checked_`: it
refuses where a walk would meet a file that begins as a binary model.

The decoder puts siblings in no fixed order. But for that order, snapshots are determined
by the file system, the manifest and what is remembered of sync points.

A path is a list of components, by which it is compared, together with the way in which it
is written, which messages show.

`app` holds what is left: the lock, the queue, the log and the paths of the operating
system.
