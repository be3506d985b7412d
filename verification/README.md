# fs_btrfs

A Btrfs driver whose logic is verified with Verus: what the bytes on disk mean,
how a file is reached through them, and what has to be written, in which order,
to change them.

## Layout

- `src/`: the verified library. It touches no device. Mounting takes a function
  that reads a device, and whatever would be written is returned as a list of
  actions (writes and flushes) to be performed in order.
- `app/`: ordinary Rust around it. `device` opens block devices of `fs_core`
  and performs the actions, `capi` is the C ABI (`fs_btrfs_*`), `tools` holds
  diagnostic commands.
- `tests/`: the library's tests, among them a whole volume in memory that is
  mounted, read, written and committed to (`tests/filesystem.rs`).

## What the contracts say

Contracts speak of the *image*: the bytes a faithful device holds. A parser's
result, including which error it gives and how the error reads, is a function
of the bytes it was given. An operation on a mounted filesystem gives what a
specification function computes from the image, the superblock and the address
map. With a device that does not answer faithfully no operation panics, the
tree items that come out lie in blocks that were verified (`btree`), and data
that the checksum tree names was compared before it was handed out
(`fs::sums`).

What relates several operations is stated as a proof function whose name begins
with `law_`. Among them:

- reading: a search and a walk find the same items (`btree::laws`), a part of a
  file is cut out of the whole, holes read as zeros (`fs::laws`), data that the
  checksum tree names is held to its digests (`fs::sums`), a lookup agrees with
  the listing (`fs::namespace`)
- addresses: a mapping is contiguous and injective, mirrors are distinct
  (`chunk::laws`), the order chunks arrive in does not matter, an array of
  chunks cut inside an entry is refused (`chunk::map_laws`)
- space: a group is divided into what is taken and what is free, a new block
  lies on free space (`block_group::laws`)
- leaves: an item goes in with a split whenever some boundary leaves two leaves
  that fit in a block (`leaf_edit`)
- writing in place: what is written into a file is what a read then gives
  (`write::laws`)
- transactions: a plan is complete and rewrites its own records
  (`transaction::laws`) and moves trees as a whole (`transaction::whole_laws`),
  a moved tree holds what it held and is found where it went
  (`transaction::relocation`), the extent tree loses the record of what is
  released and gains that of what is taken (`transaction::record_laws`), the
  free-space tree says of each group what the plan leaves free there
  (`transaction::space_laws`), blocks land before superblocks and an unfinished
  commit changes nothing that was there (`commit`)

## What is taken on trust

The hash functions (`hashes`), the decoders (`compression`) and two text
conversions of the standard library (`strings`) are called, not verified. Each
stands behind one small function whose contract says what is believed of it,
and whose precondition leaves out what it would panic on (`zstd` bounds what a
frame can grow to before it is decoded).
