# myfs

A small FAT-style filesystem over fixed-size blocks, written in Verus. The library formats and
mounts images, keeps the FAT in memory until it is synced, walks and grows cluster chains, and
offers directories, files, open handles and path resolution. The contracts say what the public
functions return and how the filesystem changes, over a model of the disk as a sequence of blocks
and of the FAT as a sequence of entries; Verus proves the code against them. Where a result
depends on the clock (the stamps of new or changed entries), the contracts say what holds
whatever time is read.

The contracts speak of block devices whose own contracts hold: the in-memory backend in `src/`
is verified. The file-backed device in `app/` is ordinary Rust outside Verus, so nothing proved
here covers images kept in files; the same code runs on them.

## Layout

- `src/` — the verified library.
  - `dev.rs`: physical and logical block devices, and the in-memory backend.
  - `fs.rs`, `fat.rs`, `name.rs`, `config.rs`: on-disk records (boot sector, directory slots,
    FAT entries, 8.3 names) and the formatting geometry.
  - `layout.rs`, `myfs.rs`: the model (where each cluster and FAT copy lies, what a chain is) and
    the filesystem object with its invariant.
  - `chain.rs`, `clusters.rs`: chain walking, reading and writing chain bytes, allocation.
  - `mount.rs`: formatting, mounting, and the law that a mount reads back what a sync wrote.
  - `dir.rs`, `slots.rs`, `lookup.rs`, `entries.rs`, `tree.rs`: directories and their slots.
  - `fileio.rs`, `handles.rs`: file data and open handles.
  - `nodes.rs`, `navigate.rs`, `paths.rs`, `naming.rs`, `report.rs`, `clock.rs`, `util.rs`:
    node numbers, parents, path resolution, names, FAT listings and timestamps.
- `tests/` — tests that run the compiled library.
- `app/` — the programs around it: a FUSE mount, an image formatter and an interactive shell,
  with the file-backed device they use.
