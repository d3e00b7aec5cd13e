# ash

A snapshot manager for immutable, btrfs-based Linux systems, written as a
Verus library with a thin command-line program around it.

- `src/` is the library. Every function in it carries a contract, which
  Verus proves for all but the few small functions that call an outside
  crate or std and whose contracts are taken on trust. It covers the
  snapshot tree and its one-line file format (`tree`, `fstree`, `render`,
  `cloning`), the per-snapshot configuration (`config`), the deployment
  slots and snapshot numbering (`deploy`), the boot and mount tables
  (`boot`, `chroot`), the GRUB recovery entry (`recovery`), the package
  commands (`packages`), what a profile asks for (`profile`), the checks and
  steps of every operation (`error`, `ops`), distribution detection
  (`distro`), the EFI boot order (`efi`) and the clock (`clock`). Laws that
  relate several functions are public proof functions next to them.
- `app/` is the `ash` program: argument handling, and the filesystem, mount,
  process and network work that the library's decisions call for.
- `tests/` runs the library on concrete values.
