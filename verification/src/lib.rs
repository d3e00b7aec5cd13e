//! Snapshot-tree management for an immutable, btrfs-based Linux system.
//!
//! The library holds the logic of the `ash` tool: the snapshot tree and its
//! on-disk format, the per-snapshot configuration file, the naming of
//! deployment subvolumes, the rewriting of boot and mount tables, the
//! package commands, what a profile asks for, and the decisions that each
//! command takes between its filesystem operations. Everything that touches
//! the filesystem, mounts, processes or the network lives in the
//! application around this crate.

pub mod text;
pub mod error;
pub mod tree;
pub mod fstree;
pub mod render;
pub mod cloning;
pub mod config;
pub mod deploy;
pub mod boot;
pub mod recovery;
pub mod chroot;
pub mod packages;
pub mod ops;
pub mod profile;
pub mod distro;
pub mod efi;
pub mod clock;
