//! A layered, case-insensitive virtual file system over data directories and archive
//! files.
//!
//! Many directories and archives hold the assets of a game, and several of them may
//! hold a file of the same name. The virtual file system decides which of them shows:
//! it binds every normalized relative path to one file, a loose file before an
//! archived one and a later layer before an earlier one within each kind.
//!
//! - [`path`]: paths as byte strings, and their normal form, the key.
//! - [`vfs_file`]: one file, loose or archived, and the readers over archived bytes.
//! - [`archives`]: the archive formats and what is assumed of their decoder.
//! - [`tes4`]: the test of the sizes in a TES4 archive file that goes before its decoding.
//! - [`files`]: the flat map from key to file.
//! - [`vfs`]: the layered file system, its queries, and its projection to a tree.
//! - [`directory_node`]: the tree of directories, sorted and filtered.
//! - [`display_tree`]: the tree as text and in the shape in which it is serialized.
//! - [`error`]: the ways in which an operation fails.
//! - [`print`]: terminal colours for messages.
//!
//! The library touches neither the file system nor the terminal. Its caller walks the
//! data directories, reads the archive files and opens the loose files; the library
//! takes paths and bytes and gives back paths, bytes and text.

pub mod archives;
pub mod directory_node;
pub mod display_tree;
pub mod error;
pub mod files;
pub mod path;
pub mod print;
pub mod tes4;
pub mod vfs;
pub mod vfs_file;
