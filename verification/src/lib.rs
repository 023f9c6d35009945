//! A minimal content-addressed version-control engine.
//!
//! Snapshots of files and their history are kept as hashed, compressed
//! objects: blobs hold file contents, trees list the blobs of a snapshot, and
//! commits name a tree and their parents. The engine works on values in
//! memory, a [`repo::Repository`] and a working directory; reading them from
//! disk and writing them back is the caller's business.
//!
//! - [`text`]: byte strings, their lines and words.
//! - [`table`]: maps and sets of byte strings.
//! - [`codec`]: the stored form of an object, its hash and its compression.
//! - [`store`]: the object store.
//! - [`index`]: the staged files.
//! - [`layout`]: the files that a repository is kept as.
//! - [`format`]: the text of trees and commits; [`readback`] shows that what
//!   is written is read back.
//! - [`snapshot`]: the tree of an index and the commit of a tree.
//! - [`refs`]: references and `HEAD`.
//! - [`repo`]: the repository, its creation and the commit of its index.
//! - [`walk`]: what a commit reaches, and what a store lacks of it.
//! - [`checkout`]: restoring the working directory.
//! - [`history`]: the log of a commit.
//! - [`sync`]: push and fetch between two repositories.
//!
//! Everything is verified but three calls, which are trusted: the SHA-1
//! digest of the `sha1` crate and the zlib encoder and decoder of `flate2`,
//! all in [`codec`].

pub mod checkout;
pub mod codec;
pub mod error;
pub mod format;
pub mod history;
pub mod index;
pub mod layout;
pub mod readback;
pub mod refs;
pub mod repo;
pub mod snapshot;
pub mod store;
pub mod sync;
pub mod table;
pub mod text;
pub mod walk;
