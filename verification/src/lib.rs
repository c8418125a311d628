//! Reversible filesystem operations and all-or-nothing batches of them,
//! written as state machines that never touch the filesystem themselves.
//!
//! An operation answers each call with a [`Step`]: either a request for one
//! filesystem primitive, which the caller performs and reports back, or the
//! final outcome. The caller owns the loop; this crate owns every decision.
//!
//! ```text
//! let mut tr = Transaction::new()
//!     .create_file("./foo.txt")
//!     .write_file("./foo.txt", "./tmp", b"Hello World".to_vec());
//! let mut step = tr.execute(None);
//! while let Step::Ask(request) = step {
//!     step = tr.execute(Some(perform(&request)));
//! }
//! ```
//!
//! The modules, from the ground up:
//!
//! - [`error`], [`protocol`]: errors, requests, replies and steps;
//! - [`path`], [`ident`]: path text and the names of backups;
//! - [`tree`]: the walk that copies a directory tree;
//! - [`plan`]: plans and the runs that carry them out;
//! - [`operation`] and the modules named after the kinds: single operations;
//! - [`transaction`]: ordered batches of operations;
//! - [`model`], [`trace`], [`tx_trace`]: a model of the filesystem, and runs
//!   against it;
//! - [`laws`], [`tree_laws`], [`tree_success`], [`tx_laws`], [`safety`],
//!   [`success`]: what is proved of operations and transactions.

pub mod append;
pub mod copy;
pub mod create;
pub mod delete;
pub mod error;
pub mod ident;
pub mod laws;
pub mod model;
pub mod operation;
pub mod path;
pub mod plan;
pub mod protocol;
pub mod relocate;
pub mod rollbackable;
pub mod safety;
pub mod success;
pub mod trace;
pub mod transaction;
pub mod tree;
pub mod tree_laws;
pub mod tree_success;
pub mod tx_laws;
pub mod tx_trace;
pub mod write;

pub use append::AppendFile;
pub use copy::{CopyDirectory, CopyFile};
pub use create::{CreateDirectory, CreateFile};
pub use delete::{DeleteDirectory, DeleteFile};
pub use error::{IoError, IoErrorKind};
pub use operation::{Activity, OpKind, Operation};
pub use protocol::{DirEntry, FsReply, FsRequest, Step, WriteMode};
pub use relocate::{MoveDirectory, MoveFile, MoveOperation};
pub use rollbackable::{DirectoryOperation, RollbackableOperation, SingleFileOperation};
pub use transaction::{Phase, Transaction};
pub use write::WriteFile;
