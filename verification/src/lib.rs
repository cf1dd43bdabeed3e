//! richclip — clipboard history manager (library core).
//!
//! The unit of history is a grouped item: one stable id that holds every MIME
//! representation of a selection.
//!
//! - [`store`] — [`Store`]: items, formats and content-addressed blobs.
//! - [`daemon`] — how requests are answered and captures are taken in.
//! - [`capture`], [`filter`] — what is captured of a selection.
//! - [`restore`] — what is advertised and served again.
//! - [`cli`] — how commands are read and what they print.
//! - [`labeld`] — the image labeller.
//! - [`thumbnail`] — previews of image items.
//! - [`model`], [`ipc`], [`error`], [`paths`], [`ids`], [`clock`], [`text`] —
//!   what they share.

pub mod backend;
pub mod capture;
pub mod cli;
pub mod clock;
pub mod daemon;
pub mod error;
pub mod filter;
pub mod ids;
pub mod ipc;
pub mod labeld;
pub mod model;
pub mod paths;
pub mod restore;
pub mod store;
pub mod text;
pub mod thumbnail;

// Convenience re-exports so callers don't have to spell out sub-modules.
pub use error::{Error, Result};
pub use model::{Format, Item, ItemWithFormats};
pub use store::blob_hash;
pub use store::Store;
