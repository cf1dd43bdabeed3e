//! Items and their formats, as queries return them.

use crate::clock::Timestamp;
use crate::ids::ItemId;
use vstd::prelude::*;

verus! {

/// A clipboard history item. Pure identity and lifecycle — all content lives
/// in [`Format`] rows.
#[derive(Debug, Clone, Copy, PartialEq, Eq, Structural)]
pub struct Item {
    pub id: ItemId,
    pub created_at: Timestamp,
    pub updated_at: Timestamp,
}

/// One MIME representation within a clipboard item. Points to a
/// content-addressed blob via `blob_hash`.
#[derive(Debug, Clone)]
pub struct Format {
    pub item_id: ItemId,
    pub mime: String,
    pub blob_hash: String,
    pub size: u64,
    pub captured_at: Timestamp,
}

/// What a [`Format`] holds.
pub struct FormatView {
    pub item_id: ItemId,
    pub mime: Seq<char>,
    pub blob_hash: Seq<char>,
    pub size: u64,
    pub captured_at: Timestamp,
}

impl View for Format {
    type V = FormatView;

    open spec fn view(&self) -> FormatView {
        FormatView {
            item_id: self.item_id,
            mime: self.mime@,
            blob_hash: self.blob_hash@,
            size: self.size,
            captured_at: self.captured_at,
        }
    }
}

/// An [`Item`] together with all of its [`Format`] rows, as returned by
/// queries.
#[derive(Debug, Clone)]
pub struct ItemWithFormats {
    pub item: Item,
    pub formats: Vec<Format>,
}

} // verus!
