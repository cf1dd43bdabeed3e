//! The seam to a clipboard backend: what a capture delivers, and what a restore
//! serves.

use crate::model::ItemWithFormats;
use vstd::prelude::*;

verus! {

/// One captured MIME representation of a clipboard item.
#[derive(Debug)]
pub struct CapturedFormat {
    pub mime: String,
    pub bytes: Vec<u8>,
}

/// A captured clipboard selection: all accepted formats grouped together.
#[derive(Debug)]
pub struct CapturedItem {
    pub formats: Vec<CapturedFormat>,
}

/// MIME types and contents of captured formats, in order.
pub open spec fn captured(list: Seq<CapturedFormat>) -> Seq<(Seq<char>, Seq<u8>)> {
    list.map_values(|f: CapturedFormat| (f.mime@, f.bytes@))
}

/// Sink the capture loop pushes completed items into. They wait in it, in the
/// order in which they came, until they are taken.
#[derive(Debug)]
pub struct CaptureSink {
    items: Vec<CapturedItem>,
}

impl View for CaptureSink {
    type V = Seq<CapturedItem>;

    closed spec fn view(&self) -> Seq<CapturedItem> {
        self.items@
    }
}

impl CaptureSink {
    /// Create a sink that holds nothing.
    pub fn new() -> (r: Self)
        ensures
            r@ == Seq::<CapturedItem>::empty(),
    {
        CaptureSink { items: Vec::new() }
    }

    /// Deliver a captured item.
    pub fn push(&mut self, item: CapturedItem)
        ensures
            final(self)@ == old(self)@.push(item),
    {
        self.items.push(item);
    }

    /// Hand out what was delivered since the last call, the first item first.
    pub fn take(&mut self) -> (r: Vec<CapturedItem>)
        ensures
            r@ == old(self)@,
            final(self)@ == Seq::<CapturedItem>::empty(),
    {
        let mut items: Vec<CapturedItem> = Vec::new();
        std::mem::swap(&mut items, &mut self.items);
        items
    }
}

/// The data needed by the backend to restore (re-advertise) an item to the
/// compositor.
#[derive(Debug)]
pub struct RestorableItem {
    /// The item and formats to advertise.
    pub inner: ItemWithFormats,
    /// Raw bytes for each format, indexed parallel to `inner.formats`.
    pub blobs: Vec<Vec<u8>>,
}

} // verus!
