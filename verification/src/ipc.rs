//! What the CLI and the daemon say to each other.
//!
//! On the wire every value is one line of JSON; only the shapes that both sides
//! agree on, and the rules over them, live here.

use crate::clock::Timestamp;
use crate::error::Error;
use crate::ids::ItemId;
use crate::model::ItemWithFormats;
use crate::text::{
    contains_text, is_blank, law_blank_texts, same_text, texts, trim, trimmed,
};
use vstd::prelude::*;

verus! {

// ---------------------------------------------------------------------------
// Request
// ---------------------------------------------------------------------------

/// Every command sent from the CLI to the daemon is one of these variants.
#[derive(Debug)]
pub enum Request {
    /// List items, optionally filtered/limited.
    ListItems(ListItemsParams),
    /// Retrieve one item by id.
    GetItem { id: ItemId },
    /// Add a new item from one or more (mime, bytes) pairs.
    AddItem(AddItemParams),
    /// Update (set or remove) formats on an existing item.
    UpdateItem(UpdateItemParams),
    /// Delete an item.
    DeleteItem { id: ItemId },
    /// Delete all items created before an instant.
    DeleteOlderThan { cutoff: Timestamp },
    /// Ask the daemon to become clipboard owner and serve this item.
    RestoreItem { id: ItemId },
    /// Subscribe to live change events (streaming response).
    WatchEvents(WatchEventsParams),
}

impl Request {
    /// The instant that a request holds, if it does, is one that a date can
    /// express.
    pub open spec fn wf(self) -> bool {
        self matches Request::DeleteOlderThan { cutoff } ==> cutoff.wf()
    }
}

#[derive(Debug)]
pub struct ListItemsParams {
    pub limit: Option<usize>,
    pub mime_filter: Option<String>,
}

#[derive(Debug)]
pub struct AddItemParams {
    /// `(mime, bytes)` pairs.
    pub formats: Vec<(String, Vec<u8>)>,
}

#[derive(Debug)]
pub struct UpdateItemParams {
    pub id: ItemId,
    /// Formats to set: `(mime, bytes)`.
    pub set_formats: Vec<(String, Vec<u8>)>,
    /// MIME types to remove.
    pub remove_mimes: Vec<String>,
}

#[derive(Debug)]
pub struct WatchEventsParams {
    /// If set, only surface events of this type (e.g. "item-added").
    pub event_filter: Option<String>,
    /// If not empty, only surface events for items that have any of these MIME
    /// types.
    pub mime_filters: Vec<String>,
}

// ---------------------------------------------------------------------------
// Response
// ---------------------------------------------------------------------------

/// What a response carries.
#[derive(Debug)]
pub enum Payload {
    /// The id of a new item.
    Id(ItemId),
    /// One item.
    Item(ItemWithFormats),
    /// A list of items.
    Items(Vec<ItemWithFormats>),
    /// How many items were deleted.
    Deleted(u64),
}

/// A simple success/failure envelope returned for non-streaming commands.
#[derive(Debug)]
pub struct Response {
    pub ok: bool,
    pub error: Option<String>,
    pub code: Option<String>,
    /// The payload (list, item, new id, …).
    pub data: Option<Payload>,
}

impl Response {
    /// A success that carries `data`.
    pub open spec fn is_ok(self, data: Option<Payload>) -> bool {
        &&& self.ok
        &&& self.error is None
        &&& self.code is None
        &&& self.data == data
    }

    /// A failure with this message and code.
    pub open spec fn is_err(self, message: Seq<char>, code: Seq<char>) -> bool {
        &&& !self.ok
        &&& self.error matches Some(m) && m@ == message
        &&& self.code matches Some(c) && c@ == code
        &&& self.data is None
    }

    /// The failure that an error of the library is answered with.
    pub open spec fn reports(self, e: Error) -> bool {
        self.is_err(e.shown(), e.json_name())
    }

    pub fn ok(data: Option<Payload>) -> (r: Self)
        ensures
            r.is_ok(data),
    {
        Response { ok: true, error: None, code: None, data }
    }

    pub fn err(message: String, code: &str) -> (r: Self)
        ensures
            r.is_err(message@, code@),
    {
        Response { ok: false, error: Some(message), code: Some(code.to_owned()), data: None }
    }

    /// Answer with an error of the library.
    pub fn of_error(e: &Error) -> (r: Self)
        ensures
            r.reports(*e),
    {
        Response::err(e.message(), e.json_code())
    }
}

// ---------------------------------------------------------------------------
// Watch events (streaming)
// ---------------------------------------------------------------------------

/// One event emitted by the daemon on the watch stream.
#[derive(Debug)]
pub enum WatchEvent {
    /// A new item was captured or added.
    ItemAdded {
        id: ItemId,
        created_at: Timestamp,
        /// MIME types present on the item at creation time.
        formats: Vec<String>,
    },
    /// An existing item's formats were changed (set or removed).
    ItemUpdated {
        id: ItemId,
        /// MIME types that changed (added/replaced/removed).
        changed: Vec<String>,
    },
    /// An item was deleted.
    ItemDeleted { id: ItemId },
}

/// The tag under which an event is written.
pub open spec fn tag_of(ev: WatchEvent) -> Seq<char> {
    match ev {
        WatchEvent::ItemAdded { .. } => "item-added"@,
        WatchEvent::ItemUpdated { .. } => "item-updated"@,
        WatchEvent::ItemDeleted { .. } => "item-deleted"@,
    }
}

/// Return the kebab-case tag for a `WatchEvent`.
pub fn event_tag(ev: &WatchEvent) -> (r: &'static str)
    ensures
        r@ == tag_of(*ev),
{
    match ev {
        WatchEvent::ItemAdded { .. } => "item-added",
        WatchEvent::ItemUpdated { .. } => "item-updated",
        WatchEvent::ItemDeleted { .. } => "item-deleted",
    }
}

/// The event carries the MIME type; a deletion carries every one.
pub open spec fn carries_mime(ev: WatchEvent, mime: Seq<char>) -> bool {
    match ev {
        WatchEvent::ItemAdded { formats, .. } => texts(formats@).contains(mime),
        WatchEvent::ItemUpdated { changed, .. } => texts(changed@).contains(mime),
        WatchEvent::ItemDeleted { .. } => true,
    }
}

/// Returns true if the event passes a MIME filter.
///
/// - `ItemAdded`: pass if the `formats` list contains `mime`.
/// - `ItemUpdated`: pass if the `changed` list contains `mime`.
/// - `ItemDeleted`: always pass (no format information available post-delete).
pub fn event_matches_mime(ev: &WatchEvent, mime: &str) -> (r: bool)
    ensures
        r == carries_mime(*ev, mime@),
{
    match ev {
        WatchEvent::ItemAdded { formats, .. } => contains_text(formats.as_slice(), mime),
        WatchEvent::ItemUpdated { changed, .. } => contains_text(changed.as_slice(), mime),
        WatchEvent::ItemDeleted { .. } => true,
    }
}

/// A watcher with these parameters sees the event: its tag is the one asked
/// for, if one is, and it carries any of the MIME types asked for, if there are
/// any.
pub open spec fn is_watched(params: WatchEventsParams, ev: WatchEvent) -> bool {
    &&& params.event_filter matches Some(tag) ==> tag@ == tag_of(ev)
    &&& params.mime_filters@.len() == 0 || exists|i: int|
        0 <= i < params.mime_filters@.len() && carries_mime(
            ev,
            (#[trigger] params.mime_filters@[i])@,
        )
}

/// Whether a watcher with these parameters sees the event.
pub fn event_passes(params: &WatchEventsParams, ev: &WatchEvent) -> (r: bool)
    ensures
        r == is_watched(*params, *ev),
{
    match &params.event_filter {
        Some(tag) => {
            if !same_text(event_tag(ev), tag.as_str()) {
                return false;
            }
        },
        None => {},
    }
    if params.mime_filters.len() == 0 {
        return true;
    }
    let mut i: usize = 0;
    while i < params.mime_filters.len()
        invariant
            i <= params.mime_filters@.len(),
            params.event_filter matches Some(tag) ==> tag@ == tag_of(*ev),
            forall|j: int|
                0 <= j < i ==> !carries_mime(*ev, (#[trigger] params.mime_filters@[j])@),
        decreases params.mime_filters@.len() - i,
    {
        if event_matches_mime(ev, params.mime_filters[i].as_str()) {
            return true;
        }
        i += 1;
    }
    false
}

// ---------------------------------------------------------------------------
// Lines of a stream
// ---------------------------------------------------------------------------

/// What reading a line of a stream gave.
#[derive(Debug)]
pub enum LineRead {
    /// A line.
    Line(String),
    /// The end of the stream.
    Ended,
    /// A failure.
    Failed,
}

/// What is done about a line of a stream.
#[derive(Debug)]
pub enum LineStep {
    /// Parse this text; where it is no event, read on.
    Parse(String),
    /// Read on.
    Skip,
    /// Stop reading.
    Stop,
}

/// Decide about a line of a stream: blank lines are passed over, others are
/// parsed without the blanks around them, and the stream stops at its end or at
/// a failure.
pub fn take_line(read: LineRead) -> (r: LineStep)
    ensures
        match read {
            LineRead::Line(line) => if trimmed(line@).len() == 0 {
                r is Skip
            } else {
                r matches LineStep::Parse(text) && text@ == trimmed(line@)
            },
            LineRead::Ended => r is Stop,
            LineRead::Failed => r is Stop,
        },
        r is Skip <==> (read matches LineRead::Line(line) && is_blank(line@)),
{
    match read {
        LineRead::Line(line) => {
            proof {
                law_blank_texts(line@);
            }
            let text = trim(line.as_str());
            if text.is_empty() {
                LineStep::Skip
            } else {
                LineStep::Parse(text.to_owned())
            }
        },
        LineRead::Ended => LineStep::Stop,
        LineRead::Failed => LineStep::Stop,
    }
}

// ---------------------------------------------------------------------------
// What holds of watching
// ---------------------------------------------------------------------------

/// A watcher that asks for nothing in particular sees every event.
pub proof fn law_unfiltered_watch_sees_all(params: WatchEventsParams, ev: WatchEvent)
    requires
        params.event_filter is None,
        params.mime_filters@.len() == 0,
    ensures
        is_watched(params, ev),
{
}

/// A deletion passes every MIME filter, unless another kind of event is asked
/// for.
pub proof fn law_deletions_pass_mime_filters(params: WatchEventsParams, id: ItemId)
    requires
        params.event_filter matches Some(tag) ==> tag@ == "item-deleted"@,
    ensures
        is_watched(params, (WatchEvent::ItemDeleted { id })),
{
    if params.mime_filters@.len() > 0 {
        assert(carries_mime(WatchEvent::ItemDeleted { id }, params.mime_filters@[0]@));
    }
}

/// One more MIME filter beside others only lets more events through.
pub proof fn law_mime_filters_are_alternatives(
    fewer: WatchEventsParams,
    more: WatchEventsParams,
    ev: WatchEvent,
)
    requires
        fewer.event_filter == more.event_filter,
        fewer.mime_filters@.len() > 0,
        forall|i: int|
            0 <= i < fewer.mime_filters@.len() ==> more.mime_filters@.contains(
                #[trigger] fewer.mime_filters@[i],
            ),
        is_watched(fewer, ev),
    ensures
        is_watched(more, ev),
{
    let i = choose|i: int|
        0 <= i < fewer.mime_filters@.len() && carries_mime(
            ev,
            (#[trigger] fewer.mime_filters@[i])@,
        );
    assert(more.mime_filters@.contains(fewer.mime_filters@[i]));
    let j = choose|j: int|
        0 <= j < more.mime_filters@.len() && more.mime_filters@[j] == fewer.mime_filters@[i];
    assert(carries_mime(ev, more.mime_filters@[j]@));
}

/// A watcher sees an addition exactly where it does not ask for another kind of
/// event, and where one of the item's types is one of those that it asks for, if
/// it asks for any.
pub proof fn law_additions_are_watched(
    params: WatchEventsParams,
    id: ItemId,
    created_at: Timestamp,
    formats: Vec<String>,
)
    ensures
        is_watched(params, (WatchEvent::ItemAdded { id, created_at, formats })) <==> {
            &&& params.event_filter is None || params.event_filter->0@ == "item-added"@
            &&& params.mime_filters@.len() == 0 || exists|i: int, j: int|
                0 <= i < formats@.len() && 0 <= j < params.mime_filters@.len() && (
                #[trigger] formats@[i])@ == (#[trigger] params.mime_filters@[j])@
        },
{
    lemma_filters(params, formats@, WatchEvent::ItemAdded { id, created_at, formats });
}

/// A watcher sees an update exactly where it does not ask for another kind of
/// event, and where one of the types that changed is one of those that it asks
/// for, if it asks for any.
pub proof fn law_updates_are_watched(params: WatchEventsParams, id: ItemId, changed: Vec<String>)
    ensures
        is_watched(params, (WatchEvent::ItemUpdated { id, changed })) <==> {
            &&& params.event_filter is None || params.event_filter->0@ == "item-updated"@
            &&& params.mime_filters@.len() == 0 || exists|i: int, j: int|
                0 <= i < changed@.len() && 0 <= j < params.mime_filters@.len() && (
                #[trigger] changed@[i])@ == (#[trigger] params.mime_filters@[j])@
        },
{
    lemma_filters(params, changed@, WatchEvent::ItemUpdated { id, changed });
}

/// A watcher that asks for another kind of event sees no deletion.
pub proof fn law_deletions_are_watched(params: WatchEventsParams, id: ItemId)
    ensures
        is_watched(params, (WatchEvent::ItemDeleted { id })) <==> params.event_filter is None
            || params.event_filter->0@ == "item-deleted"@,
{
    if params.event_filter is None || params.event_filter->0@ == "item-deleted"@ {
        law_deletions_pass_mime_filters(params, id);
    }
}

proof fn lemma_filters(params: WatchEventsParams, list: Seq<String>, ev: WatchEvent)
    requires
        forall|mime: Seq<char>| #[trigger] carries_mime(ev, mime) <==> texts(list).contains(mime),
    ensures
        (exists|j: int|
            0 <= j < params.mime_filters@.len() && carries_mime(
                ev,
                (#[trigger] params.mime_filters@[j])@,
            )) <==> exists|i: int, j: int|
            0 <= i < list.len() && 0 <= j < params.mime_filters@.len() && (#[trigger] list[i])@ == (
            #[trigger] params.mime_filters@[j])@,
{
    if exists|j: int|
        0 <= j < params.mime_filters@.len() && carries_mime(
            ev,
            (#[trigger] params.mime_filters@[j])@,
        ) {
        let j = choose|j: int|
            0 <= j < params.mime_filters@.len() && carries_mime(
                ev,
                (#[trigger] params.mime_filters@[j])@,
            );
        let mime = params.mime_filters@[j]@;
        let i = choose|i: int| 0 <= i < texts(list).len() && texts(list)[i] == mime;
        assert(list[i]@ == params.mime_filters@[j]@);
    }
    if exists|i: int, j: int|
        0 <= i < list.len() && 0 <= j < params.mime_filters@.len() && (#[trigger] list[i])@ == (
        #[trigger] params.mime_filters@[j])@ {
        let (i, j) = choose|i: int, j: int|
            0 <= i < list.len() && 0 <= j < params.mime_filters@.len() && (#[trigger] list[i])@ == (
            #[trigger] params.mime_filters@[j])@;
        assert(texts(list)[i] == params.mime_filters@[j]@);
        assert(carries_mime(ev, params.mime_filters@[j]@));
    }
}

/// A failure that an error is answered with tells its message and its code, and
/// carries nothing; only what was not found is answered with `not_found`.
pub proof fn law_failures_tell_their_error(e: Error, resp: Response)
    requires
        resp.reports(e),
    ensures
        !resp.ok,
        resp.data is None,
        resp.error matches Some(text) && text@ == e.shown(),
        resp.code matches Some(code) && (code@ == "not_found"@ <==> e is NotFound),
{
    reveal_strlit("not_found");
    reveal_strlit("error");
    assert("not_found"@.len() != "error"@.len());
}

} // verus!
