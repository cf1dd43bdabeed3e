//! The daemon: how requests are answered, what is told to watchers, and what
//! becomes of a captured selection.

use crate::backend::{captured, CapturedFormat, CapturedItem};
use crate::capture::{echo, echo_of};
use crate::clock::{lemma_ms_fits, Timestamp, MIN_NANOS};
use crate::error::{Error, Result};
use crate::filter::{default_mimes, CaptureConfig};
use crate::ids::{hyphenated_text, is_v7, ItemId};
use crate::ipc::{
    event_passes, is_watched, AddItemParams, ListItemsParams, Payload, Request, Response,
    UpdateItemParams, WatchEvent, WatchEventsParams,
};
use crate::model::ItemWithFormats;
use crate::restore::{
    advertised, is_restorable, lacks_blob, law_everything_else_is_restored,
    law_generated_data_is_never_restored, law_only_lost_originals_prevent_a_restore, mimes_of,
    restorable_formats, served,
};
use crate::store::blob::{blake3_hex, blob_hash, blobs_replayed, BlobChange};
use crate::store::db::{
    format_views, ids_of, is_list_result, is_old, is_old_listing, lemma_nothing_old, limit_of,
    Change,
};
use crate::store::laws::{
    hash_is_free, is_last, is_sound, law_added_is_read_back, law_added_is_sound,
    law_item_deleted_is_sound, law_listing, law_older_deleted_is_sound, law_only_older_items_go,
    law_updated_is_sound, lemma_added_item_row, lemma_written_is_sound,
};
use crate::store::{inputs, is_item_result, with_blobs, Store, StoreState};
use crate::text::{
    clone_bytes, clone_texts, decimal, decimal_text, join3, parse_u64, parsed_u64, same_text, texts,
};
use vstd::prelude::*;

verus! {

/// Default retention window in days. Items older than this are pruned.
pub const DEFAULT_RETENTION_DAYS: u64 = 30;

/// Broadcast channel capacity for watch events.
pub const WATCH_CHANNEL_CAPACITY: usize = 256;

/// How long to wait between retention prune passes, in seconds.
pub const PRUNE_INTERVAL_SECS: u64 = 3600;

// ---------------------------------------------------------------------------
// Fingerprints
// ---------------------------------------------------------------------------

/// What formats are told apart by: their MIME types and the hashes of their
/// contents.
pub open spec fn fingerprint_of(list: Seq<(Seq<char>, Seq<u8>)>) -> Set<(Seq<char>, Seq<char>)> {
    Set::new(
        |p: (Seq<char>, Seq<char>)|
            exists|i: int|
                0 <= i < list.len() && (#[trigger] list[i]).0 == p.0 && blake3_hex(list[i].1)
                    == p.1,
    )
}

/// The pairs of a list.
pub open spec fn pairs_of(list: Seq<(String, String)>) -> Set<(Seq<char>, Seq<char>)> {
    Set::new(
        |p: (Seq<char>, Seq<char>)|
            exists|i: int|
                0 <= i < list.len() && (#[trigger] list[i]).0@ == p.0 && list[i].1@ == p.1,
    )
}

/// The MIME types of formats with the hashes of their contents.
pub fn fingerprint(formats: &Vec<(String, Vec<u8>)>) -> (r: Vec<(String, String)>)
    ensures
        pairs_of(r@) == fingerprint_of(inputs(formats@)),
{
    let ghost list = inputs(formats@);
    let mut out: Vec<(String, String)> = Vec::new();
    let mut i: usize = 0;
    while i < formats.len()
        invariant
            i <= formats@.len(),
            list == inputs(formats@),
            out@.len() == i,
            forall|j: int|
                0 <= j < i ==> (#[trigger] out@[j]).0@ == list[j].0 && out@[j].1@ == blake3_hex(
                    list[j].1,
                ),
        decreases formats@.len() - i,
    {
        out.push((formats[i].0.clone(), blob_hash(formats[i].1.as_slice())));
        i += 1;
    }
    proof {
        assert forall|p: (Seq<char>, Seq<char>)| #[trigger]
            pairs_of(out@).contains(p) <==> fingerprint_of(list).contains(p) by {
            if pairs_of(out@).contains(p) {
                let j = choose|j: int|
                    0 <= j < out@.len() && (#[trigger] out@[j]).0@ == p.0 && out@[j].1@ == p.1;
                assert(list[j].0 == p.0);
            }
            if fingerprint_of(list).contains(p) {
                let j = choose|j: int|
                    0 <= j < list.len() && (#[trigger] list[j]).0 == p.0 && blake3_hex(list[j].1)
                        == p.1;
                assert(out@[j].0@ == p.0);
            }
        }
        assert(pairs_of(out@) =~= fingerprint_of(list));
    }
    out
}

fn has_pair(list: &Vec<(String, String)>, a: &str, b: &str) -> (r: bool)
    ensures
        r == pairs_of(list@).contains((a@, b@)),
{
    let mut i: usize = 0;
    while i < list.len()
        invariant
            i <= list@.len(),
            forall|j: int|
                0 <= j < i ==> !((#[trigger] list@[j]).0@ == a@ && list@[j].1@ == b@),
        decreases list@.len() - i,
    {
        if same_text(list[i].0.as_str(), a) && same_text(list[i].1.as_str(), b) {
            assert(list@[i as int].0@ == a@);
            return true;
        }
        i += 1;
    }
    false
}

fn holds_all(a: &Vec<(String, String)>, b: &Vec<(String, String)>) -> (r: bool)
    ensures
        r == pairs_of(b@).subset_of(pairs_of(a@)),
{
    let mut i: usize = 0;
    while i < b.len()
        invariant
            i <= b@.len(),
            forall|j: int|
                0 <= j < i ==> pairs_of(a@).contains(((#[trigger] b@[j]).0@, b@[j].1@)),
        decreases b@.len() - i,
    {
        if !has_pair(a, b[i].0.as_str(), b[i].1.as_str()) {
            proof {
                let p = (b@[i as int].0@, b@[i as int].1@);
                assert(b@[i as int].0@ == p.0);
                assert(pairs_of(b@).contains(p));
            }
            return false;
        }
        i += 1;
    }
    true
}

/// Whether two lists hold the same pairs.
pub fn same_pairs(a: &Vec<(String, String)>, b: &Vec<(String, String)>) -> (r: bool)
    ensures
        r == (pairs_of(a@) == pairs_of(b@)),
{
    let r = holds_all(a, b) && holds_all(b, a);
    proof {
        if r {
            assert(pairs_of(a@) =~= pairs_of(b@));
        }
    }
    r
}

// ---------------------------------------------------------------------------
// Shared daemon state
// ---------------------------------------------------------------------------

/// The daemon's state: the store, what is captured, and the restored selection
/// that it owns.
pub struct DaemonState {
    store: Store,
    config: CaptureConfig,
    turn: u64,
    suppression: Option<Vec<(String, String)>>,
}

/// What the daemon's state stands for.
pub struct DaemonView {
    pub store: StoreState,
    /// What is captured of a selection.
    pub config: CaptureConfig,
    /// The number of the last restore.
    pub turn: u64,
    /// While the daemon owns a restored selection: the fingerprint of what a
    /// capture keeps of it.
    pub restored: Option<Set<(Seq<char>, Seq<char>)>>,
}

impl DaemonView {
    /// After the selection of the restore with this number is no longer owned.
    pub open spec fn released(self, turn: u64) -> DaemonView {
        DaemonView {
            restored: if turn == self.turn {
                None
            } else {
                self.restored
            },
            ..self
        }
    }
}

/// The number of the next restore.
pub open spec fn next_turn(turn: u64) -> u64 {
    if turn == u64::MAX {
        0
    } else {
        (turn + 1) as u64
    }
}

/// Only the store may differ.
pub open spec fn same_but_store(a: DaemonView, b: DaemonView) -> bool {
    a.config == b.config && a.turn == b.turn && a.restored == b.restored
}

impl View for DaemonState {
    type V = DaemonView;

    closed spec fn view(&self) -> DaemonView {
        DaemonView {
            store: self.store@,
            config: self.config,
            turn: self.turn,
            restored: match self.suppression {
                Some(list) => Some(pairs_of(list@)),
                None => None,
            },
        }
    }
}

/// What a request is answered with, and what else comes of it.
#[derive(Debug)]
pub struct Reply {
    pub response: Response,
    /// What watchers are told, the first event first.
    pub events: Vec<WatchEvent>,
    /// The formats to serve as the new owner of the clipboard.
    pub restore: Option<Vec<(String, Vec<u8>)>>,
}

/// What becomes of a request.
#[derive(Debug)]
pub enum Outcome {
    /// It is answered.
    Reply(Reply),
    /// It becomes a stream of events.
    Watch(WatchEventsParams),
}

/// What becomes of a captured selection.
#[derive(Debug)]
pub enum CaptureOutcome {
    /// It is the echo of a restore and is dropped.
    Suppressed,
    /// It is stored as a new item, and watchers are told.
    Stored { id: ItemId, event: WatchEvent },
    /// It could not be stored.
    Failed(Error),
}

/// The store went from `before` to `after` by adding the item `id`, and the
/// event tells of it: the item, the instant stored for it, and its MIME types.
pub open spec fn is_addition(
    before: StoreState,
    after: StoreState,
    formats: Seq<(Seq<char>, Seq<u8>)>,
    id: ItemId,
    event: WatchEvent,
) -> bool {
    &&& is_v7(id)
    &&& !before.db.items.contains_key(hyphenated_text(id.bits))
    &&& exists|now: Timestamp| #[trigger]
        now.wf() && after == before.added(id, now, formats) && tells_of_addition(
            event,
            id,
            Timestamp::of_ms(now.ms()),
            mimes_of(formats),
        )
}

/// The event tells of a new item.
pub open spec fn tells_of_addition(
    event: WatchEvent,
    id: ItemId,
    created_at: Timestamp,
    mimes: Seq<Seq<char>>,
) -> bool {
    event matches WatchEvent::ItemAdded { id: i, created_at: c, formats: f } && i == id && c
        == created_at && texts(f@) == mimes
}

/// A new item could not be added: its identity is taken. The tables are as they
/// were, and its contents are left as blobs.
pub open spec fn is_failed_addition(
    before: StoreState,
    after: StoreState,
    formats: Seq<(Seq<char>, Seq<u8>)>,
    e: Error,
) -> bool {
    &&& e.is_database("UNIQUE constraint failed: items.id"@)
    &&& exists|id: ItemId| #[trigger]
        is_v7(id) && before.db.items.contains_key(hyphenated_text(id.bits))
    &&& after.db == before.db
    &&& after.blobs == with_blobs(before.blobs, formats)
}

/// The outcome of adding an item.
pub open spec fn is_add_result(
    before: StoreState,
    after: StoreState,
    formats: Seq<(Seq<char>, Seq<u8>)>,
    r: Result<(ItemId, WatchEvent)>,
) -> bool {
    match r {
        Ok(added) => is_addition(before, after, formats, added.0, added.1),
        Err(e) => is_failed_addition(before, after, formats, e),
    }
}

/// The one event tells of these changes to an item; there is none where nothing
/// changed.
pub open spec fn tells_of_update(
    events: Seq<WatchEvent>,
    id: ItemId,
    changed: Seq<Seq<char>>,
) -> bool {
    if changed.len() == 0 {
        events.len() == 0
    } else {
        &&& events.len() == 1
        &&& events[0] matches WatchEvent::ItemUpdated { id: i, changed: c } && i == id && texts(c@)
            == changed
    }
}

/// The events that tell of deletions, in order.
pub open spec fn deletions(ids: Seq<ItemId>) -> Seq<WatchEvent> {
    ids.map_values(|id: ItemId| WatchEvent::ItemDeleted { id })
}

/// The store went from `before` to `after` by deleting the items created before
/// the cutoff, and the events tell of each of them, in the order of their texts.
pub open spec fn is_bulk_deletion(
    before: StoreState,
    after: StoreState,
    cutoff: Timestamp,
    events: Seq<WatchEvent>,
) -> bool {
    &&& after == before.older_deleted(cutoff.ms() as i64)
    &&& exists|ids: Seq<Seq<char>>| #[trigger]
        is_old_listing(before.db, cutoff.ms() as i64, ids) && events == deletions(ids_of(ids))
    &&& forall|u: u128|
        is_old(before.db.items, #[trigger] hyphenated_text(u), cutoff.ms() as i64)
            ==> events.contains(WatchEvent::ItemDeleted { id: ItemId { bits: u } })
}

/// The store went from `before` to `after` by deleting the items created more
/// than `days` before `now`, and the events tell of each of them.
pub open spec fn is_pruning(
    before: StoreState,
    after: StoreState,
    now: Timestamp,
    days: u64,
    events: Seq<WatchEvent>,
) -> bool {
    is_bulk_deletion(before, after, now.less(days * 86_400_000_000_000), events)
}

/// How an addition is answered.
pub open spec fn answers_add(
    before: DaemonView,
    after: DaemonView,
    formats: Seq<(Seq<char>, Seq<u8>)>,
    reply: Reply,
) -> bool {
    &&& same_but_store(after, before)
    &&& reply.restore is None
    &&& if reply.events@.len() > 0 {
        &&& reply.events@.len() == 1
        &&& exists|id: ItemId|
            reply.response.is_ok(Some(Payload::Id(id))) && #[trigger] is_addition(
                before.store,
                after.store,
                formats,
                id,
                reply.events@[0],
            )
    } else {
        exists|e: Error|
            reply.response.reports(e) && #[trigger] is_failed_addition(
                before.store,
                after.store,
                formats,
                e,
            )
    }
}

/// How an update is answered.
pub open spec fn answers_update(
    before: DaemonView,
    after: DaemonView,
    id: ItemId,
    removes: Seq<Seq<char>>,
    sets: Seq<(Seq<char>, Seq<u8>)>,
    reply: Reply,
) -> bool {
    &&& same_but_store(after, before)
    &&& reply.restore is None
    &&& if before.store.can_update(id, removes, sets) {
        &&& reply.response.is_ok(None)
        &&& tells_of_update(reply.events@, id, removes + mimes_of(sets))
        &&& exists|now: Timestamp| #[trigger]
            now.wf() && after.store == before.store.updated(id, now, removes, sets)
    } else {
        &&& reply.response.reports(Error::NotFound)
        &&& reply.events@.len() == 0
        &&& after.store == before.store
    }
}

/// How a deletion is answered.
pub open spec fn answers_delete(
    before: DaemonView,
    after: DaemonView,
    id: ItemId,
    reply: Reply,
) -> bool {
    &&& same_but_store(after, before)
    &&& reply.restore is None
    &&& if before.store.db.items.contains_key(hyphenated_text(id.bits)) {
        &&& reply.response.is_ok(None)
        &&& reply.events@ == seq![WatchEvent::ItemDeleted { id }]
        &&& after.store == before.store.item_deleted(id)
    } else {
        &&& reply.response.reports(Error::NotFound)
        &&& reply.events@.len() == 0
        &&& after.store == before.store
    }
}

/// How a bulk deletion is answered.
pub open spec fn answers_delete_older(
    before: DaemonView,
    after: DaemonView,
    cutoff: Timestamp,
    reply: Reply,
) -> bool {
    &&& same_but_store(after, before)
    &&& reply.restore is None
    &&& reply.response.is_ok(Some(Payload::Deleted(reply.events@.len() as u64)))
    &&& is_bulk_deletion(before.store, after.store, cutoff, reply.events@)
}

/// How a listing is answered.
pub open spec fn answers_list(
    before: DaemonView,
    after: DaemonView,
    limit: Option<nat>,
    mime: Option<Seq<char>>,
    reply: Reply,
) -> bool {
    &&& after == before
    &&& reply.events@.len() == 0
    &&& reply.restore is None
    &&& exists|r: Result<Vec<ItemWithFormats>>| #[trigger]
        is_list_result(before.store.db, limit, mime, r) && match r {
            Ok(list) => reply.response.is_ok(Some(Payload::Items(list))),
            Err(e) => reply.response.reports(e),
        }
}

/// How a request for one item is answered.
pub open spec fn answers_get(
    before: DaemonView,
    after: DaemonView,
    id: ItemId,
    reply: Reply,
) -> bool {
    &&& after == before
    &&& reply.events@.len() == 0
    &&& reply.restore is None
    &&& exists|r: Result<ItemWithFormats>| #[trigger]
        is_item_result(before.store.db, id, r) && match r {
            Ok(entry) => reply.response.is_ok(Some(Payload::Item(entry))),
            Err(e) => reply.response.reports(e),
        }
}

/// How a restore is answered.
pub open spec fn answers_restore(
    before: DaemonView,
    after: DaemonView,
    id: ItemId,
    reply: Reply,
) -> bool {
    &&& after.store == before.store
    &&& after.config == before.config
    &&& reply.events@.len() == 0
    &&& if before.store.db.items.contains_key(hyphenated_text(id.bits)) && !lacks_blob(
        before.store,
        id,
    ) {
        &&& reply.response.is_ok(None)
        &&& after.turn == next_turn(before.turn)
        &&& reply.restore matches Some(list) && is_restorable(before.store, id, inputs(list@))
            && after.restored == Some(fingerprint_of(echo_of(before.config, inputs(list@))))
    } else {
        &&& reply.response.reports(Error::NotFound)
        &&& reply.restore is None
        &&& after.turn == before.turn
        &&& after.restored == before.restored
    }
}

/// What becomes of a captured selection.
pub open spec fn takes_in(
    before: DaemonView,
    after: DaemonView,
    formats: Seq<(Seq<char>, Seq<u8>)>,
    outcome: CaptureOutcome,
) -> bool {
    &&& same_but_store(after, before)
    &&& if before.restored == Some(fingerprint_of(formats)) {
        outcome is Suppressed && after == before
    } else {
        match outcome {
            CaptureOutcome::Suppressed => false,
            CaptureOutcome::Stored { id, event } => is_addition(
                before.store,
                after.store,
                formats,
                id,
                event,
            ),
            CaptureOutcome::Failed(e) => is_failed_addition(
                before.store,
                after.store,
                formats,
                e,
            ),
        }
    }
}

/// How a request is answered.
pub open spec fn answers(
    before: DaemonView,
    after: DaemonView,
    request: Request,
    outcome: Outcome,
) -> bool {
    match (request, outcome) {
        (Request::WatchEvents(p), Outcome::Watch(q)) => p == q && after == before,
        (Request::AddItem(p), Outcome::Reply(reply)) => answers_add(
            before,
            after,
            inputs(p.formats@),
            reply,
        ),
        (Request::UpdateItem(p), Outcome::Reply(reply)) => answers_update(
            before,
            after,
            p.id,
            texts(p.remove_mimes@),
            inputs(p.set_formats@),
            reply,
        ),
        (Request::DeleteItem { id }, Outcome::Reply(reply)) => answers_delete(
            before,
            after,
            id,
            reply,
        ),
        (Request::DeleteOlderThan { cutoff }, Outcome::Reply(reply)) => answers_delete_older(
            before,
            after,
            cutoff,
            reply,
        ),
        (Request::ListItems(p), Outcome::Reply(reply)) => answers_list(
            before,
            after,
            limit_of(p.limit),
            mime_filter_of(p),
            reply,
        ),
        (Request::GetItem { id }, Outcome::Reply(reply)) => answers_get(before, after, id, reply),
        (Request::RestoreItem { id }, Outcome::Reply(reply)) => answers_restore(
            before,
            after,
            id,
            reply,
        ),
        _ => false,
    }
}

/// The MIME type that a listing asks for, if it does.
pub open spec fn mime_filter_of(p: ListItemsParams) -> Option<Seq<char>> {
    match p.mime_filter {
        Some(m) => Some(m@),
        None => None,
    }
}

impl DaemonState {
    /// The store is well-formed.
    pub closed spec fn wf(self) -> bool {
        self.store.wf()
    }

    /// The state that the store's pending changes started from.
    pub closed spec fn base_state(self) -> StoreState {
        self.store.base_state()
    }

    /// The state of the daemon where the blob files were those of `dir` before
    /// the store's pending steps, whether they were read or not.
    pub closed spec fn on(self, dir: Map<Seq<char>, Seq<u8>>) -> DaemonView {
        DaemonView { store: self.store.on(dir), ..self@ }
    }

    /// A daemon on this store that has restored nothing and captures by default.
    pub fn new(store: Store) -> (r: Self)
        requires
            store.wf(),
        ensures
            r.wf(),
            r@.store == store@,
            texts(r@.config.allowed_mimes@) == default_mimes(),
            r@.config.max_item_bytes == 8 * 1024 * 1024,
            r@.config.max_format_bytes == 4 * 1024 * 1024,
            r@.turn == 0,
            r@.restored is None,
            forall|dir: Map<Seq<char>, Seq<u8>>| #[trigger]
                r.on(dir) == (DaemonView { store: store.on(dir), ..r@ }),
            r.base_state() == store.base_state(),
    {
        DaemonState::with_config(store, CaptureConfig::default())
    }

    /// A daemon on this store that has restored nothing and captures as
    /// `config` says.
    pub fn with_config(store: Store, config: CaptureConfig) -> (r: Self)
        requires
            store.wf(),
        ensures
            r.wf(),
            r@ == (DaemonView { store: store@, config, turn: 0, restored: None }),
            forall|dir: Map<Seq<char>, Seq<u8>>| #[trigger]
                r.on(dir) == (DaemonView { store: store.on(dir), ..r@ }),
            r.base_state() == store.base_state(),
    {
        DaemonState { store, config, turn: 0, suppression: None }
    }

    /// The store.
    pub fn store(&self) -> (r: &Store)
        requires
            self.wf(),
        ensures
            r.wf(),
            r@ == self@.store,
    {
        &self.store
    }

    /// Put another store in place of this one, as read anew from disk.
    pub fn reload(&mut self, store: Store)
        requires
            store.wf(),
        ensures
            final(self).wf(),
            final(self)@.store == store@,
            same_but_store(final(self)@, old(self)@),
            forall|dir: Map<Seq<char>, Seq<u8>>| #[trigger]
                final(self).on(dir) == (DaemonView { store: store.on(dir), ..final(self)@ }),
            final(self).base_state() == store.base_state(),
    {
        self.store = store;
    }

    /// Hand out what is to be done to the database and to the blob files.
    pub fn take_journal(&mut self) -> (r: (Vec<Change>, Vec<BlobChange>))
        requires
            old(self).wf(),
        ensures
            final(self).wf(),
            final(self)@ == old(self)@,
            final(self).base_state() == old(self)@.store,
            old(self).base_state().db.replay(r.0@) == old(self)@.store.db,
            blobs_replayed(old(self).base_state().blobs, r.1@) == old(self)@.store.blobs,
            forall|dir: Map<Seq<char>, Seq<u8>>| #[trigger]
                old(self).on(dir).store.blobs == blobs_replayed(dir, r.1@),
            forall|dir: Map<Seq<char>, Seq<u8>>| #[trigger]
                final(self).on(dir).store == (StoreState {
                    db: old(self)@.store.db,
                    blobs: dir,
                }),
    {
        self.store.take_journal()
    }

    // ------------------------------------------------------------------
    // Request handlers
    // ------------------------------------------------------------------

    /// Store a new item, and make the event that tells of it.
    fn add(&mut self, formats: &Vec<(String, Vec<u8>)>) -> (r: Result<(ItemId, WatchEvent)>)
        requires
            old(self).wf(),
        ensures
            final(self).wf(),
            final(self).base_state() == old(self).base_state(),
            same_but_store(final(self)@, old(self)@),
            is_add_result(old(self)@.store, final(self)@.store, inputs(formats@), r),
            forall|dir: Map<Seq<char>, Seq<u8>>|
                is_add_result(
                    old(self).on(dir).store,
                    #[trigger] final(self).on(dir).store,
                    inputs(formats@),
                    r,
                ),
    {
        let ghost before = self.store;
        let id = match self.store.add_item(formats.as_slice()) {
            Ok(id) => id,
            Err(e) => {
                return Err(e);
            },
        };
        let ghost list = inputs(formats@);
        let mimes = advertised(formats);
        let ghost now = choose|now: Timestamp| #[trigger]
            now.wf() && self.store@ == before@.added(id, now, list) && (forall|
                dir: Map<Seq<char>, Seq<u8>>,
            | #[trigger]
                self.store.on(dir) == before.on(dir).added(id, now, list));
        proof {
            assert(now.wf());
            lemma_added_item_row(before@, id, now, list);
        }
        // Re-read to get the actual timestamp stored.
        let created_at = match self.store.get_item(id) {
            Ok(entry) => entry.item.created_at,
            Err(_) => Timestamp::now(),
        };
        let event = WatchEvent::ItemAdded { id, created_at, formats: mimes };
        proof {
            assert(now.wf() && tells_of_addition(
                event,
                id,
                Timestamp::of_ms(now.ms()),
                mimes_of(list),
            )) by {
                lemma_ms_fits(now);
            }
            assert forall|dir: Map<Seq<char>, Seq<u8>>| is_addition(
                old(self).on(dir).store,
                #[trigger] self.on(dir).store,
                list,
                id,
                event,
            ) by {
                assert(self.store.on(dir) == before.on(dir).added(id, now, list));
            }
        }
        Ok((id, event))
    }

    /// Add an item.
    pub fn handle_add_item(&mut self, p: &AddItemParams) -> (r: Reply)
        requires
            old(self).wf(),
        ensures
            final(self).wf(),
            final(self).base_state() == old(self).base_state(),
            answers_add(old(self)@, final(self)@, inputs(p.formats@), r),
            forall|dir: Map<Seq<char>, Seq<u8>>|
                answers_add(
                    old(self).on(dir),
                    #[trigger] final(self).on(dir),
                    inputs(p.formats@),
                    r,
                ),
    {
        match self.add(&p.formats) {
            Ok((id, event)) => {
                let mut events: Vec<WatchEvent> = Vec::new();
                events.push(event);
                let reply = Reply {
                    response: Response::ok(Some(Payload::Id(id))),
                    events,
                    restore: None,
                };
                assert(reply.events@[0] == event);
                assert forall|dir: Map<Seq<char>, Seq<u8>>| answers_add(
                    old(self).on(dir),
                    #[trigger] self.on(dir),
                    inputs(p.formats@),
                    reply,
                ) by {
                    assert(is_addition(
                        old(self).on(dir).store,
                        self.on(dir).store,
                        inputs(p.formats@),
                        id,
                        event,
                    ));
                }
                reply
            },
            Err(e) => {
                let reply = Reply {
                    response: Response::of_error(&e),
                    events: Vec::new(),
                    restore: None,
                };
                assert forall|dir: Map<Seq<char>, Seq<u8>>| answers_add(
                    old(self).on(dir),
                    #[trigger] self.on(dir),
                    inputs(p.formats@),
                    reply,
                ) by {
                    assert(is_failed_addition(
                        old(self).on(dir).store,
                        self.on(dir).store,
                        inputs(p.formats@),
                        e,
                    ));
                }
                reply
            },
        }
    }

    /// Update an item: removes first, then sets.
    pub fn handle_update_item(&mut self, p: &UpdateItemParams) -> (r: Reply)
        requires
            old(self).wf(),
        ensures
            final(self).wf(),
            final(self).base_state() == old(self).base_state(),
            answers_update(
                old(self)@,
                final(self)@,
                p.id,
                texts(p.remove_mimes@),
                inputs(p.set_formats@),
                r,
            ),
            forall|dir: Map<Seq<char>, Seq<u8>>|
                answers_update(
                    old(self).on(dir),
                    #[trigger] final(self).on(dir),
                    p.id,
                    texts(p.remove_mimes@),
                    inputs(p.set_formats@),
                    r,
                ),
    {
        match self.store.update_item(p.id, p.remove_mimes.as_slice(), p.set_formats.as_slice()) {
            Ok(_) => {},
            Err(e) => {
                return Reply { response: Response::of_error(&e), events: Vec::new(), restore: None };
            },
        }
        let mut changed = clone_texts(&p.remove_mimes);
        let mut set = advertised(&p.set_formats);
        let ghost removed_texts = texts(changed@);
        let ghost set_texts = texts(set@);
        changed.append(&mut set);
        assert(texts(changed@) =~= removed_texts + set_texts);
        let mut events: Vec<WatchEvent> = Vec::new();
        if changed.len() > 0 {
            events.push(WatchEvent::ItemUpdated { id: p.id, changed });
        }
        Reply { response: Response::ok(None), events, restore: None }
    }

    /// Delete an item.
    pub fn handle_delete_item(&mut self, id: ItemId) -> (r: Reply)
        requires
            old(self).wf(),
        ensures
            final(self).wf(),
            final(self).base_state() == old(self).base_state(),
            answers_delete(old(self)@, final(self)@, id, r),
            forall|dir: Map<Seq<char>, Seq<u8>>|
                answers_delete(old(self).on(dir), #[trigger] final(self).on(dir), id, r),
    {
        match self.store.delete_item(id) {
            Ok(_) => {
                let mut events: Vec<WatchEvent> = Vec::new();
                events.push(WatchEvent::ItemDeleted { id });
                assert(events@ =~= seq![WatchEvent::ItemDeleted { id }]);
                Reply { response: Response::ok(None), events, restore: None }
            },
            Err(e) => Reply { response: Response::of_error(&e), events: Vec::new(), restore: None },
        }
    }

    /// Delete the items created before the cutoff, and make the events that tell
    /// of them.
    fn delete_older(&mut self, cutoff: Timestamp) -> (r: Vec<WatchEvent>)
        requires
            old(self).wf(),
            cutoff.wf(),
        ensures
            final(self).wf(),
            final(self).base_state() == old(self).base_state(),
            same_but_store(final(self)@, old(self)@),
            is_bulk_deletion(old(self)@.store, final(self)@.store, cutoff, r@),
            forall|dir: Map<Seq<char>, Seq<u8>>|
                is_bulk_deletion(
                    old(self).on(dir).store,
                    #[trigger] final(self).on(dir).store,
                    cutoff,
                    r@,
                ),
    {
        let ids = self.store.delete_older(cutoff);
        let mut events: Vec<WatchEvent> = Vec::new();
        let mut i: usize = 0;
        while i < ids.len()
            invariant
                i <= ids@.len(),
                events@.len() == i,
                forall|j: int|
                    0 <= j < i ==> #[trigger] events@[j] == (WatchEvent::ItemDeleted {
                        id: ids@[j],
                    }),
            decreases ids@.len() - i,
        {
            events.push(WatchEvent::ItemDeleted { id: ids[i] });
            i += 1;
        }
        proof {
            assert(events@ =~= deletions(ids@));
            let cutoff_ms = cutoff.ms() as i64;
            assert forall|u: u128|
                is_old(old(self)@.store.db.items, #[trigger] hyphenated_text(u), cutoff_ms) implies
                events@.contains(WatchEvent::ItemDeleted { id: ItemId { bits: u } }) by {
                assert(ids@.contains(ItemId { bits: u }));
                let j = choose|j: int| 0 <= j < ids@.len() && ids@[j] == (ItemId { bits: u });
                assert(events@[j] == (WatchEvent::ItemDeleted { id: ids@[j] }));
            }
        }
        events
    }

    /// Delete the items created before an instant.
    pub fn handle_delete_older_than(&mut self, cutoff: Timestamp) -> (r: Reply)
        requires
            old(self).wf(),
            cutoff.wf(),
        ensures
            final(self).wf(),
            final(self).base_state() == old(self).base_state(),
            answers_delete_older(old(self)@, final(self)@, cutoff, r),
            forall|dir: Map<Seq<char>, Seq<u8>>|
                answers_delete_older(old(self).on(dir), #[trigger] final(self).on(dir), cutoff, r),
    {
        let events = self.delete_older(cutoff);
        let count = events.len() as u64;
        Reply { response: Response::ok(Some(Payload::Deleted(count))), events, restore: None }
    }

    /// List items.
    pub fn handle_list_items(&self, p: &ListItemsParams) -> (r: Reply)
        requires
            self.wf(),
        ensures
            answers_list(self@, self@, limit_of(p.limit), mime_filter_of(*p), r),
            forall|dir: Map<Seq<char>, Seq<u8>>|
                answers_list(
                    #[trigger] self.on(dir),
                    self.on(dir),
                    limit_of(p.limit),
                    mime_filter_of(*p),
                    r,
                ),
    {
        let filter: Option<&str> = match &p.mime_filter {
            Some(m) => Some(m.as_str()),
            None => None,
        };
        let result = self.store.list_items(p.limit, filter);
        assert(is_list_result(self@.store.db, limit_of(p.limit), mime_filter_of(*p), result));
        assert(forall|dir: Map<Seq<char>, Seq<u8>>|
            is_list_result(
                (#[trigger] self.on(dir)).store.db,
                limit_of(p.limit),
                mime_filter_of(*p),
                result,
            ));
        match result {
            Ok(list) => Reply {
                response: Response::ok(Some(Payload::Items(list))),
                events: Vec::new(),
                restore: None,
            },
            Err(e) => Reply { response: Response::of_error(&e), events: Vec::new(), restore: None },
        }
    }

    /// Read one item.
    pub fn handle_get_item(&self, id: ItemId) -> (r: Reply)
        requires
            self.wf(),
        ensures
            answers_get(self@, self@, id, r),
            forall|dir: Map<Seq<char>, Seq<u8>>|
                answers_get(#[trigger] self.on(dir), self.on(dir), id, r),
    {
        let result = self.store.get_item(id);
        assert(is_item_result(self@.store.db, id, result));
        assert(forall|dir: Map<Seq<char>, Seq<u8>>|
            is_item_result((#[trigger] self.on(dir)).store.db, id, result));
        match result {
            Ok(entry) => Reply {
                response: Response::ok(Some(Payload::Item(entry))),
                events: Vec::new(),
                restore: None,
            },
            Err(e) => Reply { response: Response::of_error(&e), events: Vec::new(), restore: None },
        }
    }

    /// Restore an item: its formats outside the internal namespace are handed
    /// out to be served, and what a capture keeps of them is remembered so that
    /// it is not captured while the selection is owned.
    pub fn handle_restore_item(&mut self, id: ItemId) -> (r: Reply)
        requires
            old(self).wf(),
        ensures
            final(self).wf(),
            final(self).base_state() == old(self).base_state(),
            answers_restore(old(self)@, final(self)@, id, r),
            forall|dir: Map<Seq<char>, Seq<u8>>| #[trigger]
                final(self).on(dir).store == old(self).on(dir).store,
    {
        match restorable_formats(&self.store, id) {
            Ok(formats) => {
                let kept = captured_inputs(&echo(&self.config, &formats));
                self.turn = if self.turn == u64::MAX {
                    0
                } else {
                    self.turn + 1
                };
                self.suppression = Some(fingerprint(&kept));
                Reply { response: Response::ok(None), events: Vec::new(), restore: Some(formats) }
            },
            Err(e) => Reply { response: Response::of_error(&e), events: Vec::new(), restore: None },
        }
    }

    /// The number of the last restore.
    pub fn turn(&self) -> (r: u64)
        ensures
            r == self@.turn,
    {
        self.turn
    }

    /// The selection of the restore with this number is no longer owned: unless
    /// another restore has taken its place, nothing is held back any more.
    pub fn release(&mut self, turn: u64)
        requires
            old(self).wf(),
        ensures
            final(self).wf(),
            final(self).base_state() == old(self).base_state(),
            final(self)@ == old(self)@.released(turn),
            forall|dir: Map<Seq<char>, Seq<u8>>| #[trigger]
                final(self).on(dir).store == old(self).on(dir).store,
    {
        if turn == self.turn {
            self.suppression = None;
        }
    }

    /// Answer a request.
    pub fn handle_request(&mut self, request: Request) -> (r: Outcome)
        requires
            old(self).wf(),
            request.wf(),
        ensures
            final(self).wf(),
            final(self).base_state() == old(self).base_state(),
            answers(old(self)@, final(self)@, request, r),
            request is RestoreItem ==> forall|dir: Map<Seq<char>, Seq<u8>>| #[trigger]
                final(self).on(dir).store == old(self).on(dir).store,
            !(request is RestoreItem) ==> forall|dir: Map<Seq<char>, Seq<u8>>|
                answers(old(self).on(dir), #[trigger] final(self).on(dir), request, r),
    {
        match request {
            Request::AddItem(p) => Outcome::Reply(self.handle_add_item(&p)),
            Request::UpdateItem(p) => Outcome::Reply(self.handle_update_item(&p)),
            Request::DeleteItem { id } => Outcome::Reply(self.handle_delete_item(id)),
            Request::DeleteOlderThan { cutoff } => Outcome::Reply(
                self.handle_delete_older_than(cutoff),
            ),
            Request::ListItems(p) => Outcome::Reply(self.handle_list_items(&p)),
            Request::GetItem { id } => Outcome::Reply(self.handle_get_item(id)),
            Request::RestoreItem { id } => Outcome::Reply(self.handle_restore_item(id)),
            Request::WatchEvents(p) => Outcome::Watch(p),
        }
    }

    // ------------------------------------------------------------------
    // Captured selections
    // ------------------------------------------------------------------

    /// Take in a captured selection. While the daemon owns a restored selection,
    /// one that holds exactly what a capture keeps of it is that selection
    /// echoing back: it is dropped instead of becoming a second history entry.
    pub fn handle_captured(&mut self, item: CapturedItem) -> (r: CaptureOutcome)
        requires
            old(self).wf(),
        ensures
            final(self).wf(),
            final(self).base_state() == old(self).base_state(),
            same_but_store(final(self)@, old(self)@),
            takes_in(old(self)@, final(self)@, captured(item.formats@), r),
            forall|dir: Map<Seq<char>, Seq<u8>>|
                takes_in(
                    old(self).on(dir),
                    #[trigger] final(self).on(dir),
                    captured(item.formats@),
                    r,
                ),
    {
        let formats = captured_inputs(&item.formats);
        let is_self_restore = match &self.suppression {
            Some(restored) => {
                let captured_fp = fingerprint(&formats);
                same_pairs(restored, &captured_fp)
            },
            None => false,
        };
        if is_self_restore {
            return CaptureOutcome::Suppressed;
        }
        match self.add(&formats) {
            Ok((id, event)) => CaptureOutcome::Stored { id, event },
            Err(e) => CaptureOutcome::Failed(e),
        }
    }

    // ------------------------------------------------------------------
    // Retention
    // ------------------------------------------------------------------

    /// Delete the items created more than `retention_days` before `now`; returns
    /// what watchers are told, one event for each item.
    pub fn prune_old_items(&mut self, now: Timestamp, retention_days: u64) -> (r: Vec<WatchEvent>)
        requires
            old(self).wf(),
            now.wf(),
        ensures
            final(self).wf(),
            final(self).base_state() == old(self).base_state(),
            same_but_store(final(self)@, old(self)@),
            is_pruning(old(self)@.store, final(self)@.store, now, retention_days, r@),
            forall|dir: Map<Seq<char>, Seq<u8>>|
                is_pruning(
                    old(self).on(dir).store,
                    #[trigger] final(self).on(dir).store,
                    now,
                    retention_days,
                    r@,
                ),
    {
        self.delete_older(now.earlier_by_days(retention_days))
    }
}

// ---------------------------------------------------------------------------
// Watch streams
// ---------------------------------------------------------------------------

/// What happens on a stream of events.
#[derive(Debug)]
pub enum WatchInput {
    /// An event was told.
    Event(WatchEvent),
    /// The watcher was too slow: this many events were dropped.
    Lagged(u64),
    /// No more events can come.
    Closed,
    /// An event was written to the watcher, or the watcher is gone.
    Written { ok: bool },
}

/// What is done on a stream of events.
#[derive(Debug)]
pub enum WatchAction {
    /// Write the event to the watcher.
    Send(WatchEvent),
    /// Log a warning, and wait for the next event.
    Warn(String),
    /// Wait for the next event.
    Wait,
    /// End the stream.
    Stop,
}

/// What is done on a stream of events.
pub open spec fn is_watch_step(
    params: WatchEventsParams,
    input: WatchInput,
    r: WatchAction,
) -> bool {
    match input {
        WatchInput::Event(event) => if is_watched(params, event) {
            r == WatchAction::Send(event)
        } else {
            r is Wait
        },
        WatchInput::Lagged(n) => r matches WatchAction::Warn(text) && text@
            == "watch client lagged, "@ + decimal(n as nat) + " events dropped"@,
        WatchInput::Closed => r is Stop,
        WatchInput::Written { ok } => if ok {
            r is Wait
        } else {
            r is Stop
        },
    }
}

/// A stream ends only where no more events can come or where its watcher is
/// gone; it sends each event that its watcher asked for, as it is, and no other.
pub proof fn law_watch_streams(params: WatchEventsParams, input: WatchInput, r: WatchAction)
    requires
        is_watch_step(params, input, r),
    ensures
        r is Stop <==> input is Closed || input matches WatchInput::Written { ok: false },
        r is Warn <==> input is Lagged,
        r matches WatchAction::Send(event) ==> input == WatchInput::Event(event) && is_watched(
            params,
            event,
        ),
        input matches WatchInput::Event(event) ==> (is_watched(params, event) <==> r
            == WatchAction::Send(event)),
{
}

/// Decide what to do on a stream of events: what the watcher asked for is sent,
/// a slow watcher misses events but stays, and the stream ends with its events
/// or its watcher.
pub fn watch_step(params: &WatchEventsParams, input: WatchInput) -> (r: WatchAction)
    ensures
        is_watch_step(*params, input, r),
{
    match input {
        WatchInput::Event(event) => if event_passes(params, &event) {
            WatchAction::Send(event)
        } else {
            WatchAction::Wait
        },
        WatchInput::Lagged(n) => {
            let count = decimal_text(n);
            WatchAction::Warn(join3("watch client lagged, ", count.as_str(), " events dropped"))
        },
        WatchInput::Closed => WatchAction::Stop,
        WatchInput::Written { ok } => if ok {
            WatchAction::Wait
        } else {
            WatchAction::Stop
        },
    }
}

/// Captured formats as pairs.
fn captured_inputs(formats: &Vec<CapturedFormat>) -> (r: Vec<(String, Vec<u8>)>)
    ensures
        inputs(r@) == captured(formats@),
{
    let mut out: Vec<(String, Vec<u8>)> = Vec::new();
    let mut i: usize = 0;
    while i < formats.len()
        invariant
            i <= formats@.len(),
            out@.len() == i,
            forall|j: int|
                0 <= j < i ==> (#[trigger] out@[j]).0@ == formats@[j].mime@ && out@[j].1@
                    == formats@[j].bytes@,
        decreases formats@.len() - i,
    {
        out.push((formats[i].mime.clone(), clone_bytes(formats[i].bytes.as_slice())));
        i += 1;
    }
    assert(inputs(out@) =~= captured(formats@));
    out
}

/// The retention window in days: what the setting says, else the default.
pub open spec fn retention_of(setting: Option<Seq<char>>) -> u64 {
    match setting {
        Some(s) => match parsed_u64(s) {
            Some(days) => days,
            None => DEFAULT_RETENTION_DAYS,
        },
        None => DEFAULT_RETENTION_DAYS,
    }
}

/// Without a setting, or with one that is no number, items are kept for thirty
/// days; a number is taken as it is.
pub proof fn law_retention(setting: Option<Seq<char>>, days: u64)
    ensures
        retention_of(None) == 30,
        setting is Some && parsed_u64(setting->0) is None ==> retention_of(setting) == 30,
        retention_of(Some(decimal(days as nat))) == days,
        setting is Some && parsed_u64(setting->0) is Some ==> retention_of(setting) == parsed_u64(
            setting->0,
        )->0,
{
    crate::text::law_numbers_are_read_back(days);
}

/// The retention window in days: what the setting says, else the default.
pub fn retention_days(setting: Option<&str>) -> (r: u64)
    ensures
        r == retention_of(
            match setting {
                Some(s) => Some(s@),
                None => None,
            },
        ),
        r == (match setting {
            Some(s) => match parsed_u64(s@) {
                Some(days) => days,
                None => DEFAULT_RETENTION_DAYS,
            },
            None => DEFAULT_RETENTION_DAYS,
        }),
{
    match setting {
        Some(s) => match parse_u64(s) {
            Some(days) => days,
            None => DEFAULT_RETENTION_DAYS,
        },
        None => DEFAULT_RETENTION_DAYS,
    }
}

// ---------------------------------------------------------------------------
// What holds of the daemon
// ---------------------------------------------------------------------------

/// Formats in another order have the same fingerprint.
pub proof fn law_fingerprints_ignore_the_order(
    restored: Seq<(Seq<char>, Seq<u8>)>,
    echoed: Seq<(Seq<char>, Seq<u8>)>,
)
    requires
        restored.to_set() == echoed.to_set(),
    ensures
        fingerprint_of(restored) == fingerprint_of(echoed),
{
    lemma_same_fingerprints(restored, echoed);
    lemma_same_fingerprints(echoed, restored);
    assert(fingerprint_of(restored) =~= fingerprint_of(echoed));
}

proof fn lemma_same_fingerprints(a: Seq<(Seq<char>, Seq<u8>)>, b: Seq<(Seq<char>, Seq<u8>)>)
    requires
        a.to_set() == b.to_set(),
    ensures
        fingerprint_of(a).subset_of(fingerprint_of(b)),
{
    assert forall|p: (Seq<char>, Seq<char>)| fingerprint_of(a).contains(p) implies #[trigger]
        fingerprint_of(b).contains(p) by {
        let i = choose|i: int|
            0 <= i < a.len() && (#[trigger] a[i]).0 == p.0 && blake3_hex(a[i].1) == p.1;
        assert(a.to_set().contains(a[i]));
        assert(b.contains(a[i]));
        let j = choose|j: int| 0 <= j < b.len() && b[j] == a[i];
        assert(b[j].0 == p.0);
    }
}

/// What was restored is not captured again: after a restore, what a capture
/// keeps of the served formats has the fingerprint that is held back.
pub proof fn law_restored_selection_is_known(
    before: DaemonView,
    after: DaemonView,
    id: ItemId,
    reply: Reply,
    formats: Vec<(String, Vec<u8>)>,
)
    requires
        answers(before, after, (Request::RestoreItem { id }), Outcome::Reply(reply)),
        reply.restore == Some(formats),
    ensures
        after.restored == Some(fingerprint_of(echo_of(after.config, inputs(formats@)))),
{
}

/// A request that fails leaves the tables as they were, and tells watchers
/// nothing.
pub proof fn law_refused_requests_change_no_row(
    before: DaemonView,
    after: DaemonView,
    request: Request,
    reply: Reply,
)
    requires
        answers(before, after, request, Outcome::Reply(reply)),
        !reply.response.ok,
    ensures
        after.store.db == before.store.db,
        reply.events@.len() == 0,
        reply.restore is None,
{
}

/// A captured or added item keeps the store sound, whether it is stored or its
/// identity is taken.
pub proof fn law_additions_keep_the_store_sound(
    before: StoreState,
    after: StoreState,
    formats: Seq<(Seq<char>, Seq<u8>)>,
)
    requires
        is_sound(before),
        (exists|id: ItemId, event: WatchEvent| #[trigger]
            is_addition(before, after, formats, id, event)) || (exists|e: Error| #[trigger]
            is_failed_addition(before, after, formats, e)),
    ensures
        is_sound(after),
{
    if exists|id: ItemId, event: WatchEvent| #[trigger]
        is_addition(before, after, formats, id, event) {
        let (id, event) = choose|id: ItemId, event: WatchEvent| #[trigger]
            is_addition(before, after, formats, id, event);
        let now = choose|now: Timestamp| #[trigger]
            now.wf() && after == before.added(id, now, formats) && tells_of_addition(
                event,
                id,
                Timestamp::of_ms(now.ms()),
                mimes_of(formats),
            );
        law_added_is_sound(before, id, now, formats);
    } else {
        lemma_written_is_sound(before, formats);
        assert(after =~= StoreState { db: before.db, blobs: with_blobs(before.blobs, formats) });
    }
}

/// Every request keeps the store sound, however it is answered.
pub proof fn law_requests_keep_the_store_sound(
    before: DaemonView,
    after: DaemonView,
    request: Request,
    outcome: Outcome,
)
    requires
        is_sound(before.store),
        answers(before, after, request, outcome),
    ensures
        is_sound(after.store),
{
    match (request, outcome) {
        (Request::AddItem(p), Outcome::Reply(reply)) => {
            law_additions_keep_the_store_sound(before.store, after.store, inputs(p.formats@));
        },
        (Request::UpdateItem(p), Outcome::Reply(reply)) => {
            let removes = texts(p.remove_mimes@);
            let sets = inputs(p.set_formats@);
            if before.store.can_update(p.id, removes, sets) {
                let now = choose|now: Timestamp| #[trigger]
                    now.wf() && after.store == before.store.updated(p.id, now, removes, sets);
                law_updated_is_sound(before.store, p.id, now, removes, sets);
            }
        },
        (Request::DeleteItem { id }, Outcome::Reply(reply)) => {
            law_item_deleted_is_sound(before.store, id);
        },
        (Request::DeleteOlderThan { cutoff }, Outcome::Reply(reply)) => {
            law_older_deleted_is_sound(before.store, cutoff.ms() as i64);
        },
        _ => {},
    }
}

/// Every request keeps the tables and the blob files sound, whatever was read of
/// the files.
pub proof fn law_requests_keep_the_files_sound(
    before: DaemonState,
    after: DaemonState,
    request: Request,
    outcome: Outcome,
    dir: Map<Seq<char>, Seq<u8>>,
)
    requires
        is_sound(before.on(dir).store),
        if request is RestoreItem {
            after.on(dir).store == before.on(dir).store
        } else {
            answers(before.on(dir), after.on(dir), request, outcome)
        },
    ensures
        is_sound(after.on(dir).store),
{
    if !(request is RestoreItem) {
        law_requests_keep_the_store_sound(before.on(dir), after.on(dir), request, outcome);
    }
}

/// An item that was added can be fetched: the answer holds the item under the
/// id that was answered, with the instant that watchers were told.
pub proof fn law_added_item_can_be_fetched(
    before: DaemonView,
    added: DaemonView,
    after: DaemonView,
    p: AddItemParams,
    id: ItemId,
    first: Reply,
    second: Reply,
)
    requires
        answers(before, added, Request::AddItem(p), Outcome::Reply(first)),
        first.response.is_ok(Some(Payload::Id(id))),
        answers(added, after, Request::GetItem { id }, Outcome::Reply(second)),
    ensures
        second.response.ok,
        second.response.data matches Some(Payload::Item(entry)) && entry.item.id == id && (
        first.events@[0] matches WatchEvent::ItemAdded { created_at, .. } && entry.item.created_at
            == created_at),
{
    let list = inputs(p.formats@);
    let event = first.events@[0];
    let other = choose|other: ItemId|
        first.response.is_ok(Some(Payload::Id(other))) && #[trigger] is_addition(
            before.store,
            added.store,
            list,
            other,
            event,
        );
    assert(other == id);
    let now = choose|now: Timestamp| #[trigger]
        now.wf() && added.store == before.store.added(id, now, list) && tells_of_addition(
            event,
            id,
            Timestamp::of_ms(now.ms()),
            mimes_of(list),
        );
    lemma_added_item_row(before.store, id, now, list);
    lemma_ms_fits(now);
}

/// An item that was deleted is not found any more.
pub proof fn law_deleted_item_is_not_found(
    before: DaemonView,
    deleted: DaemonView,
    after: DaemonView,
    id: ItemId,
    first: Reply,
    second: Reply,
)
    requires
        answers(before, deleted, (Request::DeleteItem { id }), Outcome::Reply(first)),
        first.response.ok,
        answers(deleted, after, (Request::GetItem { id }), Outcome::Reply(second)),
    ensures
        second.response.reports(Error::NotFound),
{
}

/// Reads change nothing.
pub proof fn law_reads_change_nothing(
    before: DaemonView,
    after: DaemonView,
    request: Request,
    outcome: Outcome,
)
    requires
        answers(before, after, request, outcome),
        request is ListItems || request is GetItem || request is WatchEvents,
    ensures
        after == before,
{
}

/// Every request that changes the tables tells watchers of it.
pub proof fn law_mutations_are_told(
    before: DaemonView,
    after: DaemonView,
    request: Request,
    outcome: Outcome,
)
    requires
        answers(before, after, request, outcome),
        after.store.db != before.store.db,
    ensures
        outcome matches Outcome::Reply(reply) && reply.events@.len() > 0 && reply.response.ok,
{
    match (request, outcome) {
        (Request::UpdateItem(p), Outcome::Reply(reply)) => {
            let removes = texts(p.remove_mimes@);
            let sets = inputs(p.set_formats@);
            if before.store.can_update(p.id, removes, sets) && reply.events@.len() == 0 {
                assert(removes.len() == 0 && sets.len() == 0);
            }
        },
        (Request::DeleteOlderThan { cutoff }, Outcome::Reply(reply)) => {
            let cutoff_ms = cutoff.ms() as i64;
            let ids = choose|ids: Seq<Seq<char>>| #[trigger]
                is_old_listing(before.store.db, cutoff_ms, ids) && reply.events@ == deletions(
                    ids_of(ids),
                );
            if ids.len() == 0 {
                lemma_nothing_old(before.store.db, cutoff_ms, ids);
            }
        },
        _ => {},
    }
}

/// A listing that is asked for is answered with the items that have the type
/// asked for, the greatest identity first, no more than the limit, and none left
/// out but for the limit.
pub proof fn law_listing_answers(
    before: DaemonView,
    after: DaemonView,
    p: ListItemsParams,
    reply: Reply,
    u: u128,
)
    requires
        is_sound(before.store),
        answers(before, after, Request::ListItems(p), Outcome::Reply(reply)),
    ensures
        reply.response.ok,
        reply.response.data matches Some(Payload::Items(list)) && {
            let db = before.store.db;
            let text = hyphenated_text(u);
            &&& p.limit matches Some(l) ==> list@.len() <= l
            &&& forall|i: int, j: int|
                0 <= i < j < list@.len() ==> (#[trigger] list@[i]).item.id.bits > (
                #[trigger] list@[j]).item.id.bits
            &&& forall|i: int|
                0 <= i < list@.len() ==> {
                    let shown = hyphenated_text((#[trigger] list@[i]).item.id.bits);
                    db.items.contains_key(shown) && (p.mime_filter matches Some(m)
                        ==> db.formats.contains_key((shown, m@)))
                }
            &&& (p.limit is None || p.limit->0 > list@.len()) && db.items.contains_key(text) && (
            p.mime_filter matches Some(m) ==> db.formats.contains_key((text, m@))) ==> exists|
                i: int,
            | 0 <= i < list@.len() && (#[trigger] list@[i]).item.id.bits == u
        },
{
    let limit = limit_of(p.limit);
    let mime = mime_filter_of(p);
    let r = choose|r: Result<Vec<ItemWithFormats>>| #[trigger]
        is_list_result(before.store.db, limit, mime, r) && match r {
            Ok(list) => reply.response.is_ok(Some(Payload::Items(list))),
            Err(e) => reply.response.reports(e),
        };
    match r {
        Ok(list) => {
            law_listing(before.store.db, limit, mime, list, u, Seq::empty());
        },
        Err(_) => {},
    }
}

/// Each format of an item that was added is stored for it as it was given, the
/// last one where a type was given twice, and watchers are told its types. Left
/// out are contents whose hash another content already has.
pub proof fn law_added_contents_are_stored(
    before: DaemonView,
    after: DaemonView,
    p: AddItemParams,
    id: ItemId,
    reply: Reply,
    i: int,
)
    requires
        answers(before, after, Request::AddItem(p), Outcome::Reply(reply)),
        reply.response.is_ok(Some(Payload::Id(id))),
        is_last(inputs(p.formats@), i),
        hash_is_free(before.store.blobs, inputs(p.formats@), i),
    ensures
        after.store.content(id, p.formats@[i].0@) == Some(p.formats@[i].1@),
        reply.events@.len() == 1,
        reply.events@[0] matches WatchEvent::ItemAdded { id: told, formats, .. } && told == id
            && formats@.len() == p.formats@.len() && formats@[i]@ == p.formats@[i].0@,
{
    let list = inputs(p.formats@);
    let event = reply.events@[0];
    let other = choose|other: ItemId|
        reply.response.is_ok(Some(Payload::Id(other))) && #[trigger] is_addition(
            before.store,
            after.store,
            list,
            other,
            event,
        );
    assert(other == id);
    let now = choose|now: Timestamp| #[trigger]
        now.wf() && after.store == before.store.added(id, now, list) && tells_of_addition(
            event,
            id,
            Timestamp::of_ms(now.ms()),
            mimes_of(list),
        );
    law_added_is_read_back(before.store, id, now, list, i);
    assert(list[i] == (p.formats@[i].0@, p.formats@[i].1@));
    match event {
        WatchEvent::ItemAdded { formats, .. } => {
            assert(texts(formats@)[i] == mimes_of(list)[i]);
            assert(texts(formats@).len() == mimes_of(list).len());
        },
        _ => {},
    }
}

/// An update is told once, with the types that were removed and then those that
/// were set, and not at all where nothing was asked for.
pub proof fn law_update_is_told(
    before: DaemonView,
    after: DaemonView,
    p: UpdateItemParams,
    reply: Reply,
)
    requires
        answers(before, after, Request::UpdateItem(p), Outcome::Reply(reply)),
        reply.response.ok,
    ensures
        p.remove_mimes@.len() == 0 && p.set_formats@.len() == 0 ==> reply.events@.len() == 0,
        p.remove_mimes@.len() > 0 || p.set_formats@.len() > 0 ==> reply.events@.len() == 1 && (
        reply.events@[0] matches WatchEvent::ItemUpdated { id, changed } && {
            let n = p.remove_mimes@.len();
            &&& id == p.id
            &&& changed@.len() == n + p.set_formats@.len()
            &&& forall|i: int|
                0 <= i < n ==> (#[trigger] changed@[i])@ == p.remove_mimes@[i]@
            &&& forall|i: int|
                n <= i < changed@.len() ==> (#[trigger] changed@[i])@ == p.set_formats@[i - n].0@
        }),
{
    let removes = texts(p.remove_mimes@);
    let sets = inputs(p.set_formats@);
    let all = removes + mimes_of(sets);
    if reply.events@.len() == 1 {
        match reply.events@[0] {
            WatchEvent::ItemUpdated { id, changed } => {
                assert(texts(changed@) == all);
                assert(changed@.len() == all.len());
                assert forall|i: int| 0 <= i < changed@.len() implies (#[trigger] changed@[i])@
                    == all[i] by {
                    assert(texts(changed@)[i] == changed@[i]@);
                }
            },
            _ => {},
        }
    }
}

/// A restore hands out every stored format whose type does not begin with
/// `application/x-richclip-`, with its bytes, and none whose type does.
pub proof fn law_restore_answers(
    before: DaemonView,
    after: DaemonView,
    id: ItemId,
    reply: Reply,
    formats: Vec<(String, Vec<u8>)>,
    mime: Seq<char>,
    t: Seq<char>,
)
    requires
        answers(before, after, (Request::RestoreItem { id }), Outcome::Reply(reply)),
        reply.restore == Some(formats),
    ensures
        reply.response.ok,
        after.store == before.store,
        served(inputs(formats@), "application/x-richclip-"@ + t) is None,
        !mimes_of(inputs(formats@)).contains("application/x-richclip-"@ + t),
        before.store.db.formats.contains_key((hyphenated_text(id.bits), mime)) && (forall|
            x: Seq<char>,
        |
            mime != #[trigger] ("application/x-richclip-"@ + x)) ==> served(
            inputs(formats@),
            mime,
        ) is Some && served(inputs(formats@), mime) == before.store.content(id, mime),
{
    let list = inputs(formats@);
    law_generated_data_is_never_restored(before.store, id, list, t);
    if before.store.db.formats.contains_key((hyphenated_text(id.bits), mime)) && (forall|
        x: Seq<char>,
    |
        mime != #[trigger] ("application/x-richclip-"@ + x)) {
        law_everything_else_is_restored(before.store, id, list, mime);
    }
}

/// While a restored selection is owned, capturing what a capture keeps of it
/// stores nothing. A selection that has a format which that has not, or lacks one
/// which it has, by type and by the hash of the content, is not dropped.
pub proof fn law_only_the_echo_is_dropped(
    before: DaemonView,
    restored: DaemonView,
    after: DaemonView,
    id: ItemId,
    reply: Reply,
    formats: Vec<(String, Vec<u8>)>,
    list: Seq<(Seq<char>, Seq<u8>)>,
    outcome: CaptureOutcome,
)
    requires
        answers(before, restored, (Request::RestoreItem { id }), Outcome::Reply(reply)),
        reply.restore == Some(formats),
        takes_in(restored, after, list, outcome),
    ensures
        list == echo_of(before.config, inputs(formats@)) ==> outcome is Suppressed && after.store
            == before.store,
        forall|j: int|
            0 <= j < list.len() && lacks_format(
                echo_of(before.config, inputs(formats@)),
                #[trigger] list[j],
            ) ==> !(outcome is Suppressed),
        forall|i: int|
            0 <= i < echo_of(before.config, inputs(formats@)).len() && lacks_format(
                list,
                #[trigger] echo_of(before.config, inputs(formats@))[i],
            ) ==> !(outcome is Suppressed),
{
    let echo = echo_of(before.config, inputs(formats@));
    assert forall|j: int|
        0 <= j < list.len() && lacks_format(echo, #[trigger] list[j]) implies !(
    outcome is Suppressed) by {
        let pair = (list[j].0, blake3_hex(list[j].1));
        assert(fingerprint_of(list).contains(pair));
        assert(!fingerprint_of(echo).contains(pair));
    }
    assert forall|i: int|
        0 <= i < echo.len() && lacks_format(list, #[trigger] echo[i]) implies !(
    outcome is Suppressed) by {
        let pair = (echo[i].0, blake3_hex(echo[i].1));
        assert(fingerprint_of(echo).contains(pair));
        assert(!fingerprint_of(list).contains(pair));
    }
}

/// No format of the list has the type of this one and a content of its hash.
pub open spec fn lacks_format(
    list: Seq<(Seq<char>, Seq<u8>)>,
    format: (Seq<char>, Seq<u8>),
) -> bool {
    forall|i: int|
        0 <= i < list.len() ==> (#[trigger] list[i]).0 != format.0 || blake3_hex(list[i].1)
            != blake3_hex(format.1)
}

/// Once the selection of the last restore is no longer owned, nothing is held
/// back; the end of an earlier one changes nothing.
pub proof fn law_only_the_last_restore_is_released(v: DaemonView, turn: u64)
    ensures
        v.released(v.turn).restored is None,
        turn != v.turn ==> v.released(turn) == v,
        v.released(turn).store == v.store,
        v.released(turn).turn == v.turn,
        v.released(turn).config == v.config,
{
}

/// Where no restored selection is owned, every captured selection is stored or
/// fails to be; one that is stored becomes an item with each of its formats, and
/// watchers are told of it.
pub proof fn law_captures_are_stored(
    before: DaemonView,
    after: DaemonView,
    list: Seq<(Seq<char>, Seq<u8>)>,
    outcome: CaptureOutcome,
    i: int,
)
    requires
        takes_in(before, after, list, outcome),
        before.restored is None,
        is_last(list, i),
        hash_is_free(before.store.blobs, list, i),
    ensures
        !(outcome is Suppressed),
        outcome matches CaptureOutcome::Stored { id, event } ==> {
            &&& after.store.db.items.contains_key(hyphenated_text(id.bits))
            &&& after.store.content(id, list[i].0) == Some(list[i].1)
            &&& event matches WatchEvent::ItemAdded { id: told, formats, .. } && told == id
                && formats@.len() == list.len() && formats@[i]@ == list[i].0
        },
{
    match outcome {
        CaptureOutcome::Stored { id, event } => {
            let now = choose|now: Timestamp| #[trigger]
                now.wf() && after.store == before.store.added(id, now, list) && tells_of_addition(
                    event,
                    id,
                    Timestamp::of_ms(now.ms()),
                    mimes_of(list),
                );
            law_added_is_read_back(before.store, id, now, list, i);
            lemma_added_item_row(before.store, id, now, list);
            match event {
                WatchEvent::ItemAdded { formats, .. } => {
                    assert(texts(formats@)[i] == mimes_of(list)[i]);
                    assert(texts(formats@).len() == mimes_of(list).len());
                },
                _ => {},
            }
        },
        _ => {},
    }
}

/// A restore is refused exactly where there is no such item, or where a format
/// of it outside `application/x-richclip-` has lost its content; every restore
/// that is granted has another number than the one before.
pub proof fn law_refused_restores(before: DaemonView, after: DaemonView, id: ItemId, reply: Reply)
    requires
        answers(before, after, (Request::RestoreItem { id }), Outcome::Reply(reply)),
    ensures
        reply.response.ok <==> reply.restore is Some,
        reply.response.ok ==> after.turn != before.turn,
        !reply.response.ok ==> after == before,
        !reply.response.ok <==> !before.store.db.items.contains_key(hyphenated_text(id.bits)) || (
        exists|mime: Seq<char>|
            #![trigger before.store.db.formats.contains_key((hyphenated_text(id.bits), mime))]
            before.store.db.formats.contains_key((hyphenated_text(id.bits), mime))
                && before.store.content(id, mime) is None && forall|t: Seq<char>|
                mime != #[trigger] ("application/x-richclip-"@ + t)),
{
    law_only_lost_originals_prevent_a_restore(before.store, id);
}

/// An item that is fetched is answered with its times and with every format that
/// is stored for it, with its size and its hash; one that is not there is not
/// found.
pub proof fn law_item_answers(
    before: DaemonView,
    after: DaemonView,
    id: ItemId,
    reply: Reply,
    mime: Seq<char>,
)
    requires
        answers(before, after, (Request::GetItem { id }), Outcome::Reply(reply)),
    ensures
        reply.response.ok <==> before.store.db.items.contains_key(hyphenated_text(id.bits)),
        !reply.response.ok ==> reply.response.reports(Error::NotFound),
        reply.response.ok ==> (reply.response.data matches Some(Payload::Item(entry)) && {
            let text = hyphenated_text(id.bits);
            let db = before.store.db;
            &&& entry.item.id == id
            &&& entry.item.created_at == Timestamp::of_ms(db.items[text].created_at as int)
            &&& entry.item.updated_at == Timestamp::of_ms(db.items[text].updated_at as int)
            &&& db.formats.contains_key((text, mime)) <==> exists|k: int|
                0 <= k < entry.formats@.len() && (#[trigger] entry.formats@[k]).mime@ == mime
            &&& forall|k: int|
                0 <= k < entry.formats@.len() && (#[trigger] entry.formats@[k]).mime@ == mime ==> {
                    &&& entry.formats@[k].size == db.formats[(text, mime)].size as u64
                    &&& entry.formats@[k].blob_hash@ == db.formats[(text, mime)].blob_hash
                    &&& entry.formats@[k].item_id == id
                }
        }),
{
    let r = choose|r: Result<ItemWithFormats>| #[trigger]
        is_item_result(before.store.db, id, r) && match r {
            Ok(entry) => reply.response.is_ok(Some(Payload::Item(entry))),
            Err(e) => reply.response.reports(e),
        };
    match r {
        Ok(entry) => {
            let views = format_views(entry.formats@);
            assert forall|k: int| 0 <= k < views.len() implies #[trigger] views[k]
                == entry.formats@[k]@ by {}
            if before.store.db.formats.contains_key((hyphenated_text(id.bits), mime)) {
                let k = choose|k: int| 0 <= k < views.len() && (#[trigger] views[k]).mime == mime;
                assert(entry.formats@[k].mime@ == mime);
            }
            assert forall|k: int|
                0 <= k < entry.formats@.len() && (
                #[trigger] entry.formats@[k]).mime@ == mime implies {
                &&& before.store.db.formats.contains_key((hyphenated_text(id.bits), mime))
                &&& entry.formats@[k].size == before.store.db.formats[(
                    hyphenated_text(id.bits),
                    mime,
                )].size as u64
                &&& entry.formats@[k].blob_hash@ == before.store.db.formats[(
                    hyphenated_text(id.bits),
                    mime,
                )].blob_hash
                &&& entry.formats@[k].item_id == id
            } by {
                assert(views[k].mime == mime);
            }
        },
        Err(_) => {},
    }
}

/// Pruning deletes every item created more than a millisecond before the days of
/// retention began, keeps every item created within them, and tells watchers of
/// each item that it deletes. Left out is a retention that reaches back beyond
/// all dates.
pub proof fn law_pruning_by_age(
    before: StoreState,
    after: StoreState,
    now: Timestamp,
    days: u64,
    events: Seq<WatchEvent>,
    id: ItemId,
    mime: Seq<char>,
)
    requires
        is_sound(before),
        now.wf(),
        now.nanos - days * 86_400_000_000_000 >= MIN_NANOS,
        is_pruning(before, after, now, days, events),
        before.db.items.contains_key(hyphenated_text(id.bits)),
    ensures
        ({
            let text = hyphenated_text(id.bits);
            let age = now.nanos - before.db.items[text].created_at * 1_000_000;
            &&& age <= days * 86_400_000_000_000 ==> after.db.items.contains_key(text)
                && after.content(id, mime) == before.content(id, mime)
            &&& age >= days * 86_400_000_000_000 + 1_000_000 ==> !after.db.items.contains_key(text)
                && after.content(id, mime) is None && events.contains(
                WatchEvent::ItemDeleted { id },
            )
        }),
{
    let cutoff = now.less(days * 86_400_000_000_000);
    lemma_ms_fits(cutoff);
    law_only_older_items_go(before, cutoff.ms() as i64, id, mime);
    let text = hyphenated_text(id.bits);
    let created = before.db.items[text].created_at;
    if now.nanos - created * 1_000_000 >= days * 86_400_000_000_000 + 1_000_000 {
        assert(created < cutoff.ms());
        assert(is_old(before.db.items, hyphenated_text(id.bits), cutoff.ms() as i64));
    }
}

/// A bulk deletion at a cutoff deletes the items created before it and keeps the
/// others; those it deletes are told, and the answer says how many they were.
pub proof fn law_bulk_deletion_answers(
    before: DaemonView,
    after: DaemonView,
    cutoff: Timestamp,
    reply: Reply,
    id: ItemId,
)
    requires
        is_sound(before.store),
        cutoff.wf(),
        answers(before, after, (Request::DeleteOlderThan { cutoff }), Outcome::Reply(reply)),
        before.store.db.items.contains_key(hyphenated_text(id.bits)),
    ensures
        ({
            let text = hyphenated_text(id.bits);
            let created = before.store.db.items[text].created_at;
            &&& created >= cutoff.ms() ==> after.store.db.items.contains_key(text)
            &&& created < cutoff.ms() ==> !after.store.db.items.contains_key(text)
                && reply.events@.contains(WatchEvent::ItemDeleted { id })
        }),
        reply.response.ok,
        reply.response.data matches Some(Payload::Deleted(n)) && n == reply.events@.len() as u64,
{
    lemma_ms_fits(cutoff);
    law_only_older_items_go(before.store, cutoff.ms() as i64, id, Seq::empty());
    let text = hyphenated_text(id.bits);
    if before.store.db.items[text].created_at < cutoff.ms() {
        assert(is_old(before.store.db.items, hyphenated_text(id.bits), cutoff.ms() as i64));
    }
}

} // verus!
