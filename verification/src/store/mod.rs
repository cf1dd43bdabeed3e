//! The [`Store`] is the primary public API of the richclip library.
//!
//! It combines the item/format index (`db`) with the content-addressed blobs
//! (`blob`). Blobs that lose all `formats` references are deleted inline (no
//! deferred GC).

pub mod blob;
pub mod db;
pub mod laws;
pub mod table;

// Re-export so callers can hash bytes without naming the module.
pub use blob::blob_hash;

use crate::clock::{to_epoch_ms, Timestamp};
use crate::error::{Error, Result};
use crate::ids::{hyphenated_text, is_v7, now_v7, ItemId};
use crate::model::{Format, Item, ItemWithFormats};
use crate::store::blob::{
    blake3_hex, blobs_replayed, delete_blob, read_blob, with_blob, write_blob, Blob, BlobChange,
    BlobDir,
};
use crate::store::db::{
    blob_hash_has_references, bump_updated_at, delete_format_row, delete_formats_for_item,
    delete_item_row, delete_items_older_than, format_views, id_of_text, ids_of, insert_item,
    is_list_result, is_old, is_old_listing, item_of, limit_of, lists_formats, mime_of,
    require_item, stored_format, stored_id, upsert_format, Change, Db, DbState, FormatData,
    FormatRow, ItemRow, ItemTimes,
};
use crate::store::table::{kept, table, unique_keys};
use crate::text::{same_text, texts};
use vstd::prelude::*;

verus! {

// ---------------------------------------------------------------------------
// The state of a store, and what each operation makes of it
// ---------------------------------------------------------------------------

/// The tables and the blobs, by hash.
#[verifier::ext_equal]
pub struct StoreState {
    pub db: DbState,
    pub blobs: Map<Seq<char>, Seq<u8>>,
}

/// MIME types and contents, in order.
pub open spec fn inputs(list: Seq<(String, Vec<u8>)>) -> Seq<(Seq<char>, Seq<u8>)> {
    list.map_values(|p: (String, Vec<u8>)| (p.0@, p.1@))
}

/// The blobs once all contents are written.
pub open spec fn with_blobs(
    blobs: Map<Seq<char>, Seq<u8>>,
    list: Seq<(Seq<char>, Seq<u8>)>,
) -> Map<Seq<char>, Seq<u8>>
    decreases list.len(),
{
    if list.len() == 0 {
        blobs
    } else {
        with_blob(with_blobs(blobs, list.drop_last()), list.last().1)
    }
}

/// What is stored of a format that holds `bytes` and was captured at `now`.
pub open spec fn format_data(bytes: Seq<u8>, now: Timestamp) -> FormatData {
    FormatData {
        blob_hash: blake3_hex(bytes),
        size: bytes.len() as u64 as i64,
        captured_at: now.ms() as i64,
    }
}

/// The tables once all formats are set on an item; of two with the same MIME
/// type the later one stays.
pub open spec fn with_formats(
    db: DbState,
    id: Seq<char>,
    now: Timestamp,
    list: Seq<(Seq<char>, Seq<u8>)>,
) -> DbState
    decreases list.len(),
{
    if list.len() == 0 {
        db
    } else {
        with_formats(db, id, now, list.drop_last()).with_format(
            id,
            list.last().0,
            format_data(list.last().1, now),
        )
    }
}

/// The change took the last reference to the blob.
pub open spec fn is_released(before: DbState, after: DbState, hash: Seq<char>) -> bool {
    before.references(hash) && !after.references(hash)
}

/// Of a blob: the change did not take its last reference.
pub open spec fn not_released(before: DbState, after: DbState) -> spec_fn(Seq<char>, Seq<u8>) -> bool {
    |h: Seq<char>, bytes: Seq<u8>| !is_released(before, after, h)
}

/// The blobs without those whose last reference the change took.
pub open spec fn cleaned(
    blobs: Map<Seq<char>, Seq<u8>>,
    before: DbState,
    after: DbState,
) -> Map<Seq<char>, Seq<u8>> {
    kept(blobs, not_released(before, after))
}

impl StoreState {
    /// After one content was written, and nothing else.
    pub open spec fn blob_written(self, bytes: Seq<u8>) -> StoreState {
        StoreState { db: self.db, blobs: with_blob(self.blobs, bytes) }
    }

    /// After contents were written, and nothing else.
    pub open spec fn blobs_written(self, formats: Seq<(Seq<char>, Seq<u8>)>) -> StoreState {
        StoreState { db: self.db, blobs: with_blobs(self.blobs, formats) }
    }

    /// After a new item was added.
    pub open spec fn added(
        self,
        id: ItemId,
        now: Timestamp,
        formats: Seq<(Seq<char>, Seq<u8>)>,
    ) -> StoreState {
        let text = hyphenated_text(id.bits);
        let times = ItemTimes { created_at: now.ms() as i64, updated_at: now.ms() as i64 };
        StoreState {
            db: with_formats(self.db.with_item(text, times), text, now, formats),
            blobs: with_blobs(self.blobs, formats),
        }
    }

    /// After one format of an existing item was added or replaced.
    pub open spec fn format_set(
        self,
        id: ItemId,
        now: Timestamp,
        mime: Seq<char>,
        bytes: Seq<u8>,
    ) -> StoreState {
        let text = hyphenated_text(id.bits);
        let db = self.db.with_format(text, mime, format_data(bytes, now)).touched(
            text,
            now.ms() as i64,
        );
        StoreState { db, blobs: cleaned(with_blob(self.blobs, bytes), self.db, db) }
    }

    /// After one format of an existing item was removed.
    pub open spec fn format_removed(
        self,
        id: ItemId,
        now: Timestamp,
        mime: Seq<char>,
    ) -> StoreState {
        let text = hyphenated_text(id.bits);
        let db = self.db.without_format(text, mime).touched(text, now.ms() as i64);
        StoreState { db, blobs: cleaned(self.blobs, self.db, db) }
    }

    /// After an item was deleted with its formats.
    pub open spec fn item_deleted(self, id: ItemId) -> StoreState {
        let text = hyphenated_text(id.bits);
        let db = self.db.without_formats_of(text).without_item(text);
        StoreState { db, blobs: cleaned(self.blobs, self.db, db) }
    }

    /// After the items created before the cutoff were deleted.
    pub open spec fn older_deleted(self, cutoff_ms: i64) -> StoreState {
        let db = self.db.without_old_formats(cutoff_ms).without_old_items(cutoff_ms);
        StoreState { db, blobs: cleaned(self.blobs, self.db, db) }
    }

    /// After the formats of the given MIME types were removed, one by one.
    pub open spec fn formats_removed(
        self,
        id: ItemId,
        now: Timestamp,
        mimes: Seq<Seq<char>>,
    ) -> StoreState
        decreases mimes.len(),
    {
        if mimes.len() == 0 {
            self
        } else {
            self.formats_removed(id, now, mimes.drop_last()).format_removed(id, now, mimes.last())
        }
    }

    /// After the given formats were set, one by one.
    pub open spec fn formats_set(
        self,
        id: ItemId,
        now: Timestamp,
        list: Seq<(Seq<char>, Seq<u8>)>,
    ) -> StoreState
        decreases list.len(),
    {
        if list.len() == 0 {
            self
        } else {
            self.formats_set(id, now, list.drop_last()).format_set(
                id,
                now,
                list.last().0,
                list.last().1,
            )
        }
    }

    /// After an item was updated: removes first, then sets.
    pub open spec fn updated(
        self,
        id: ItemId,
        now: Timestamp,
        removes: Seq<Seq<char>>,
        sets: Seq<(Seq<char>, Seq<u8>)>,
    ) -> StoreState {
        self.formats_removed(id, now, removes).formats_set(id, now, sets)
    }

    /// An update can be carried out: there is nothing to do, or the item is
    /// there with each MIME type to remove, none of them named twice.
    pub open spec fn can_update(
        self,
        id: ItemId,
        removes: Seq<Seq<char>>,
        sets: Seq<(Seq<char>, Seq<u8>)>,
    ) -> bool {
        ||| removes.len() == 0 && sets.len() == 0
        ||| {
            &&& self.db.items.contains_key(hyphenated_text(id.bits))
            &&& removes.no_duplicates()
            &&& forall|i: int|
                0 <= i < removes.len() ==> self.db.formats.contains_key(
                    (hyphenated_text(id.bits), #[trigger] removes[i]),
                )
        }
    }
}

// ---------------------------------------------------------------------------
// The store
// ---------------------------------------------------------------------------

/// The richclip storage layer: item/format index + blobs.
pub struct Store {
    db: Db,
    blobs: BlobDir,
}

impl View for Store {
    type V = StoreState;

    closed spec fn view(&self) -> StoreState {
        StoreState { db: self.db@, blobs: self.blobs@ }
    }
}

impl Store {
    /// Both parts are well-formed.
    pub closed spec fn wf(self) -> bool {
        self.db.wf() && self.blobs.wf()
    }

    /// The state that the pending statements and steps started from.
    pub closed spec fn base_state(self) -> StoreState {
        StoreState { db: self.db.base_state(), blobs: self.blobs.base_state() }
    }

    /// The steps that the blob files are to follow.
    pub closed spec fn steps(self) -> Seq<BlobChange> {
        self.blobs.pending()
    }

    /// The state of the store where the blob files were those of `dir` before
    /// the pending steps, whether they were read or not.
    pub open spec fn on(self, dir: Map<Seq<char>, Seq<u8>>) -> StoreState {
        StoreState { db: self@.db, blobs: blobs_replayed(dir, self.steps()) }
    }

    // ------------------------------------------------------------------
    // Construction
    // ------------------------------------------------------------------

    /// Open a store on the rows of both tables and on blobs read from disk.
    pub fn open(items: Vec<ItemRow>, formats: Vec<FormatRow>, blobs: Vec<Blob>) -> (r: Result<Store>)
        ensures
            match r {
                Ok(store) => {
                    &&& unique_keys(items@)
                    &&& unique_keys(formats@)
                    &&& store.wf()
                    &&& store.base_state() == store@
                    &&& store.steps().len() == 0
                    &&& store@.db == (DbState { items: table(items@), formats: table(formats@) })
                    &&& forall|h: Seq<char>| #[trigger]
                        store@.blobs.contains_key(h) <==> exists|i: int|
                            0 <= i < blobs@.len() && (#[trigger] blobs@[i]).hash@ == h
                    &&& forall|i: int|
                        0 <= i < blobs@.len() && (forall|j: int|
                            0 <= j < i ==> (#[trigger] blobs@[j]).hash@ != blobs@[i].hash@)
                            ==> store@.blobs[(#[trigger] blobs@[i]).hash@] == blobs@[i].bytes@
                },
                Err(e) => if !unique_keys(items@) {
                    e.is_database("UNIQUE constraint failed: items.id"@)
                } else {
                    &&& !unique_keys(formats@)
                    &&& e.is_database("UNIQUE constraint failed: formats.item_id, formats.mime"@)
                },
            },
    {
        let db = match Db::from_rows(items, formats) {
            Ok(db) => db,
            Err(e) => {
                return Err(e);
            },
        };
        let mut dir = BlobDir::empty();
        let mut i: usize = 0;
        while i < blobs.len()
            invariant
                i <= blobs@.len(),
                dir.wf(),
                dir.pending().len() == 0,
                dir.base_state() == dir@,
                forall|h: Seq<char>| #[trigger]
                    dir@.contains_key(h) <==> exists|j: int|
                        0 <= j < i && (#[trigger] blobs@[j]).hash@ == h,
                forall|k: int|
                    0 <= k < i && (forall|j: int|
                        0 <= j < k ==> (#[trigger] blobs@[j]).hash@ != blobs@[k].hash@)
                        ==> dir@[(#[trigger] blobs@[k]).hash@] == blobs@[k].bytes@,
            decreases blobs@.len() - i,
        {
            let ghost before = dir@;
            dir.load(blobs[i].hash.clone(), crate::text::clone_bytes(blobs[i].bytes.as_slice()));
            assert forall|h: Seq<char>| #[trigger] dir@.contains_key(h) <==> exists|j: int|
                0 <= j < i + 1 && (#[trigger] blobs@[j]).hash@ == h by {
                if dir@.contains_key(h) {
                    if before.contains_key(h) {
                        let j = choose|j: int| 0 <= j < i && (#[trigger] blobs@[j]).hash@ == h;
                        assert(blobs@[j].hash@ == h);
                    } else {
                        assert(blobs@[i as int].hash@ == h);
                    }
                }
            }
            assert forall|k: int|
                0 <= k < i + 1 && (forall|j: int|
                    0 <= j < k ==> (#[trigger] blobs@[j]).hash@ != blobs@[k].hash@) implies dir@[(
            #[trigger] blobs@[k]).hash@] == blobs@[k].bytes@ by {
                if k < i {
                    assert(before.contains_key(blobs@[k].hash@));
                } else {
                    assert(!before.contains_key(blobs@[i as int].hash@));
                }
            }
            i += 1;
        }
        Ok(Store { db, blobs: dir })
    }

    /// Hand out what is to be done to the database and to the blob files: the
    /// statements and steps since the store was opened or the journal taken.
    pub fn take_journal(&mut self) -> (r: (Vec<Change>, Vec<BlobChange>))
        requires
            old(self).wf(),
        ensures
            final(self).wf(),
            final(self)@ == old(self)@,
            final(self).base_state() == old(self)@,
            final(self).steps().len() == 0,
            old(self).base_state().db.replay(r.0@) == old(self)@.db,
            r.1@ == old(self).steps(),
            blobs_replayed(old(self).base_state().blobs, r.1@) == old(self)@.blobs,
    {
        let changes = self.db.take_journal();
        let blob_changes = self.blobs.take_journal();
        (changes, blob_changes)
    }

    // ------------------------------------------------------------------
    // Mutations
    // ------------------------------------------------------------------

    /// Create a new item with one or more formats, all in one transaction.
    ///
    /// Returns the new item's identity (a version 7 UUID). It fails only where
    /// that identity is already taken.
    pub fn add_item(&mut self, formats: &[(String, Vec<u8>)]) -> (r: Result<ItemId>)
        requires
            old(self).wf(),
        ensures
            final(self).wf(),
            final(self).base_state() == old(self).base_state(),
            match r {
                Ok(id) => {
                    &&& is_v7(id)
                    &&& !old(self)@.db.items.contains_key(hyphenated_text(id.bits))
                    &&& exists|now: Timestamp| #[trigger]
                        now.wf() && final(self)@ == old(self)@.added(id, now, inputs(formats@)) && (
                        forall|dir: Map<Seq<char>, Seq<u8>>| #[trigger]
                            final(self).on(dir) == old(self).on(dir).added(
                                id,
                                now,
                                inputs(formats@),
                            ))
                },
                Err(e) => {
                    &&& e.is_database("UNIQUE constraint failed: items.id"@)
                    &&& exists|id: ItemId| #[trigger]
                        is_v7(id) && old(self)@.db.items.contains_key(hyphenated_text(id.bits))
                    &&& final(self)@ == old(self)@.blobs_written(inputs(formats@))
                    &&& forall|dir: Map<Seq<char>, Seq<u8>>| #[trigger]
                        final(self).on(dir) == old(self).on(dir).blobs_written(inputs(formats@))
                },
            },
    {
        let now = Timestamp::now();
        let id = now_v7();
        let ghost before = self@;
        let r = self.add_item_at(id, now, formats);
        assert(now.wf());
        match r {
            Ok(_) => Ok(id),
            Err(e) => {
                assert(is_v7(id) && before.db.items.contains_key(hyphenated_text(id.bits)));
                Err(e)
            },
        }
    }

    /// Create the item `id` at the instant `now`.
    pub fn add_item_at(&mut self, id: ItemId, now: Timestamp, formats: &[(String, Vec<u8>)]) -> (r:
        Result<()>)
        requires
            old(self).wf(),
            now.wf(),
        ensures
            final(self).wf(),
            final(self).base_state() == old(self).base_state(),
            match r {
                Ok(_) => {
                    &&& !old(self)@.db.items.contains_key(hyphenated_text(id.bits))
                    &&& final(self)@ == old(self)@.added(id, now, inputs(formats@))
                    &&& forall|dir: Map<Seq<char>, Seq<u8>>| #[trigger]
                        final(self).on(dir) == old(self).on(dir).added(id, now, inputs(formats@))
                },
                Err(e) => {
                    &&& old(self)@.db.items.contains_key(hyphenated_text(id.bits))
                    &&& e.is_database("UNIQUE constraint failed: items.id"@)
                    &&& final(self)@ == old(self)@.blobs_written(inputs(formats@))
                    &&& forall|dir: Map<Seq<char>, Seq<u8>>| #[trigger]
                        final(self).on(dir) == old(self).on(dir).blobs_written(inputs(formats@))
                },
            },
    {
        let item = Item { id, created_at: now, updated_at: now };
        let ghost start = self@;
        let ghost list = inputs(formats@);

        // Write blobs first (idempotent; worst case leaves an orphan blob that
        // will be deduplicated on the next identical write).
        let mut hashes: Vec<String> = Vec::new();
        let mut i: usize = 0;
        assert(list.take(0) =~= Seq::empty());
        while i < formats.len()
            invariant
                i <= formats@.len(),
                list == inputs(formats@),
                self.wf(),
                self.base_state() == old(self).base_state(),
                self.db@ == start.db,
                self.blobs@ == with_blobs(start.blobs, list.take(i as int)),
                forall|dir: Map<Seq<char>, Seq<u8>>| #[trigger]
                    blobs_replayed(dir, self.blobs.pending()) == with_blobs(
                        blobs_replayed(dir, old(self).blobs.pending()),
                        list.take(i as int),
                    ),
                hashes@.len() == i,
                forall|j: int| 0 <= j < i ==> (#[trigger] hashes@[j])@ == blake3_hex(list[j].1),
            decreases formats@.len() - i,
        {
            let hash = write_blob(&mut self.blobs, formats[i].1.as_slice());
            hashes.push(hash);
            assert(list.take(i + 1).drop_last() =~= list.take(i as int));
            assert(list.take(i + 1).last() == list[i as int]);
            i += 1;
        }
        assert(list.take(i as int) =~= list);

        match insert_item(&mut self.db, &item) {
            Ok(_) => {},
            Err(e) => {
                return Err(e);
            },
        }
        let ghost text = hyphenated_text(id.bits);
        let ghost inserted = self.db@;
        let mut i: usize = 0;
        assert(list.take(0) =~= Seq::empty());
        while i < formats.len()
            invariant
                i <= formats@.len(),
                now.wf(),
                list == inputs(formats@),
                self.wf(),
                self.base_state() == old(self).base_state(),
                self.blobs@ == with_blobs(start.blobs, list),
                forall|dir: Map<Seq<char>, Seq<u8>>| #[trigger]
                    blobs_replayed(dir, self.blobs.pending()) == with_blobs(
                        blobs_replayed(dir, old(self).blobs.pending()),
                        list,
                    ),
                text == hyphenated_text(id.bits),
                inserted.items.contains_key(text),
                self.db@.items == inserted.items,
                self.db@ == with_formats(inserted, text, now, list.take(i as int)),
                hashes@.len() == formats@.len(),
                forall|j: int|
                    0 <= j < hashes@.len() ==> (#[trigger] hashes@[j])@ == blake3_hex(list[j].1),
            decreases formats@.len() - i,
        {
            let fmt = Format {
                item_id: id,
                mime: formats[i].0.clone(),
                blob_hash: hashes[i].clone(),
                size: formats[i].1.len() as u64,
                captured_at: now,
            };
            assert(stored_format(fmt@) == format_data(list[i as int].1, now));
            match upsert_format(&mut self.db, &fmt) {
                Ok(_) => {},
                Err(e) => {
                    return Err(e);
                },
            }
            assert(list.take(i + 1).drop_last() =~= list.take(i as int));
            assert(list.take(i + 1).last() == list[i as int]);
            i += 1;
        }
        assert(list.take(i as int) =~= list);
        Ok(())
    }

    /// Add or replace one format on an existing item.
    ///
    /// Bumps `updated_at`. Returns `Err(NotFound)` if the item does not exist.
    pub fn set_format(&mut self, id: ItemId, mime: &str, bytes: &[u8]) -> (r: Result<()>)
        requires
            old(self).wf(),
        ensures
            final(self).wf(),
            final(self).base_state() == old(self).base_state(),
            match r {
                Ok(_) => {
                    &&& old(self)@.db.items.contains_key(hyphenated_text(id.bits))
                    &&& exists|now: Timestamp| #[trigger]
                        now.wf() && final(self)@ == old(self)@.format_set(id, now, mime@, bytes@)
                            && (forall|dir: Map<Seq<char>, Seq<u8>>| #[trigger]
                            final(self).on(dir) == old(self).on(dir).format_set(
                                id,
                                now,
                                mime@,
                                bytes@,
                            ))
                },
                Err(e) => {
                    &&& !old(self)@.db.items.contains_key(hyphenated_text(id.bits))
                    &&& e is NotFound
                    &&& final(self)@ == old(self)@.blob_written(bytes@)
                    &&& forall|dir: Map<Seq<char>, Seq<u8>>| #[trigger]
                        final(self).on(dir) == old(self).on(dir).blob_written(bytes@)
                },
            },
    {
        let now = Timestamp::now();
        let r = self.set_format_at(id, now, mime, bytes);
        assert(now.wf());
        r
    }

    /// Add or replace one format at the instant `now`.
    pub fn set_format_at(&mut self, id: ItemId, now: Timestamp, mime: &str, bytes: &[u8]) -> (r:
        Result<()>)
        requires
            old(self).wf(),
            now.wf(),
        ensures
            final(self).wf(),
            final(self).base_state() == old(self).base_state(),
            match r {
                Ok(_) => {
                    &&& old(self)@.db.items.contains_key(hyphenated_text(id.bits))
                    &&& final(self)@ == old(self)@.format_set(id, now, mime@, bytes@)
                    &&& forall|dir: Map<Seq<char>, Seq<u8>>| #[trigger]
                        final(self).on(dir) == old(self).on(dir).format_set(
                            id,
                            now,
                            mime@,
                            bytes@,
                        )
                },
                Err(e) => {
                    &&& !old(self)@.db.items.contains_key(hyphenated_text(id.bits))
                    &&& e is NotFound
                    &&& final(self)@ == old(self)@.blob_written(bytes@)
                    &&& forall|dir: Map<Seq<char>, Seq<u8>>| #[trigger]
                        final(self).on(dir) == old(self).on(dir).blob_written(bytes@)
                },
            },
    {
        let ghost start = self@;
        let ghost key = (hyphenated_text(id.bits), mime@);
        let hash = write_blob(&mut self.blobs, bytes);

        // Capture any old hash before the row is overwritten.
        let old_hash: Option<String> = match db::get_format(&self.db, id, mime) {
            Ok(f) => Some(f.blob_hash),
            Err(_) => None,
        };

        let fmt = Format {
            item_id: id,
            mime: mime.to_owned(),
            blob_hash: hash.clone(),
            size: bytes.len() as u64,
            captured_at: now,
        };
        assert(stored_format(fmt@) == format_data(bytes@, now));
        match require_item(&self.db, id) {
            Ok(_) => {},
            Err(e) => {
                return Err(e);
            },
        }
        match upsert_format(&mut self.db, &fmt) {
            Ok(_) => {},
            Err(e) => {
                return Err(e);
            },
        }
        match bump_updated_at(&mut self.db, id, now) {
            Ok(_) => {},
            Err(e) => {
                return Err(e);
            },
        }
        let ghost after = self.db@;
        let ghost written = self.blobs;
        proof {
            laws::lemma_released_by_one(start.db, after, key);
            assert(after.formats.contains_key(key) && after.formats[key].blob_hash == hash@);
            assert(after.references(hash@));
        }

        // Inline blob cleanup: if the old hash changed and nothing else
        // references the old blob, delete it.
        match old_hash {
            Some(old) => {
                if !same_text(old.as_str(), hash.as_str()) && !blob_hash_has_references(
                    &self.db,
                    old.as_str(),
                ) {
                    delete_blob(&mut self.blobs, old.as_str());
                    assert(start.db.formats.contains_key(key) && start.db.formats[key].blob_hash
                        == old@);
                    assert(start.db.references(old@));
                    proof {
                        lemma_cleaned_of_one(written, self.blobs, start.db, after, old@);
                    }
                    return Ok(());
                }
            },
            None => {},
        }
        proof {
            lemma_nothing_cleaned(self.blobs, start.db, after);
        }
        Ok(())
    }

    /// Remove one format from an item; inline-clean its blob if now
    /// unreferenced. Bumps `updated_at`. Returns `Err(NotFound)` if the
    /// item or the mime are missing.
    pub fn remove_format(&mut self, id: ItemId, mime: &str) -> (r: Result<()>)
        requires
            old(self).wf(),
        ensures
            final(self).wf(),
            final(self).base_state() == old(self).base_state(),
            match r {
                Ok(_) => {
                    &&& old(self)@.db.items.contains_key(hyphenated_text(id.bits))
                    &&& old(self)@.db.formats.contains_key((hyphenated_text(id.bits), mime@))
                    &&& exists|now: Timestamp| #[trigger]
                        now.wf() && final(self)@ == old(self)@.format_removed(id, now, mime@) && (
                        forall|dir: Map<Seq<char>, Seq<u8>>| #[trigger]
                            final(self).on(dir) == old(self).on(dir).format_removed(
                                id,
                                now,
                                mime@,
                            ))
                },
                Err(e) => {
                    &&& !(old(self)@.db.items.contains_key(hyphenated_text(id.bits)) && old(
                        self,
                    )@.db.formats.contains_key((hyphenated_text(id.bits), mime@)))
                    &&& e is NotFound
                    &&& final(self)@ == old(self)@
                    &&& final(self).steps() == old(self).steps()
                },
            },
    {
        let now = Timestamp::now();
        let r = self.remove_format_at(id, now, mime);
        assert(now.wf());
        r
    }

    /// Remove one format at the instant `now`.
    pub fn remove_format_at(&mut self, id: ItemId, now: Timestamp, mime: &str) -> (r: Result<()>)
        requires
            old(self).wf(),
            now.wf(),
        ensures
            final(self).wf(),
            final(self).base_state() == old(self).base_state(),
            match r {
                Ok(_) => {
                    &&& old(self)@.db.items.contains_key(hyphenated_text(id.bits))
                    &&& old(self)@.db.formats.contains_key((hyphenated_text(id.bits), mime@))
                    &&& final(self)@ == old(self)@.format_removed(id, now, mime@)
                    &&& forall|dir: Map<Seq<char>, Seq<u8>>| #[trigger]
                        final(self).on(dir) == old(self).on(dir).format_removed(id, now, mime@)
                },
                Err(e) => {
                    &&& !(old(self)@.db.items.contains_key(hyphenated_text(id.bits)) && old(
                        self,
                    )@.db.formats.contains_key((hyphenated_text(id.bits), mime@)))
                    &&& e is NotFound
                    &&& final(self)@ == old(self)@
                    &&& final(self).steps() == old(self).steps()
                },
            },
    {
        let ghost start = self@;
        let ghost key = (hyphenated_text(id.bits), mime@);
        // Verify the item exists first so the error is a clear NotFound.
        match require_item(&self.db, id) {
            Ok(_) => {},
            Err(e) => {
                return Err(e);
            },
        }
        let old_hash = match delete_format_row(&mut self.db, id, mime) {
            Ok(h) => h,
            Err(e) => {
                return Err(e);
            },
        };
        match bump_updated_at(&mut self.db, id, now) {
            Ok(_) => {},
            Err(e) => {
                return Err(e);
            },
        }
        let ghost after = self.db@;
        proof {
            laws::lemma_released_by_one(start.db, after, key);
            assert(start.db.formats.contains_key(key) && start.db.formats[key].blob_hash
                == old_hash@);
            assert(start.db.references(old_hash@));
        }
        let ghost kept_blobs = self.blobs;
        if !blob_hash_has_references(&self.db, old_hash.as_str()) {
            delete_blob(&mut self.blobs, old_hash.as_str());
            proof {
                lemma_cleaned_of_one(kept_blobs, self.blobs, start.db, after, old_hash@);
            }
        } else {
            proof {
                lemma_nothing_cleaned(self.blobs, start.db, after);
            }
        }
        Ok(())
    }

    /// Delete an item and all of its formats; inline-clean unreferenced blobs.
    ///
    /// Returns `Err(NotFound)` if the item does not exist.
    pub fn delete_item(&mut self, id: ItemId) -> (r: Result<()>)
        requires
            old(self).wf(),
        ensures
            final(self).wf(),
            final(self).base_state() == old(self).base_state(),
            match r {
                Ok(_) => {
                    &&& old(self)@.db.items.contains_key(hyphenated_text(id.bits))
                    &&& final(self)@ == old(self)@.item_deleted(id)
                    &&& forall|dir: Map<Seq<char>, Seq<u8>>| #[trigger]
                        final(self).on(dir) == old(self).on(dir).item_deleted(id)
                },
                Err(e) => {
                    &&& !old(self)@.db.items.contains_key(hyphenated_text(id.bits))
                    &&& e is NotFound
                    &&& final(self)@ == old(self)@
                    &&& final(self).steps() == old(self).steps()
                },
            },
    {
        let ghost start = self@;
        let ghost text = hyphenated_text(id.bits);
        match require_item(&self.db, id) {
            Ok(_) => {},
            Err(e) => {
                return Err(e);
            },
        }
        let hashes = delete_formats_for_item(&mut self.db, id);
        assert(!self.db@.has_formats(text));
        match delete_item_row(&mut self.db, id) {
            Ok(_) => {},
            Err(e) => {
                return Err(e);
            },
        }
        let ghost after = self.db@;
        remove_orphans(&self.db, &mut self.blobs, &hashes);
        proof {
            assert forall|h: Seq<char>| #[trigger] is_released(start.db, after, h) <==> texts(
                hashes@,
            ).contains(h) && !after.references(h) by {
                laws::lemma_released_with_item(start.db, text, h);
            }
            lemma_cleaned_of_orphans(start.db, after, texts(hashes@));
        }
        Ok(())
    }

    /// Delete all items whose `created_at` is before `cutoff`. Inline-cleans
    /// unreferenced blobs. Returns the number of items deleted.
    pub fn delete_older_than(&mut self, cutoff: Timestamp) -> (r: u64)
        requires
            old(self).wf(),
            cutoff.wf(),
        ensures
            final(self).wf(),
            final(self).base_state() == old(self).base_state(),
            final(self)@ == old(self)@.older_deleted(cutoff.ms() as i64),
            forall|dir: Map<Seq<char>, Seq<u8>>| #[trigger]
                final(self).on(dir) == old(self).on(dir).older_deleted(cutoff.ms() as i64),
            r == laws::old_items(old(self)@.db, cutoff.ms() as i64).len(),
    {
        let ids = self.delete_older(cutoff);
        proof {
            let cutoff_ms = cutoff.ms() as i64;
            let listed = choose|listed: Seq<Seq<char>>| #[trigger]
                is_old_listing(old(self)@.db, cutoff_ms, listed) && ids@ == ids_of(listed);
            laws::lemma_old_listing(old(self)@.db, cutoff_ms, listed);
        }
        ids.len() as u64
    }

    /// Delete all items whose `created_at` is before `cutoff`. Inline-cleans
    /// unreferenced blobs. Returns the items deleted, in the order of their
    /// texts.
    pub fn delete_older(&mut self, cutoff: Timestamp) -> (r: Vec<ItemId>)
        requires
            old(self).wf(),
            cutoff.wf(),
        ensures
            final(self).wf(),
            final(self).base_state() == old(self).base_state(),
            final(self)@ == old(self)@.older_deleted(cutoff.ms() as i64),
            forall|dir: Map<Seq<char>, Seq<u8>>| #[trigger]
                final(self).on(dir) == old(self).on(dir).older_deleted(cutoff.ms() as i64),
            exists|ids: Seq<Seq<char>>| #[trigger]
                is_old_listing(old(self)@.db, cutoff.ms() as i64, ids) && r@ == ids_of(ids),
            forall|u: u128|
                is_old(
                    old(self)@.db.items,
                    #[trigger] hyphenated_text(u),
                    cutoff.ms() as i64,
                ) ==> r@.contains(ItemId { bits: u }),
    {
        let cutoff_ms = to_epoch_ms(cutoff);
        let ghost start = self@;
        let (ids, hashes) = delete_items_older_than(&mut self.db, cutoff_ms);
        let ghost after = self.db@;
        remove_orphans(&self.db, &mut self.blobs, &hashes);
        proof {
            assert forall|h: Seq<char>| #[trigger] is_released(start.db, after, h) <==> texts(
                hashes@,
            ).contains(h) && !after.references(h) by {
                laws::lemma_released_with_old(start.db, cutoff_ms, h);
            }
            lemma_cleaned_of_orphans(start.db, after, texts(hashes@));
        }
        let mut out: Vec<ItemId> = Vec::new();
        let mut i: usize = 0;
        while i < ids.len()
            invariant
                i <= ids@.len(),
                out@.len() == i,
                forall|j: int| 0 <= j < i ==> #[trigger] out@[j] == id_of_text(ids@[j]@),
                forall|j: int, u: u128|
                    0 <= j < i && ids@[j]@ == #[trigger] hyphenated_text(u) ==> (
                    #[trigger] out@[j]).bits == u,
            decreases ids@.len() - i,
        {
            out.push(stored_id(ids[i].as_str()));
            i += 1;
        }
        proof {
            assert(out@ =~= ids_of(texts(ids@)));
            assert forall|u: u128|
                is_old(start.db.items, #[trigger] hyphenated_text(u), cutoff_ms) implies out@.contains(
                ItemId { bits: u },
            ) by {
                let text = hyphenated_text(u);
                assert(texts(ids@).contains(text));
                let j = choose|j: int| 0 <= j < texts(ids@).len() && texts(ids@)[j] == text;
                assert(out@[j].bits == u);
            }
        }
        out
    }

    /// Remove and set formats of an item, all in one transaction: removes
    /// first, then sets. Where the item or a MIME type to remove is missing,
    /// nothing is done and the error is `NotFound`.
    pub fn update_item(
        &mut self,
        id: ItemId,
        removes: &[String],
        sets: &[(String, Vec<u8>)],
    ) -> (r: Result<()>)
        requires
            old(self).wf(),
        ensures
            final(self).wf(),
            final(self).base_state() == old(self).base_state(),
            match r {
                Ok(_) => {
                    &&& old(self)@.can_update(id, texts(removes@), inputs(sets@))
                    &&& exists|now: Timestamp| #[trigger]
                        now.wf() && final(self)@ == old(self)@.updated(
                            id,
                            now,
                            texts(removes@),
                            inputs(sets@),
                        ) && (forall|dir: Map<Seq<char>, Seq<u8>>| #[trigger]
                            final(self).on(dir) == old(self).on(dir).updated(
                                id,
                                now,
                                texts(removes@),
                                inputs(sets@),
                            ))
                },
                Err(e) => {
                    &&& !old(self)@.can_update(id, texts(removes@), inputs(sets@))
                    &&& e is NotFound
                    &&& final(self)@ == old(self)@
                    &&& final(self).steps() == old(self).steps()
                },
            },
    {
        let now = Timestamp::now();
        let r = self.update_item_at(id, now, removes, sets);
        assert(now.wf());
        r
    }

    /// Whether an update can be carried out.
    fn check_update(&self, id: ItemId, removes: &[String], sets: &[(String, Vec<u8>)]) -> (r: bool)
        requires
            self.wf(),
        ensures
            r == self@.can_update(id, texts(removes@), inputs(sets@)),
    {
        let ghost mimes = texts(removes@);
        if removes.len() == 0 && sets.len() == 0 {
            return true;
        }
        if require_item(&self.db, id).is_err() {
            return false;
        }
        let mut i: usize = 0;
        while i < removes.len()
            invariant
                self.wf(),
                i <= removes@.len(),
                mimes == texts(removes@),
                removes@.len() > 0 || sets@.len() > 0,
                self.db@.items.contains_key(hyphenated_text(id.bits)),
                forall|a: int, b: int|
                    0 <= a < b < i ==> #[trigger] mimes[a] != #[trigger] mimes[b],
                forall|a: int|
                    0 <= a < i ==> self.db@.formats.contains_key(
                        (hyphenated_text(id.bits), #[trigger] mimes[a]),
                    ),
            decreases removes@.len() - i,
        {
            assert(mimes[i as int] == removes@[i as int]@);
            if db::get_format(&self.db, id, removes[i].as_str()).is_err() {
                return false;
            }
            let mut j: usize = 0;
            while j < i
                invariant
                    j <= i < removes@.len(),
                    mimes == texts(removes@),
                    sets@.len() == inputs(sets@).len(),
                    removes@.len() > 0 || sets@.len() > 0,
                    forall|a: int| 0 <= a < j ==> #[trigger] mimes[a] != mimes[i as int],
                decreases i - j,
            {
                if same_text(removes[j].as_str(), removes[i].as_str()) {
                    assert(mimes[j as int] == mimes[i as int]);
                    assert(!mimes.no_duplicates());
                    return false;
                }
                j += 1;
            }
            i += 1;
        }
        assert(mimes.no_duplicates()) by {
            assert forall|a: int, b: int|
                0 <= a < mimes.len() && 0 <= b < mimes.len() && a != b implies mimes[a]
                != mimes[b] by {
                if a < b {
                    assert(mimes[a] != mimes[b]);
                } else {
                    assert(mimes[b] != mimes[a]);
                }
            }
        }
        true
    }

    /// Remove and set formats at the instant `now`.
    pub fn update_item_at(
        &mut self,
        id: ItemId,
        now: Timestamp,
        removes: &[String],
        sets: &[(String, Vec<u8>)],
    ) -> (r: Result<()>)
        requires
            old(self).wf(),
            now.wf(),
        ensures
            final(self).wf(),
            final(self).base_state() == old(self).base_state(),
            match r {
                Ok(_) => {
                    &&& old(self)@.can_update(id, texts(removes@), inputs(sets@))
                    &&& final(self)@ == old(self)@.updated(
                        id,
                        now,
                        texts(removes@),
                        inputs(sets@),
                    )
                    &&& forall|dir: Map<Seq<char>, Seq<u8>>| #[trigger]
                        final(self).on(dir) == old(self).on(dir).updated(
                            id,
                            now,
                            texts(removes@),
                            inputs(sets@),
                        )
                },
                Err(e) => {
                    &&& !old(self)@.can_update(id, texts(removes@), inputs(sets@))
                    &&& e is NotFound
                    &&& final(self)@ == old(self)@
                    &&& final(self).steps() == old(self).steps()
                },
            },
    {
        if !self.check_update(id, removes, sets) {
            return Err(Error::NotFound);
        }
        let ghost start = self@;
        let ghost mimes = texts(removes@);
        let ghost list = inputs(sets@);
        let ghost text = hyphenated_text(id.bits);
        let mut i: usize = 0;
        assert(mimes.take(0) =~= Seq::empty());
        while i < removes.len()
            invariant
                i <= removes@.len(),
                now.wf(),
                self.wf(),
                self.base_state() == old(self).base_state(),
                start == old(self)@,
                mimes == texts(removes@),
                list == inputs(sets@),
                text == hyphenated_text(id.bits),
                start.can_update(id, mimes, list),
                self@ == start.formats_removed(id, now, mimes.take(i as int)),
                forall|dir: Map<Seq<char>, Seq<u8>>| #[trigger]
                    self.on(dir) == old(self).on(dir).formats_removed(
                        id,
                        now,
                        mimes.take(i as int),
                    ),
                self@.db.items.dom() == start.db.items.dom(),
                forall|j: int|
                    i <= j < mimes.len() ==> self@.db.formats.contains_key(
                        (text, #[trigger] mimes[j]),
                    ),
            decreases removes@.len() - i,
        {
            let ghost before = self@;
            assert(removes@[i as int]@ == mimes[i as int]);
            assert(self@.db.items.contains_key(text)) by {
                assert(start.db.items.dom().contains(text));
            }
            let step = self.remove_format_at(id, now, removes[i].as_str());
            match step {
                Ok(_) => {},
                Err(e) => {
                    assert(before.db.formats.contains_key((text, mimes[i as int])));
                    return Err(e);
                },
            }
            assert(mimes.take(i + 1).drop_last() =~= mimes.take(i as int));
            assert(mimes.take(i + 1).last() == mimes[i as int]);
            assert forall|j: int| i + 1 <= j < mimes.len() implies self@.db.formats.contains_key(
                (text, #[trigger] mimes[j]),
            ) by {
                assert(mimes[j] != mimes[i as int]);
                assert(before.db.formats.contains_key((text, mimes[j])));
            }
            assert(self@.db.items.dom() =~= start.db.items.dom());
            i += 1;
        }
        assert(mimes.take(i as int) =~= mimes);
        let ghost removed = self@;
        let mut i: usize = 0;
        assert(list.take(0) =~= Seq::empty());
        while i < sets.len()
            invariant
                i <= sets@.len(),
                now.wf(),
                self.wf(),
                self.base_state() == old(self).base_state(),
                start == old(self)@,
                mimes == texts(removes@),
                list == inputs(sets@),
                text == hyphenated_text(id.bits),
                start.can_update(id, mimes, list),
                removed == start.formats_removed(id, now, mimes),
                self@ == removed.formats_set(id, now, list.take(i as int)),
                forall|dir: Map<Seq<char>, Seq<u8>>| #[trigger]
                    self.on(dir) == old(self).on(dir).formats_removed(id, now, mimes).formats_set(
                        id,
                        now,
                        list.take(i as int),
                    ),
                self@.db.items.dom() == start.db.items.dom(),
            decreases sets@.len() - i,
        {
            assert(self@.db.items.contains_key(text)) by {
                assert(start.db.items.dom().contains(text));
            }
            let step = self.set_format_at(id, now, sets[i].0.as_str(), sets[i].1.as_slice());
            match step {
                Ok(_) => {},
                Err(e) => {
                    return Err(e);
                },
            }
            assert(list.take(i + 1).drop_last() =~= list.take(i as int));
            assert(list.take(i + 1).last() == list[i as int]);
            assert(self@.db.items.dom() =~= start.db.items.dom());
            i += 1;
        }
        assert(list.take(i as int) =~= list);
        Ok(())
    }

    // ------------------------------------------------------------------
    // Queries
    // ------------------------------------------------------------------

    /// Fetch a single item together with all of its formats.
    ///
    /// Returns `Err(NotFound)` if the item does not exist.
    pub fn get_item(&self, id: ItemId) -> (r: Result<ItemWithFormats>)
        requires
            self.wf(),
        ensures
            is_item_result(self@.db, id, r),
    {
        let item = match db::get_item(&self.db, id) {
            Ok(item) => item,
            Err(e) => {
                return Err(e);
            },
        };
        match db::get_formats(&self.db, id) {
            Ok(formats) => Ok(ItemWithFormats { item, formats }),
            Err(e) => Err(e),
        }
    }

    /// List items, newest first. Optionally capped by `limit`; optionally
    /// filtered to items that have at least one format with `mime_filter`.
    pub fn list_items(&self, limit: Option<usize>, mime_filter: Option<&str>) -> (r: Result<
        Vec<ItemWithFormats>,
    >)
        requires
            self.wf(),
        ensures
            is_list_result(self@.db, limit_of(limit), mime_of(mime_filter), r),
    {
        db::list_items(&self.db, limit, mime_filter)
    }

    /// Return all formats for `id`. Returns `Err(NotFound)` if the item does
    /// not exist.
    pub fn formats(&self, id: ItemId) -> (r: Result<Vec<Format>>)
        requires
            self.wf(),
        ensures
            match r {
                Ok(list) => {
                    &&& self@.db.items.contains_key(hyphenated_text(id.bits))
                    &&& lists_formats(
                        self@.db,
                        hyphenated_text(id.bits),
                        id,
                        format_views(list@),
                    )
                },
                Err(e) => {
                    &&& !self@.db.items.contains_key(hyphenated_text(id.bits))
                    &&& e is NotFound
                },
            },
    {
        db::get_formats(&self.db, id)
    }

    /// Read the raw blob bytes for `(id, mime)`.
    ///
    /// Returns `Err(NotFound)` if the item or the mime are missing.
    pub fn decode(&self, id: ItemId, mime: &str) -> (r: Result<Vec<u8>>)
        requires
            self.wf(),
        ensures
            match r {
                Ok(bytes) => self@.content(id, mime@) == Some(bytes@),
                Err(e) => self@.content(id, mime@) is None && e is NotFound,
            },
    {
        match db::get_format(&self.db, id, mime) {
            Ok(f) => read_blob(&self.blobs, f.blob_hash.as_str()),
            Err(e) => Err(e),
        }
    }
}

/// What is read of a single item: it and its formats where it is there, else
/// `NotFound`.
pub open spec fn is_item_result(db: DbState, id: ItemId, r: Result<ItemWithFormats>) -> bool {
    let text = hyphenated_text(id.bits);
    match r {
        Ok(entry) => {
            &&& db.items.contains_key(text)
            &&& entry.item == item_of(id, db.items[text])
            &&& lists_formats(db, text, id, format_views(entry.formats@))
        },
        Err(e) => !db.items.contains_key(text) && e is NotFound,
    }
}

impl StoreState {
    /// The bytes stored for an item under a MIME type, if there are any.
    pub open spec fn content(self, id: ItemId, mime: Seq<char>) -> Option<Seq<u8>> {
        let key = (hyphenated_text(id.bits), mime);
        if self.db.formats.contains_key(key) && self.blobs.contains_key(
            self.db.formats[key].blob_hash,
        ) {
            Some(self.blobs[self.db.formats[key].blob_hash])
        } else {
            None
        }
    }
}

/// Of a blob: it is not named, or still referenced.
spec fn not_orphan(db: DbState, hashes: Seq<Seq<char>>) -> spec_fn(Seq<char>, Seq<u8>) -> bool {
    |h: Seq<char>, bytes: Seq<u8>| !(hashes.contains(h) && !db.references(h))
}

/// Where those blobs go that are named and no longer referenced, and these are
/// the released ones, the blobs are cleaned.
proof fn lemma_cleaned_of_orphans(before: DbState, after: DbState, hashes: Seq<Seq<char>>)
    requires
        forall|h: Seq<char>| #[trigger]
            is_released(before, after, h) <==> hashes.contains(h) && !after.references(h),
    ensures
        forall|blobs: Map<Seq<char>, Seq<u8>>| #[trigger]
            kept(blobs, not_orphan(after, hashes)) == cleaned(blobs, before, after),
{
    assert forall|blobs: Map<Seq<char>, Seq<u8>>| #[trigger]
        kept(blobs, not_orphan(after, hashes)) == cleaned(blobs, before, after) by {
        assert(kept(blobs, not_orphan(after, hashes)) =~= cleaned(blobs, before, after));
    }
}

/// Where the one released blob was removed, the blobs are cleaned.
proof fn lemma_cleaned_of_one(
    start: BlobDir,
    end: BlobDir,
    before: DbState,
    after: DbState,
    hash: Seq<char>,
)
    requires
        end@ == start@.remove(hash),
        forall|dir: Map<Seq<char>, Seq<u8>>| #[trigger]
            blobs_replayed(dir, end.pending()) == blobs_replayed(dir, start.pending()).remove(hash),
        forall|h: Seq<char>| #[trigger] is_released(before, after, h) <==> h == hash,
    ensures
        end@ == cleaned(start@, before, after),
        forall|dir: Map<Seq<char>, Seq<u8>>| #[trigger]
            blobs_replayed(dir, end.pending()) == cleaned(
                blobs_replayed(dir, start.pending()),
                before,
                after,
            ),
{
    assert(end@ =~= cleaned(start@, before, after));
    assert forall|dir: Map<Seq<char>, Seq<u8>>| #[trigger]
        blobs_replayed(dir, end.pending()) == cleaned(
            blobs_replayed(dir, start.pending()),
            before,
            after,
        ) by {
        assert(blobs_replayed(dir, end.pending()) =~= cleaned(
            blobs_replayed(dir, start.pending()),
            before,
            after,
        ));
    }
}

/// Where nothing was released, the blobs are clean as they are.
proof fn lemma_nothing_cleaned(dir: BlobDir, before: DbState, after: DbState)
    requires
        forall|h: Seq<char>| !#[trigger] is_released(before, after, h),
    ensures
        dir@ == cleaned(dir@, before, after),
        forall|blobs: Map<Seq<char>, Seq<u8>>| #[trigger]
            blobs_replayed(blobs, dir.pending()) == cleaned(
                blobs_replayed(blobs, dir.pending()),
                before,
                after,
            ),
{
    assert(dir@ =~= cleaned(dir@, before, after));
    assert forall|blobs: Map<Seq<char>, Seq<u8>>| #[trigger]
        blobs_replayed(blobs, dir.pending()) == cleaned(
            blobs_replayed(blobs, dir.pending()),
            before,
            after,
        ) by {
        assert(blobs_replayed(blobs, dir.pending()) =~= cleaned(
            blobs_replayed(blobs, dir.pending()),
            before,
            after,
        ));
    }
}

/// Remove those of the named blobs that no format references.
fn remove_orphans(db: &Db, blobs: &mut BlobDir, hashes: &Vec<String>)
    requires
        db.wf(),
        old(blobs).wf(),
    ensures
        final(blobs).wf(),
        final(blobs).base_state() == old(blobs).base_state(),
        final(blobs)@ == kept(old(blobs)@, not_orphan(db@, texts(hashes@))),
        forall|dir: Map<Seq<char>, Seq<u8>>| #[trigger]
            blobs_replayed(dir, final(blobs).pending()) == kept(
                blobs_replayed(dir, old(blobs).pending()),
                not_orphan(db@, texts(hashes@)),
            ),
{
    let ghost all = texts(hashes@);
    let ghost start = blobs@;
    let mut i: usize = 0;
    assert(blobs@ =~= kept(start, not_orphan(db@, all.take(0))));
    assert forall|dir: Map<Seq<char>, Seq<u8>>| #[trigger]
        blobs_replayed(dir, blobs.pending()) == kept(
            blobs_replayed(dir, old(blobs).pending()),
            not_orphan(db@, all.take(0)),
        ) by {
        assert(blobs_replayed(dir, blobs.pending()) =~= kept(
            blobs_replayed(dir, old(blobs).pending()),
            not_orphan(db@, all.take(0)),
        ));
    }
    while i < hashes.len()
        invariant
            db.wf(),
            blobs.wf(),
            blobs.base_state() == old(blobs).base_state(),
            i <= hashes@.len(),
            all == texts(hashes@),
            blobs@ == kept(start, not_orphan(db@, all.take(i as int))),
            forall|dir: Map<Seq<char>, Seq<u8>>| #[trigger]
                blobs_replayed(dir, blobs.pending()) == kept(
                    blobs_replayed(dir, old(blobs).pending()),
                    not_orphan(db@, all.take(i as int)),
                ),
        decreases hashes@.len() - i,
    {
        let ghost before = blobs.pending();
        let ghost h = all[i as int];
        assert(h == hashes@[i as int]@);
        if !blob_hash_has_references(db, hashes[i].as_str()) {
            delete_blob(blobs, hashes[i].as_str());
        }
        proof {
            let next = all.take(i + 1);
            assert(next =~= all.take(i as int).push(h));
            assert forall|x: Seq<char>| #[trigger] next.contains(x) <==> all.take(
                i as int,
            ).contains(x) || x == h by {
                if next.contains(x) {
                    let j = choose|j: int| 0 <= j < next.len() && next[j] == x;
                    if j < i {
                        assert(all.take(i as int)[j] == x);
                    }
                }
                if all.take(i as int).contains(x) {
                    let j = choose|j: int| 0 <= j < i && all.take(i as int)[j] == x;
                    assert(next[j] == x);
                }
                assert(next[i as int] == h);
            }
            assert(blobs@ =~= kept(start, not_orphan(db@, next)));
            assert forall|dir: Map<Seq<char>, Seq<u8>>| #[trigger]
                blobs_replayed(dir, blobs.pending()) == kept(
                    blobs_replayed(dir, old(blobs).pending()),
                    not_orphan(db@, next),
                ) by {
                assert(blobs_replayed(dir, before) == kept(
                    blobs_replayed(dir, old(blobs).pending()),
                    not_orphan(db@, all.take(i as int)),
                ));
                assert(blobs_replayed(dir, blobs.pending()) =~= kept(
                    blobs_replayed(dir, old(blobs).pending()),
                    not_orphan(db@, next),
                ));
            }
        }
        i += 1;
    }
    assert(all.take(i as int) =~= all);
}

} // verus!
