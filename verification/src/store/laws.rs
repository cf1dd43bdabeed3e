//! What holds of a store through its operations.

use crate::clock::Timestamp;
use crate::ids::{
    hyphenated_text, lemma_text_is_injective, lemma_text_order_is_id_order, ItemId,
};
use crate::model::{FormatView, ItemWithFormats};
use crate::store::blob::{blake3_hex, with_blob};
use crate::store::db::{
    format_of, format_views, hash_of_item, hash_of_old_item, is_entry, is_list_result,
    is_listable, is_old, is_old_listing, is_selected, listed_ids, stored_format, DbState,
};
use crate::store::{cleaned, format_data, is_released, with_blobs, with_formats, StoreState};
use crate::text::lemma_ascending_no_duplicates;
use vstd::prelude::*;

verus! {

/// The ids of the items created before the cutoff.
pub open spec fn old_items(db: DbState, cutoff_ms: i64) -> Set<Seq<char>> {
    db.items.dom().filter(|id: Seq<char>| is_old(db.items, id, cutoff_ms))
}

/// A listing of the old items is as long as they are many.
pub(crate) proof fn lemma_old_listing(db: DbState, cutoff_ms: i64, ids: Seq<Seq<char>>)
    requires
        is_old_listing(db, cutoff_ms, ids),
    ensures
        ids.len() == old_items(db, cutoff_ms).len(),
{
    lemma_ascending_no_duplicates(ids);
    ids.unique_seq_to_set();
    assert(ids.to_set() =~= old_items(db, cutoff_ms));
}

/// A change to one format can only release the hash that it had.
pub(crate) proof fn lemma_released_by_one(
    before: DbState,
    after: DbState,
    key: (Seq<char>, Seq<char>),
)
    requires
        forall|k: (Seq<char>, Seq<char>)|
            k != key && #[trigger] before.formats.contains_key(k) ==> after.formats.contains_key(k)
                && after.formats[k] == before.formats[k],
    ensures
        forall|h: Seq<char>| #[trigger]
            is_released(before, after, h) ==> before.formats.contains_key(key)
                && before.formats[key].blob_hash == h,
{
    assert forall|h: Seq<char>| #[trigger] is_released(before, after, h) implies before
        .formats.contains_key(key) && before.formats[key].blob_hash == h by {
        let k = choose|k: (Seq<char>, Seq<char>)| #[trigger]
            before.formats.contains_key(k) && before.formats[k].blob_hash == h;
        if k != key {
            assert(after.formats.contains_key(k) && after.formats[k].blob_hash == h);
        }
    }
}

/// Deleting an item can only release the hashes of its formats.
pub(crate) proof fn lemma_released_with_item(before: DbState, id: Seq<char>, h: Seq<char>)
    ensures
        is_released(before, before.without_formats_of(id).without_item(id), h) <==> hash_of_item(
            before,
            id,
            h,
        ) && !before.without_formats_of(id).without_item(id).references(h),
{
    let after = before.without_formats_of(id).without_item(id);
    if is_released(before, after, h) {
        let k = choose|k: (Seq<char>, Seq<char>)| #[trigger]
            before.formats.contains_key(k) && before.formats[k].blob_hash == h;
        if k.0 != id {
            assert(after.formats.contains_key(k) && after.formats[k].blob_hash == h);
        }
        assert(hash_of_item(before, id, h));
    }
    if hash_of_item(before, id, h) {
        assert(before.references(h));
    }
}

/// Deleting old items can only release the hashes of their formats.
pub(crate) proof fn lemma_released_with_old(before: DbState, cutoff_ms: i64, h: Seq<char>)
    ensures
        is_released(
            before,
            before.without_old_formats(cutoff_ms).without_old_items(cutoff_ms),
            h,
        ) <==> hash_of_old_item(before, cutoff_ms, h) && !before.without_old_formats(
            cutoff_ms,
        ).without_old_items(cutoff_ms).references(h),
{
    let after = before.without_old_formats(cutoff_ms).without_old_items(cutoff_ms);
    if is_released(before, after, h) {
        let k = choose|k: (Seq<char>, Seq<char>)| #[trigger]
            before.formats.contains_key(k) && before.formats[k].blob_hash == h;
        if !is_old(before.items, k.0, cutoff_ms) {
            assert(after.formats.contains_key(k) && after.formats[k].blob_hash == h);
        }
        assert(hash_of_old_item(before, cutoff_ms, h));
    }
    if hash_of_old_item(before, cutoff_ms, h) {
        assert(before.references(h));
    }
}

// ---------------------------------------------------------------------------
// What every store keeps to
// ---------------------------------------------------------------------------

/// Every blob is kept under the hash of its content.
pub open spec fn content_addressed(blobs: Map<Seq<char>, Seq<u8>>) -> bool {
    forall|h: Seq<char>| #[trigger] blobs.contains_key(h) ==> blake3_hex(blobs[h]) == h
}

/// Every format has its blob.
pub open spec fn blobs_present(s: StoreState) -> bool {
    forall|k: (Seq<char>, Seq<char>)| #[trigger]
        s.db.formats.contains_key(k) ==> s.blobs.contains_key(s.db.formats[k].blob_hash)
}

/// Every blob belongs to some format.
pub open spec fn no_orphans(s: StoreState) -> bool {
    forall|h: Seq<char>| #[trigger] s.blobs.contains_key(h) ==> s.db.references(h)
}

/// What every operation keeps: formats belong to items, ids are texts of
/// identities, blobs are content-addressed, and none that is referenced is
/// missing.
pub open spec fn is_sound(s: StoreState) -> bool {
    &&& s.db.formats_have_items()
    &&& s.db.ids_are_canonical()
    &&& content_addressed(s.blobs)
    &&& blobs_present(s)
}

/// No two MIME types are the same.
pub open spec fn distinct_mimes(list: Seq<(Seq<char>, Seq<u8>)>) -> bool {
    forall|i: int, j: int|
        0 <= i < j < list.len() ==> (#[trigger] list[i]).0 != (#[trigger] list[j]).0
}

/// The last format of the list with its MIME type.
pub open spec fn is_last(list: Seq<(Seq<char>, Seq<u8>)>, i: int) -> bool {
    &&& 0 <= i < list.len()
    &&& forall|j: int| i < j < list.len() ==> (#[trigger] list[j]).0 != list[i].0
}

proof fn lemma_with_blobs(blobs: Map<Seq<char>, Seq<u8>>, list: Seq<(Seq<char>, Seq<u8>)>)
    ensures
        forall|h: Seq<char>| #[trigger]
            blobs.contains_key(h) ==> with_blobs(blobs, list).contains_key(h) && with_blobs(
                blobs,
                list,
            )[h] == blobs[h],
        forall|i: int|
            0 <= i < list.len() ==> with_blobs(blobs, list).contains_key(
                blake3_hex((#[trigger] list[i]).1),
            ),
        forall|h: Seq<char>| #[trigger]
            with_blobs(blobs, list).contains_key(h) && !blobs.contains_key(h) ==> exists|i: int|
                0 <= i < list.len() && blake3_hex((#[trigger] list[i]).1) == h && with_blobs(
                    blobs,
                    list,
                )[h] == list[i].1,
        content_addressed(blobs) ==> content_addressed(with_blobs(blobs, list)),
    decreases list.len(),
{
    if list.len() > 0 {
        let front = list.drop_last();
        let before = with_blobs(blobs, front);
        let after = with_blobs(blobs, list);
        lemma_with_blobs(blobs, front);
        assert forall|i: int| 0 <= i < list.len() implies after.contains_key(
            blake3_hex((#[trigger] list[i]).1),
        ) by {
            if i < front.len() {
                assert(front[i] == list[i]);
            }
        }
        assert forall|h: Seq<char>| #[trigger]
            after.contains_key(h) && !blobs.contains_key(h) implies exists|i: int|
            0 <= i < list.len() && blake3_hex((#[trigger] list[i]).1) == h && after[h]
                == list[i].1 by {
            if before.contains_key(h) {
                let i = choose|i: int|
                    0 <= i < front.len() && blake3_hex((#[trigger] front[i]).1) == h && before[h]
                        == front[i].1;
                assert(list[i] == front[i]);
            } else {
                assert(list[list.len() - 1].1 == after[h]);
            }
        }
    }
}

proof fn lemma_with_formats(
    db: DbState,
    id: Seq<char>,
    now: Timestamp,
    list: Seq<(Seq<char>, Seq<u8>)>,
)
    ensures
        with_formats(db, id, now, list).items == db.items,
        forall|k: (Seq<char>, Seq<char>)| #[trigger]
            with_formats(db, id, now, list).formats.contains_key(k)
                ==> db.formats.contains_key(k) && with_formats(db, id, now, list).formats[k]
                == db.formats[k] || k.0 == id && exists|i: int|
                0 <= i < list.len() && (#[trigger] list[i]).0 == k.1 && with_formats(
                    db,
                    id,
                    now,
                    list,
                ).formats[k] == format_data(list[i].1, now),
        forall|k: (Seq<char>, Seq<char>)| #[trigger]
            db.formats.contains_key(k) ==> with_formats(db, id, now, list).formats.contains_key(k),
        forall|k: (Seq<char>, Seq<char>)|
            k.0 != id && #[trigger] db.formats.contains_key(k) ==> with_formats(
                db,
                id,
                now,
                list,
            ).formats[k] == db.formats[k],
        forall|i: int| #[trigger]
            is_last(list, i) ==> with_formats(db, id, now, list).formats.contains_key(
                (id, list[i].0),
            ) && with_formats(db, id, now, list).formats[(id, list[i].0)] == format_data(
                list[i].1,
                now,
            ),
    decreases list.len(),
{
    if list.len() > 0 {
        let front = list.drop_last();
        let last = list.len() - 1;
        let before = with_formats(db, id, now, front);
        let after = with_formats(db, id, now, list);
        lemma_with_formats(db, id, now, front);
        assert forall|k: (Seq<char>, Seq<char>)| #[trigger]
            after.formats.contains_key(k) implies db.formats.contains_key(k) && after.formats[k]
            == db.formats[k] || k.0 == id && exists|i: int|
            0 <= i < list.len() && (#[trigger] list[i]).0 == k.1 && after.formats[k]
                == format_data(list[i].1, now) by {
            if k == (id, list.last().0) {
                assert(list[last].0 == k.1);
            } else {
                assert(before.formats.contains_key(k));
                if !(db.formats.contains_key(k) && before.formats[k] == db.formats[k]) {
                    let i = choose|i: int|
                        0 <= i < front.len() && (#[trigger] front[i]).0 == k.1 && before.formats[k]
                            == format_data(front[i].1, now);
                    assert(list[i] == front[i]);
                }
            }
        }
        assert forall|k: (Seq<char>, Seq<char>)| #[trigger]
            db.formats.contains_key(k) implies after.formats.contains_key(k) by {
            assert(before.formats.contains_key(k));
        }
        assert forall|i: int| #[trigger] is_last(list, i) implies after.formats.contains_key(
            (id, list[i].0),
        ) && after.formats[(id, list[i].0)] == format_data(list[i].1, now) by {
            if i < last {
                assert(list[last].0 != list[i].0);
                assert(is_last(front, i)) by {
                    assert forall|j: int| i < j < front.len() implies (#[trigger] front[j]).0
                        != front[i].0 by {
                        assert(list[j].0 != list[i].0);
                    }
                }
            }
        }
    }
}

/// Adding an item keeps the store sound. It leaves no orphan blob where no MIME
/// type is given twice.
pub proof fn law_added_is_sound(
    s: StoreState,
    id: ItemId,
    now: Timestamp,
    formats: Seq<(Seq<char>, Seq<u8>)>,
)
    requires
        is_sound(s),
        !s.db.items.contains_key(hyphenated_text(id.bits)),
    ensures
        is_sound(s.added(id, now, formats)),
        no_orphans(s) && distinct_mimes(formats) ==> no_orphans(s.added(id, now, formats)),
{
    let text = hyphenated_text(id.bits);
    let after = s.added(id, now, formats);
    let inserted = s.db.with_item(text, after.db.items[text]);
    lemma_with_blobs(s.blobs, formats);
    lemma_with_formats(inserted, text, now, formats);
    assert(after.db.items == inserted.items) by {
        lemma_with_formats(
            s.db.with_item(
                text,
                crate::store::db::ItemTimes {
                    created_at: now.ms() as i64,
                    updated_at: now.ms() as i64,
                },
            ),
            text,
            now,
            formats,
        );
    }
    let base = s.db.with_item(
        text,
        crate::store::db::ItemTimes { created_at: now.ms() as i64, updated_at: now.ms() as i64 },
    );
    lemma_with_formats(base, text, now, formats);
    assert forall|k: (Seq<char>, Seq<char>)| #[trigger]
        after.db.formats.contains_key(k) implies after.db.items.contains_key(k.0)
        && after.blobs.contains_key(after.db.formats[k].blob_hash) by {
        if base.formats.contains_key(k) && after.db.formats[k] == base.formats[k] {
            assert(s.db.formats.contains_key(k));
        } else {
            let i = choose|i: int|
                0 <= i < formats.len() && (#[trigger] formats[i]).0 == k.1 && after.db.formats[k]
                    == format_data(formats[i].1, now);
            assert(after.blobs.contains_key(blake3_hex(formats[i].1)));
        }
    }
    assert forall|x: Seq<char>| #[trigger] after.db.items.contains_key(x) implies exists|u: u128|
        x == #[trigger] hyphenated_text(u) by {
        if x == text {
            assert(x == hyphenated_text(id.bits));
        } else {
            assert(s.db.items.contains_key(x));
        }
    }
    if no_orphans(s) && distinct_mimes(formats) {
        assert forall|h: Seq<char>| #[trigger]
            after.blobs.contains_key(h) implies after.db.references(h) by {
            if s.blobs.contains_key(h) {
                assert(s.db.references(h));
                let k = choose|k: (Seq<char>, Seq<char>)| #[trigger]
                    s.db.formats.contains_key(k) && s.db.formats[k].blob_hash == h;
                assert(s.db.items.contains_key(k.0));
                assert(base.formats.contains_key(k));
                assert(k.0 != text);
                assert(after.db.formats.contains_key(k) && after.db.formats[k].blob_hash == h);
            } else {
                let i = choose|i: int|
                    0 <= i < formats.len() && blake3_hex((#[trigger] formats[i]).1) == h
                        && after.blobs[h] == formats[i].1;
                assert(is_last(formats, i));
                let k = (text, formats[i].0);
                assert(after.db.formats.contains_key(k) && after.db.formats[k].blob_hash == h);
            }
        }
    }
}

proof fn lemma_cleaned_is_sound(
    blobs: Map<Seq<char>, Seq<u8>>,
    before: DbState,
    after: DbState,
)
    requires
        content_addressed(blobs),
        forall|k: (Seq<char>, Seq<char>)| #[trigger]
            after.formats.contains_key(k) ==> blobs.contains_key(after.formats[k].blob_hash),
    ensures
        content_addressed(cleaned(blobs, before, after)),
        blobs_present(StoreState { db: after, blobs: cleaned(blobs, before, after) }),
        (forall|h: Seq<char>| #[trigger]
            blobs.contains_key(h) ==> before.references(h) || after.references(h)) ==> no_orphans(
            StoreState { db: after, blobs: cleaned(blobs, before, after) },
        ),
{
    let left = cleaned(blobs, before, after);
    assert forall|k: (Seq<char>, Seq<char>)| #[trigger]
        after.formats.contains_key(k) implies left.contains_key(after.formats[k].blob_hash) by {
        assert(after.references(after.formats[k].blob_hash));
    }
}

/// Writing blobs alone keeps the store sound.
pub(crate) proof fn lemma_written_is_sound(s: StoreState, formats: Seq<(Seq<char>, Seq<u8>)>)
    requires
        is_sound(s),
    ensures
        is_sound(StoreState { db: s.db, blobs: with_blobs(s.blobs, formats) }),
{
    lemma_with_blobs(s.blobs, formats);
}

/// Setting a format keeps the store sound and leaves no orphan blob.
pub proof fn law_format_set_is_sound(
    s: StoreState,
    id: ItemId,
    now: Timestamp,
    mime: Seq<char>,
    bytes: Seq<u8>,
)
    requires
        is_sound(s),
        s.db.items.contains_key(hyphenated_text(id.bits)),
    ensures
        is_sound(s.format_set(id, now, mime, bytes)),
        no_orphans(s) ==> no_orphans(s.format_set(id, now, mime, bytes)),
{
    let text = hyphenated_text(id.bits);
    let after = s.format_set(id, now, mime, bytes);
    let written = with_blob(s.blobs, bytes);
    let key = (text, mime);
    assert forall|k: (Seq<char>, Seq<char>)| #[trigger]
        after.db.formats.contains_key(k) implies written.contains_key(
        after.db.formats[k].blob_hash,
    ) && after.db.items.contains_key(k.0) by {
        if k != key {
            assert(s.db.formats.contains_key(k));
        }
    }
    assert forall|x: Seq<char>| #[trigger] after.db.items.contains_key(x) implies exists|u: u128|
        x == #[trigger] hyphenated_text(u) by {
        assert(s.db.items.contains_key(x));
    }
    lemma_cleaned_is_sound(written, s.db, after.db);
    if no_orphans(s) {
        assert forall|h: Seq<char>| #[trigger] written.contains_key(h) implies s.db.references(h)
            || after.db.references(h) by {
            if !s.blobs.contains_key(h) {
                assert(after.db.formats.contains_key(key) && after.db.formats[key].blob_hash == h);
            }
        }
    }
}

/// Removing a format keeps the store sound and leaves no orphan blob.
pub proof fn law_format_removed_is_sound(
    s: StoreState,
    id: ItemId,
    now: Timestamp,
    mime: Seq<char>,
)
    requires
        is_sound(s),
    ensures
        is_sound(s.format_removed(id, now, mime)),
        no_orphans(s) ==> no_orphans(s.format_removed(id, now, mime)),
{
    let after = s.format_removed(id, now, mime);
    assert forall|k: (Seq<char>, Seq<char>)| #[trigger]
        after.db.formats.contains_key(k) implies s.blobs.contains_key(
        after.db.formats[k].blob_hash,
    ) && after.db.items.contains_key(k.0) by {
        assert(s.db.formats.contains_key(k));
    }
    assert forall|x: Seq<char>| #[trigger] after.db.items.contains_key(x) implies exists|u: u128|
        x == #[trigger] hyphenated_text(u) by {
        assert(s.db.items.contains_key(x));
    }
    lemma_cleaned_is_sound(s.blobs, s.db, after.db);
}

/// Deleting an item keeps the store sound and leaves no orphan blob.
pub proof fn law_item_deleted_is_sound(s: StoreState, id: ItemId)
    requires
        is_sound(s),
    ensures
        is_sound(s.item_deleted(id)),
        no_orphans(s) ==> no_orphans(s.item_deleted(id)),
{
    let after = s.item_deleted(id);
    assert forall|k: (Seq<char>, Seq<char>)| #[trigger]
        after.db.formats.contains_key(k) implies s.blobs.contains_key(
        after.db.formats[k].blob_hash,
    ) && after.db.items.contains_key(k.0) by {
        assert(s.db.formats.contains_key(k));
    }
    assert forall|x: Seq<char>| #[trigger] after.db.items.contains_key(x) implies exists|u: u128|
        x == #[trigger] hyphenated_text(u) by {
        assert(s.db.items.contains_key(x));
    }
    lemma_cleaned_is_sound(s.blobs, s.db, after.db);
}

/// Deleting old items keeps the store sound and leaves no orphan blob.
pub proof fn law_older_deleted_is_sound(s: StoreState, cutoff_ms: i64)
    requires
        is_sound(s),
    ensures
        is_sound(s.older_deleted(cutoff_ms)),
        no_orphans(s) ==> no_orphans(s.older_deleted(cutoff_ms)),
{
    let after = s.older_deleted(cutoff_ms);
    assert forall|k: (Seq<char>, Seq<char>)| #[trigger]
        after.db.formats.contains_key(k) implies s.blobs.contains_key(
        after.db.formats[k].blob_hash,
    ) && after.db.items.contains_key(k.0) by {
        assert(s.db.formats.contains_key(k));
        assert(s.db.items.contains_key(k.0));
    }
    assert forall|x: Seq<char>| #[trigger] after.db.items.contains_key(x) implies exists|u: u128|
        x == #[trigger] hyphenated_text(u) by {
        assert(s.db.items.contains_key(x));
    }
    lemma_cleaned_is_sound(s.blobs, s.db, after.db);
}

proof fn lemma_removed_is_sound(s: StoreState, id: ItemId, now: Timestamp, removes: Seq<Seq<char>>)
    requires
        is_sound(s),
    ensures
        is_sound(s.formats_removed(id, now, removes)),
        no_orphans(s) ==> no_orphans(s.formats_removed(id, now, removes)),
        s.formats_removed(id, now, removes).db.items.dom() == s.db.items.dom(),
    decreases removes.len(),
{
    if removes.len() > 0 {
        let before = s.formats_removed(id, now, removes.drop_last());
        lemma_removed_is_sound(s, id, now, removes.drop_last());
        law_format_removed_is_sound(before, id, now, removes.last());
        assert(s.formats_removed(id, now, removes).db.items.dom() =~= before.db.items.dom());
    }
}

proof fn lemma_set_is_sound(
    s: StoreState,
    id: ItemId,
    now: Timestamp,
    sets: Seq<(Seq<char>, Seq<u8>)>,
)
    requires
        is_sound(s),
        sets.len() > 0 ==> s.db.items.contains_key(hyphenated_text(id.bits)),
    ensures
        is_sound(s.formats_set(id, now, sets)),
        no_orphans(s) ==> no_orphans(s.formats_set(id, now, sets)),
        s.formats_set(id, now, sets).db.items.dom() == s.db.items.dom(),
    decreases sets.len(),
{
    if sets.len() > 0 {
        let before = s.formats_set(id, now, sets.drop_last());
        lemma_set_is_sound(s, id, now, sets.drop_last());
        assert(before.db.items.dom().contains(hyphenated_text(id.bits)));
        law_format_set_is_sound(before, id, now, sets.last().0, sets.last().1);
        assert(s.formats_set(id, now, sets).db.items.dom() =~= before.db.items.dom());
    }
}

/// Updating an item keeps the store sound and leaves no orphan blob.
pub proof fn law_updated_is_sound(
    s: StoreState,
    id: ItemId,
    now: Timestamp,
    removes: Seq<Seq<char>>,
    sets: Seq<(Seq<char>, Seq<u8>)>,
)
    requires
        is_sound(s),
        s.can_update(id, removes, sets),
    ensures
        is_sound(s.updated(id, now, removes, sets)),
        no_orphans(s) ==> no_orphans(s.updated(id, now, removes, sets)),
{
    lemma_removed_is_sound(s, id, now, removes);
    let removed = s.formats_removed(id, now, removes);
    if sets.len() > 0 {
        assert(s.db.items.dom().contains(hyphenated_text(id.bits)));
    }
    lemma_set_is_sound(removed, id, now, sets);
}

// ---------------------------------------------------------------------------
// Reading back what was written
// ---------------------------------------------------------------------------

/// No other content has the hash of `bytes`.
pub open spec fn no_collision(blobs: Map<Seq<char>, Seq<u8>>, bytes: Seq<u8>) -> bool {
    blobs.contains_key(blake3_hex(bytes)) ==> blobs[blake3_hex(bytes)] == bytes
}

/// Neither a stored blob nor another content of the list has the hash of the
/// content at `i`.
pub open spec fn hash_is_free(
    blobs: Map<Seq<char>, Seq<u8>>,
    list: Seq<(Seq<char>, Seq<u8>)>,
    i: int,
) -> bool {
    &&& no_collision(blobs, list[i].1)
    &&& forall|j: int|
        0 <= j < list.len() && blake3_hex((#[trigger] list[j]).1) == blake3_hex(list[i].1)
            ==> list[j].1 == list[i].1
}

/// Each format of a new item is read back as it was given, the last one where
/// a MIME type was given more than once. Left out are contents whose hash
/// another content already has.
pub proof fn law_added_is_read_back(
    s: StoreState,
    id: ItemId,
    now: Timestamp,
    formats: Seq<(Seq<char>, Seq<u8>)>,
    i: int,
)
    requires
        is_last(formats, i),
        hash_is_free(s.blobs, formats, i),
    ensures
        s.added(id, now, formats).content(id, formats[i].0) == Some(formats[i].1),
{
    let text = hyphenated_text(id.bits);
    let base = s.db.with_item(
        text,
        crate::store::db::ItemTimes { created_at: now.ms() as i64, updated_at: now.ms() as i64 },
    );
    lemma_with_blobs(s.blobs, formats);
    lemma_with_formats(base, text, now, formats);
    let h = blake3_hex(formats[i].1);
    let after = s.added(id, now, formats);
    assert(after.blobs.contains_key(h));
    if !s.blobs.contains_key(h) {
        let j = choose|j: int|
            0 <= j < formats.len() && blake3_hex((#[trigger] formats[j]).1) == h && after.blobs[h]
                == formats[j].1;
        assert(formats[j].1 == formats[i].1);
    }
}

/// A new item shows the instant of its creation twice, and holds formats for
/// exactly the MIME types given.
pub proof fn law_added_item(
    s: StoreState,
    id: ItemId,
    now: Timestamp,
    formats: Seq<(Seq<char>, Seq<u8>)>,
)
    requires
        is_sound(s),
        !s.db.items.contains_key(hyphenated_text(id.bits)),
    ensures
        ({
            let text = hyphenated_text(id.bits);
            let db = s.added(id, now, formats).db;
            &&& db.items.contains_key(text)
            &&& db.items[text].created_at == now.ms() as i64
            &&& db.items[text].updated_at == now.ms() as i64
            &&& forall|mime: Seq<char>| #[trigger]
                db.formats.contains_key((text, mime)) <==> exists|i: int|
                    0 <= i < formats.len() && (#[trigger] formats[i]).0 == mime
        }),
{
    let text = hyphenated_text(id.bits);
    let base = s.db.with_item(
        text,
        crate::store::db::ItemTimes { created_at: now.ms() as i64, updated_at: now.ms() as i64 },
    );
    lemma_with_formats(base, text, now, formats);
    let db = s.added(id, now, formats).db;
    assert forall|mime: Seq<char>| #[trigger]
        db.formats.contains_key((text, mime)) <==> exists|i: int|
        0 <= i < formats.len() && (#[trigger] formats[i]).0 == mime by {
        if db.formats.contains_key((text, mime)) {
            assert(!s.db.formats.contains_key((text, mime)));
        }
        if exists|i: int| 0 <= i < formats.len() && (#[trigger] formats[i]).0 == mime {
            let i = choose|i: int| 0 <= i < formats.len() && (#[trigger] formats[i]).0 == mime;
            lemma_last_exists(formats, i);
            let j = choose|j: int| #[trigger] is_last(formats, j) && formats[j].0 == formats[i].0;
            assert(db.formats.contains_key((text, formats[j].0)));
        }
    }
}

/// The row of a new item.
pub(crate) proof fn lemma_added_item_row(
    s: StoreState,
    id: ItemId,
    now: Timestamp,
    formats: Seq<(Seq<char>, Seq<u8>)>,
)
    ensures
        ({
            let text = hyphenated_text(id.bits);
            let items = s.added(id, now, formats).db.items;
            items.contains_key(text) && items[text].created_at == now.ms() as i64
        }),
{
    let text = hyphenated_text(id.bits);
    let base = s.db.with_item(
        text,
        crate::store::db::ItemTimes { created_at: now.ms() as i64, updated_at: now.ms() as i64 },
    );
    lemma_with_formats(base, text, now, formats);
}

proof fn lemma_last_exists(list: Seq<(Seq<char>, Seq<u8>)>, i: int)
    requires
        0 <= i < list.len(),
    ensures
        exists|j: int| #[trigger] is_last(list, j) && list[j].0 == list[i].0,
    decreases list.len() - i,
{
    if !is_last(list, i) {
        let j = choose|j: int| i < j < list.len() && (#[trigger] list[j]).0 == list[i].0;
        lemma_last_exists(list, j);
    }
}

/// A format that was set is read back as it was given. Left out is a content
/// whose hash another content already has.
pub proof fn law_set_is_read_back(
    s: StoreState,
    id: ItemId,
    now: Timestamp,
    mime: Seq<char>,
    bytes: Seq<u8>,
)
    requires
        no_collision(s.blobs, bytes),
    ensures
        s.format_set(id, now, mime, bytes).content(id, mime) == Some(bytes),
{
    let after = s.format_set(id, now, mime, bytes);
    let key = (hyphenated_text(id.bits), mime);
    assert(after.db.formats.contains_key(key));
    assert(after.db.references(blake3_hex(bytes)));
}

/// Setting a format leaves every other one as it was.
pub proof fn law_set_leaves_others(
    s: StoreState,
    id: ItemId,
    now: Timestamp,
    mime: Seq<char>,
    bytes: Seq<u8>,
    other: ItemId,
    other_mime: Seq<char>,
)
    requires
        is_sound(s),
        other != id || other_mime != mime,
    ensures
        s.format_set(id, now, mime, bytes).content(other, other_mime) == s.content(
            other,
            other_mime,
        ),
{
    lemma_text_is_injective(id.bits, other.bits);
    let after = s.format_set(id, now, mime, bytes);
    let k = (hyphenated_text(other.bits), other_mime);
    if s.db.formats.contains_key(k) {
        assert(after.db.formats.contains_key(k));
        assert(after.db.references(s.db.formats[k].blob_hash));
    }
}

/// Setting a format changes the time of the item's last change and not that of
/// its creation, and no other item.
pub proof fn law_set_touches_item(
    s: StoreState,
    id: ItemId,
    now: Timestamp,
    mime: Seq<char>,
    bytes: Seq<u8>,
)
    requires
        s.db.items.contains_key(hyphenated_text(id.bits)),
    ensures
        ({
            let text = hyphenated_text(id.bits);
            let items = s.format_set(id, now, mime, bytes).db.items;
            &&& items.contains_key(text)
            &&& items[text].created_at == s.db.items[text].created_at
            &&& items[text].updated_at == now.ms() as i64
            &&& forall|x: Seq<char>|
                x != text ==> (#[trigger] items.contains_key(x) <==> s.db.items.contains_key(x))
                    && (s.db.items.contains_key(x) ==> items[x] == s.db.items[x])
        }),
{
}

/// A removed format is gone, and every other one is as it was.
pub proof fn law_removed_is_gone(
    s: StoreState,
    id: ItemId,
    now: Timestamp,
    mime: Seq<char>,
    other: ItemId,
    other_mime: Seq<char>,
)
    requires
        is_sound(s),
    ensures
        s.format_removed(id, now, mime).content(id, mime) is None,
        other != id || other_mime != mime ==> s.format_removed(id, now, mime).content(
            other,
            other_mime,
        ) == s.content(other, other_mime),
{
    lemma_text_is_injective(id.bits, other.bits);
    let after = s.format_removed(id, now, mime);
    let k = (hyphenated_text(other.bits), other_mime);
    if s.db.formats.contains_key(k) && (other != id || other_mime != mime) {
        assert(after.db.formats.contains_key(k));
        assert(after.db.references(s.db.formats[k].blob_hash));
    }
}

/// Adding an item leaves every other one as it was.
pub proof fn law_added_leaves_others(
    s: StoreState,
    id: ItemId,
    now: Timestamp,
    formats: Seq<(Seq<char>, Seq<u8>)>,
    other: ItemId,
    mime: Seq<char>,
)
    requires
        is_sound(s),
        other != id,
    ensures
        ({
            let text = hyphenated_text(other.bits);
            let after = s.added(id, now, formats);
            &&& after.content(other, mime) == s.content(other, mime)
            &&& after.db.items.contains_key(text) <==> s.db.items.contains_key(text)
            &&& s.db.items.contains_key(text) ==> after.db.items[text] == s.db.items[text]
        }),
{
    lemma_text_is_injective(id.bits, other.bits);
    let text = hyphenated_text(id.bits);
    let base = s.db.with_item(
        text,
        crate::store::db::ItemTimes { created_at: now.ms() as i64, updated_at: now.ms() as i64 },
    );
    lemma_with_formats(base, text, now, formats);
    lemma_with_blobs(s.blobs, formats);
    let after = s.added(id, now, formats);
    let k = (hyphenated_text(other.bits), mime);
    if s.db.formats.contains_key(k) {
        assert(base.formats.contains_key(k));
        assert(after.db.formats.contains_key(k));
        assert(s.blobs.contains_key(s.db.formats[k].blob_hash));
    } else if after.db.formats.contains_key(k) {
        assert(base.formats.contains_key(k));
    }
}

proof fn lemma_removed_contents(
    s: StoreState,
    id: ItemId,
    now: Timestamp,
    removes: Seq<Seq<char>>,
    other: ItemId,
    mime: Seq<char>,
)
    requires
        is_sound(s),
    ensures
        s.formats_removed(id, now, removes).content(other, mime) == if other == id
            && removes.contains(mime) {
            None
        } else {
            s.content(other, mime)
        },
        forall|h: Seq<char>| #[trigger]
            s.formats_removed(id, now, removes).blobs.contains_key(h) ==> s.blobs.contains_key(h)
                && s.formats_removed(id, now, removes).blobs[h] == s.blobs[h],
    decreases removes.len(),
{
    if removes.len() > 0 {
        let front = removes.drop_last();
        let before = s.formats_removed(id, now, front);
        lemma_removed_contents(s, id, now, front, other, mime);
        lemma_removed_is_sound(s, id, now, front);
        law_removed_is_gone(before, id, now, removes.last(), other, mime);
        assert(removes.contains(mime) <==> front.contains(mime) || mime == removes.last()) by {
            assert(removes[removes.len() - 1] == removes.last());
            if front.contains(mime) {
                let j = choose|j: int| 0 <= j < front.len() && front[j] == mime;
                assert(removes[j] == mime);
            }
            if removes.contains(mime) {
                let j = choose|j: int| 0 <= j < removes.len() && removes[j] == mime;
                if j < front.len() {
                    assert(front[j] == mime);
                }
            }
        }
    }
}

proof fn lemma_set_blobs(
    s: StoreState,
    id: ItemId,
    now: Timestamp,
    sets: Seq<(Seq<char>, Seq<u8>)>,
)
    ensures
        forall|h: Seq<char>| #[trigger]
            s.formats_set(id, now, sets).blobs.contains_key(h) ==> s.blobs.contains_key(h)
                && s.formats_set(id, now, sets).blobs[h] == s.blobs[h] || exists|j: int|
                0 <= j < sets.len() && blake3_hex((#[trigger] sets[j]).1) == h && s.formats_set(
                    id,
                    now,
                    sets,
                ).blobs[h] == sets[j].1,
    decreases sets.len(),
{
    if sets.len() > 0 {
        let front = sets.drop_last();
        let before = s.formats_set(id, now, front);
        let after = s.formats_set(id, now, sets);
        lemma_set_blobs(s, id, now, front);
        assert forall|h: Seq<char>| #[trigger] after.blobs.contains_key(h) implies s
            .blobs.contains_key(h) && after.blobs[h] == s.blobs[h] || exists|j: int|
            0 <= j < sets.len() && blake3_hex((#[trigger] sets[j]).1) == h && after.blobs[h]
                == sets[j].1 by {
            if before.blobs.contains_key(h) {
                if !(s.blobs.contains_key(h) && before.blobs[h] == s.blobs[h]) {
                    let j = choose|j: int|
                        0 <= j < front.len() && blake3_hex((#[trigger] front[j]).1) == h
                            && before.blobs[h] == front[j].1;
                    assert(sets[j] == front[j]);
                }
            } else {
                assert(blake3_hex(sets[sets.len() - 1].1) == h);
            }
        }
    }
}

proof fn lemma_set_contents(
    s: StoreState,
    id: ItemId,
    now: Timestamp,
    sets: Seq<(Seq<char>, Seq<u8>)>,
    other: ItemId,
    mime: Seq<char>,
)
    requires
        is_sound(s),
        sets.len() > 0 ==> s.db.items.contains_key(hyphenated_text(id.bits)),
    ensures
        other != id || (forall|i: int| 0 <= i < sets.len() ==> (#[trigger] sets[i]).0 != mime)
            ==> s.formats_set(id, now, sets).content(other, mime) == s.content(other, mime),
        forall|i: int| #[trigger]
            is_last(sets, i) && other == id && sets[i].0 == mime && hash_is_free(s.blobs, sets, i)
                ==> s.formats_set(id, now, sets).content(other, mime) == Some(sets[i].1),
    decreases sets.len(),
{
    if sets.len() > 0 {
        let front = sets.drop_last();
        let last = sets.len() - 1;
        let before = s.formats_set(id, now, front);
        let after = s.formats_set(id, now, sets);
        lemma_set_is_sound(s, id, now, front);
        lemma_set_contents(s, id, now, front, other, mime);
        if other != id || sets[last].0 != mime {
            law_set_leaves_others(before, id, now, sets[last].0, sets[last].1, other, mime);
        }
        if other != id || (forall|i: int| 0 <= i < sets.len() ==> (#[trigger] sets[i]).0 != mime) {
            assert forall|i: int| 0 <= i < front.len() implies other != id || (
            #[trigger] front[i]).0 != mime by {
                assert(front[i] == sets[i]);
            }
        }
        assert forall|i: int| #[trigger]
            is_last(sets, i) && other == id && sets[i].0 == mime && hash_is_free(
                s.blobs,
                sets,
                i,
            ) implies after.content(other, mime) == Some(sets[i].1) by {
            if i == last {
                lemma_set_blobs(s, id, now, front);
                assert(no_collision(before.blobs, sets[i].1)) by {
                    let h = blake3_hex(sets[i].1);
                    if before.blobs.contains_key(h) && !(s.blobs.contains_key(h)
                        && before.blobs[h] == s.blobs[h]) {
                        let j = choose|j: int|
                            0 <= j < front.len() && blake3_hex((#[trigger] front[j]).1) == h
                                && before.blobs[h] == front[j].1;
                        assert(sets[j] == front[j]);
                    }
                }
                law_set_is_read_back(before, id, now, sets[i].0, sets[i].1);
            } else {
                assert(sets[last].0 != sets[i].0);
                assert(front[i] == sets[i]);
                assert(is_last(front, i)) by {
                    assert forall|j: int| i < j < front.len() implies (#[trigger] front[j]).0
                        != front[i].0 by {
                        assert(sets[j].0 != sets[i].0);
                    }
                }
                assert(hash_is_free(s.blobs, front, i)) by {
                    assert forall|j: int|
                        0 <= j < front.len() && blake3_hex((#[trigger] front[j]).1) == blake3_hex(
                            front[i].1,
                        ) implies front[j].1 == front[i].1 by {
                        assert(sets[j] == front[j]);
                    }
                }
            }
        }
    }
}

/// After an update each MIME type that was set is read back as it was last set,
/// each one that was removed and not set is gone, and everything else is as it
/// was. Left out are contents whose hash another content already has.
pub proof fn law_updated_contents(
    s: StoreState,
    id: ItemId,
    now: Timestamp,
    removes: Seq<Seq<char>>,
    sets: Seq<(Seq<char>, Seq<u8>)>,
    other: ItemId,
    mime: Seq<char>,
)
    requires
        is_sound(s),
        s.can_update(id, removes, sets),
    ensures
        ({
            let after = s.updated(id, now, removes, sets).content(other, mime);
            &&& forall|i: int| #[trigger]
                is_last(sets, i) && other == id && sets[i].0 == mime && hash_is_free(
                    s.blobs,
                    sets,
                    i,
                ) ==> after == Some(sets[i].1)
            &&& other != id || (forall|i: int|
                0 <= i < sets.len() ==> (#[trigger] sets[i]).0 != mime) ==> after == if other == id
                && removes.contains(mime) {
                None
            } else {
                s.content(other, mime)
            }
        }),
{
    let removed = s.formats_removed(id, now, removes);
    lemma_removed_is_sound(s, id, now, removes);
    lemma_removed_contents(s, id, now, removes, other, mime);
    if sets.len() > 0 {
        assert(s.db.items.dom().contains(hyphenated_text(id.bits)));
    }
    lemma_set_contents(removed, id, now, sets, other, mime);
    assert forall|i: int| #[trigger] is_last(sets, i) && hash_is_free(s.blobs, sets, i) implies
        hash_is_free(removed.blobs, sets, i) by {
        let h = blake3_hex(sets[i].1);
        if removed.blobs.contains_key(h) {
            assert(s.blobs.contains_key(h));
        }
    }
}

/// A deleted item is gone with all its formats, and every other item is as it
/// was, shared blobs included.
pub proof fn law_deleted_is_gone(s: StoreState, id: ItemId, other: ItemId, mime: Seq<char>)
    requires
        is_sound(s),
    ensures
        !s.item_deleted(id).db.items.contains_key(hyphenated_text(id.bits)),
        s.item_deleted(id).content(id, mime) is None,
        other != id ==> {
            let text = hyphenated_text(other.bits);
            let after = s.item_deleted(id);
            &&& after.content(other, mime) == s.content(other, mime)
            &&& after.db.items.contains_key(text) <==> s.db.items.contains_key(text)
            &&& s.db.items.contains_key(text) ==> after.db.items[text] == s.db.items[text]
        },
{
    lemma_text_is_injective(id.bits, other.bits);
    let after = s.item_deleted(id);
    let k = (hyphenated_text(other.bits), mime);
    if s.db.formats.contains_key(k) && other != id {
        assert(after.db.formats.contains_key(k));
        assert(after.db.references(s.db.formats[k].blob_hash));
    }
}

/// What an item was before it was added, it is again once it is deleted: the
/// tables are as they were and, in a store without orphan blobs where no MIME
/// type was given twice, so are the blobs.
pub proof fn law_delete_undoes_add(
    s: StoreState,
    id: ItemId,
    now: Timestamp,
    formats: Seq<(Seq<char>, Seq<u8>)>,
)
    requires
        is_sound(s),
        !s.db.items.contains_key(hyphenated_text(id.bits)),
    ensures
        s.added(id, now, formats).item_deleted(id).db == s.db,
        no_orphans(s) && distinct_mimes(formats) ==> s.added(id, now, formats).item_deleted(id)
            == s,
{
    let text = hyphenated_text(id.bits);
    let base = s.db.with_item(
        text,
        crate::store::db::ItemTimes { created_at: now.ms() as i64, updated_at: now.ms() as i64 },
    );
    lemma_with_formats(base, text, now, formats);
    lemma_with_blobs(s.blobs, formats);
    let added = s.added(id, now, formats);
    let after = added.item_deleted(id);
    assert(after.db.items =~= s.db.items);
    assert forall|k: (Seq<char>, Seq<char>)| #[trigger]
        after.db.formats.contains_key(k) <==> s.db.formats.contains_key(k) by {
        if s.db.formats.contains_key(k) {
            assert(base.formats.contains_key(k));
            assert(s.db.items.contains_key(k.0));
            assert(added.db.formats.contains_key(k));
        }
        if after.db.formats.contains_key(k) {
            assert(added.db.formats.contains_key(k));
        }
    }
    assert forall|k: (Seq<char>, Seq<char>)| #[trigger]
        after.db.formats.contains_key(k) implies after.db.formats[k] == s.db.formats[k] by {
        assert(added.db.formats.contains_key(k));
    }
    assert(after.db.formats =~= s.db.formats);
    assert(after.db =~= s.db);
    if no_orphans(s) && distinct_mimes(formats) {
        law_added_is_sound(s, id, now, formats);
        assert forall|h: Seq<char>| #[trigger]
            after.blobs.contains_key(h) <==> s.blobs.contains_key(h) by {
            if s.blobs.contains_key(h) {
                assert(added.blobs.contains_key(h));
                assert(s.db.references(h));
            }
            if after.blobs.contains_key(h) && !s.blobs.contains_key(h) {
                assert(added.db.references(h));
                let k = choose|k: (Seq<char>, Seq<char>)| #[trigger]
                    after.db.formats.contains_key(k) && after.db.formats[k].blob_hash == h;
                assert(s.db.formats.contains_key(k));
            }
        }
        assert(after.blobs =~= s.blobs);
        assert(after =~= s);
    }
}

/// Deleting old items deletes exactly the items created before the cutoff; the
/// others keep their times and their contents.
pub proof fn law_older_deleted(s: StoreState, cutoff_ms: i64, id: ItemId, mime: Seq<char>)
    requires
        is_sound(s),
    ensures
        ({
            let text = hyphenated_text(id.bits);
            let after = s.older_deleted(cutoff_ms);
            if is_old(s.db.items, text, cutoff_ms) {
                !after.db.items.contains_key(text) && after.content(id, mime) is None
            } else {
                &&& after.db.items.contains_key(text) <==> s.db.items.contains_key(text)
                &&& s.db.items.contains_key(text) ==> after.db.items[text] == s.db.items[text]
                &&& after.content(id, mime) == s.content(id, mime)
            }
        }),
{
    let after = s.older_deleted(cutoff_ms);
    let k = (hyphenated_text(id.bits), mime);
    if s.db.formats.contains_key(k) && !is_old(s.db.items, k.0, cutoff_ms) {
        assert(after.db.formats.contains_key(k));
        assert(after.db.references(s.db.formats[k].blob_hash));
    }
}

/// Pruning twice with the same cutoff is pruning once.
pub proof fn law_prune_is_idempotent(s: StoreState, cutoff_ms: i64)
    ensures
        s.older_deleted(cutoff_ms).older_deleted(cutoff_ms) == s.older_deleted(cutoff_ms),
        old_items(s.older_deleted(cutoff_ms).db, cutoff_ms) == Set::<Seq<char>>::empty(),
{
    let once = s.older_deleted(cutoff_ms);
    let twice = once.older_deleted(cutoff_ms);
    assert forall|id: Seq<char>| !#[trigger] is_old(once.db.items, id, cutoff_ms) by {}
    assert(twice.db.items =~= once.db.items);
    assert(twice.db.formats =~= once.db.formats);
    assert(twice.db =~= once.db);
    assert(twice.blobs =~= once.blobs);
    assert(twice =~= once);
    assert(old_items(once.db, cutoff_ms) =~= Set::<Seq<char>>::empty());
}

// ---------------------------------------------------------------------------
// Deduplication
// ---------------------------------------------------------------------------

/// Contents that are already stored add no blob.
pub proof fn law_stored_contents_add_no_blob(
    s: StoreState,
    id: ItemId,
    now: Timestamp,
    formats: Seq<(Seq<char>, Seq<u8>)>,
)
    requires
        forall|i: int|
            0 <= i < formats.len() ==> s.blobs.contains_key(blake3_hex((#[trigger] formats[i]).1)),
    ensures
        s.added(id, now, formats).blobs == s.blobs,
{
    lemma_with_blobs(s.blobs, formats);
    assert(s.added(id, now, formats).blobs =~= s.blobs);
}

/// Two items with the same contents share their blobs: adding a second one adds
/// none.
pub proof fn law_equal_contents_share_blobs(
    s: StoreState,
    first: ItemId,
    second: ItemId,
    now: Timestamp,
    later: Timestamp,
    formats: Seq<(Seq<char>, Seq<u8>)>,
)
    ensures
        s.added(first, now, formats).added(second, later, formats).blobs == s.added(
            first,
            now,
            formats,
        ).blobs,
{
    lemma_with_blobs(s.blobs, formats);
    law_stored_contents_add_no_blob(s.added(first, now, formats), second, later, formats);
}

// ---------------------------------------------------------------------------
// What a row keeps of a format
// ---------------------------------------------------------------------------

/// A stored format is read back with its size and its hash, and with the
/// instant of its capture in whole milliseconds.
pub proof fn law_format_row_roundtrip(f: FormatView)
    requires
        f.captured_at.wf(),
    ensures
        format_of(f.item_id, f.mime, stored_format(f)) == (FormatView {
            captured_at: Timestamp::of_ms(f.captured_at.ms()),
            ..f
        }),
{
    let size = f.size;
    assert((size as i64) as u64 == size) by (bit_vector);
}

// ---------------------------------------------------------------------------
// What rows say, and when they change
// ---------------------------------------------------------------------------

/// The row of a format that was added or set names the hash of its content, its
/// size in bytes and the instant of its capture.
pub proof fn law_rows_describe_their_contents(
    s: StoreState,
    id: ItemId,
    now: Timestamp,
    formats: Seq<(Seq<char>, Seq<u8>)>,
    i: int,
)
    requires
        now.wf(),
        is_last(formats, i),
        formats[i].1.len() <= i64::MAX,
    ensures
        ({
            let key = (hyphenated_text(id.bits), formats[i].0);
            let added = s.added(id, now, formats).db.formats;
            let set = s.format_set(id, now, formats[i].0, formats[i].1).db.formats;
            &&& added.contains_key(key)
            &&& added[key].blob_hash == blake3_hex(formats[i].1)
            &&& added[key].size == formats[i].1.len()
            &&& added[key].captured_at == now.ms()
            &&& set.contains_key(key)
            &&& set[key] == added[key]
        }),
{
    let text = hyphenated_text(id.bits);
    let base = s.db.with_item(
        text,
        crate::store::db::ItemTimes { created_at: now.ms() as i64, updated_at: now.ms() as i64 },
    );
    lemma_with_formats(base, text, now, formats);
    crate::clock::lemma_ms_fits(now);
    let n = formats[i].1.len() as u64;
    assert(n <= 0x7fff_ffff_ffff_ffff ==> (n as i64) as u64 == n && (n as i64) >= 0) by (bit_vector);
}

/// Removing a format changes the time of the item's last change and not that of
/// its creation, and no other item.
pub proof fn law_removal_touches_item(s: StoreState, id: ItemId, now: Timestamp, mime: Seq<char>)
    requires
        now.wf(),
        s.db.items.contains_key(hyphenated_text(id.bits)),
    ensures
        ({
            let text = hyphenated_text(id.bits);
            let items = s.format_removed(id, now, mime).db.items;
            &&& items.contains_key(text)
            &&& items[text].created_at == s.db.items[text].created_at
            &&& items[text].updated_at == now.ms()
            &&& forall|x: Seq<char>|
                x != text ==> (#[trigger] items.contains_key(x) <==> s.db.items.contains_key(x))
                    && (s.db.items.contains_key(x) ==> items[x] == s.db.items[x])
        }),
{
    crate::clock::lemma_ms_fits(now);
}

/// The item was last changed at `now`, or nothing was done to it; no other item
/// and no creation changed.
spec fn touched_by(before: DbState, after: DbState, text: Seq<char>, now: Timestamp, n: nat) -> bool {
    &&& after.items.dom() == before.items.dom()
    &&& after.items[text].created_at == before.items[text].created_at
    &&& n > 0 ==> after.items[text].updated_at == now.ms()
    &&& n == 0 ==> after.items[text] == before.items[text]
    &&& forall|x: Seq<char>|
        x != text && #[trigger] before.items.contains_key(x) ==> after.items[x] == before.items[x]
}

proof fn lemma_removed_times(s: StoreState, id: ItemId, now: Timestamp, removes: Seq<Seq<char>>)
    requires
        now.wf(),
        s.db.items.contains_key(hyphenated_text(id.bits)),
    ensures
        touched_by(
            s.db,
            s.formats_removed(id, now, removes).db,
            hyphenated_text(id.bits),
            now,
            removes.len(),
        ),
    decreases removes.len(),
{
    if removes.len() > 0 {
        let before = s.formats_removed(id, now, removes.drop_last());
        lemma_removed_times(s, id, now, removes.drop_last());
        assert(before.db.items.dom().contains(hyphenated_text(id.bits)));
        law_removal_touches_item(before, id, now, removes.last());
        let after = s.formats_removed(id, now, removes);
        assert(after.db.items.dom() =~= before.db.items.dom());
        assert forall|x: Seq<char>|
            x != hyphenated_text(id.bits) && #[trigger] s.db.items.contains_key(
                x,
            ) implies after.db.items[x] == s.db.items[x] by {
            assert(before.db.items.dom().contains(x));
            assert(after.db.items.contains_key(x));
        }
    }
}

proof fn lemma_set_times(
    s: StoreState,
    id: ItemId,
    now: Timestamp,
    sets: Seq<(Seq<char>, Seq<u8>)>,
)
    requires
        now.wf(),
        s.db.items.contains_key(hyphenated_text(id.bits)),
    ensures
        touched_by(
            s.db,
            s.formats_set(id, now, sets).db,
            hyphenated_text(id.bits),
            now,
            sets.len(),
        ),
    decreases sets.len(),
{
    if sets.len() > 0 {
        let before = s.formats_set(id, now, sets.drop_last());
        lemma_set_times(s, id, now, sets.drop_last());
        assert(before.db.items.dom().contains(hyphenated_text(id.bits)));
        law_set_touches_item(before, id, now, sets.last().0, sets.last().1);
        crate::clock::lemma_ms_fits(now);
        let after = s.formats_set(id, now, sets);
        assert(after.db.items.dom() =~= before.db.items.dom());
        assert forall|x: Seq<char>|
            x != hyphenated_text(id.bits) && #[trigger] s.db.items.contains_key(
                x,
            ) implies after.db.items[x] == s.db.items[x] by {
            assert(before.db.items.dom().contains(x));
            assert(after.db.items.contains_key(x));
        }
    }
}

/// An update that does anything makes `now` the time of the item's last change;
/// it changes neither the creation of the item nor another item.
pub proof fn law_updated_times(
    s: StoreState,
    id: ItemId,
    now: Timestamp,
    removes: Seq<Seq<char>>,
    sets: Seq<(Seq<char>, Seq<u8>)>,
    other: Seq<char>,
)
    requires
        now.wf(),
        s.db.items.contains_key(hyphenated_text(id.bits)),
        removes.len() > 0 || sets.len() > 0,
    ensures
        ({
            let text = hyphenated_text(id.bits);
            let items = s.updated(id, now, removes, sets).db.items;
            &&& items.contains_key(text)
            &&& items[text].created_at == s.db.items[text].created_at
            &&& items[text].updated_at == now.ms()
            &&& items.contains_key(other) <==> s.db.items.contains_key(other)
            &&& other != text && s.db.items.contains_key(other) ==> items[other]
                == s.db.items[other]
        }),
{
    let text = hyphenated_text(id.bits);
    let removed = s.formats_removed(id, now, removes);
    lemma_removed_times(s, id, now, removes);
    assert(removed.db.items.dom().contains(text));
    lemma_set_times(removed, id, now, sets);
    let after = s.updated(id, now, removes, sets);
    assert(after.db.items.dom().contains(text));
    assert(after.db.items.dom().contains(other) == s.db.items.dom().contains(other));
    if other != text && s.db.items.contains_key(other) {
        assert(removed.db.items.dom().contains(other));
        assert(removed.db.items.contains_key(other));
    }
}

/// An update that has anything to do is refused where the item is not there,
/// where it lacks a type that is to be removed, and where a type is to be
/// removed twice; it is granted everywhere else.
pub proof fn law_refused_updates(
    s: StoreState,
    id: ItemId,
    removes: Seq<Seq<char>>,
    sets: Seq<(Seq<char>, Seq<u8>)>,
)
    requires
        removes.len() > 0 || sets.len() > 0,
    ensures
        !s.can_update(id, removes, sets) <==> {
            ||| !s.db.items.contains_key(hyphenated_text(id.bits))
            ||| exists|i: int|
                0 <= i < removes.len() && !s.db.formats.contains_key(
                    (hyphenated_text(id.bits), #[trigger] removes[i]),
                )
            ||| exists|i: int, j: int|
                0 <= i < j < removes.len() && #[trigger] removes[i] == #[trigger] removes[j]
        },
{
    if removes.no_duplicates() {
        assert forall|i: int, j: int| 0 <= i < j < removes.len() implies #[trigger] removes[i]
            != #[trigger] removes[j] by {}
    } else {
        let (i, j) = choose|i: int, j: int|
            0 <= i < removes.len() && 0 <= j < removes.len() && i != j && removes[i] == removes[j];
        if i < j {
            assert(removes[i] == removes[j]);
        } else {
            assert(removes[j] == removes[i]);
        }
    }
}

/// Deleting old items deletes an item exactly where the instant of its creation
/// lies before the cutoff; one created at the cutoff stays.
pub proof fn law_only_older_items_go(s: StoreState, cutoff_ms: i64, id: ItemId, mime: Seq<char>)
    requires
        is_sound(s),
        s.db.items.contains_key(hyphenated_text(id.bits)),
    ensures
        ({
            let text = hyphenated_text(id.bits);
            let after = s.older_deleted(cutoff_ms);
            &&& s.db.items[text].created_at < cutoff_ms ==> !after.db.items.contains_key(text)
                && after.content(id, mime) is None && !after.db.formats.contains_key((text, mime))
            &&& s.db.items[text].created_at >= cutoff_ms ==> after.db.items.contains_key(text)
                && after.db.items[text] == s.db.items[text] && after.content(id, mime) == s.content(
                id,
                mime,
            )
        }),
{
    law_older_deleted(s, cutoff_ms, id, mime);
}

// ---------------------------------------------------------------------------
// Listings
// ---------------------------------------------------------------------------

/// A listing shows the greatest identity first. It shows an item only where it
/// is there and has the type asked for, with all its formats; it leaves one out
/// only where it is full, and then every item that it shows has a greater
/// identity.
pub proof fn law_listing(
    db: DbState,
    limit: Option<nat>,
    mime: Option<Seq<char>>,
    list: Vec<ItemWithFormats>,
    u: u128,
    m: Seq<char>,
)
    requires
        is_list_result(db, limit, mime, Ok(list)),
        db.ids_are_canonical(),
    ensures
        limit matches Some(l) ==> list@.len() <= l,
        forall|i: int, j: int|
            0 <= i < j < list@.len() ==> (#[trigger] list@[i]).item.id.bits > (
            #[trigger] list@[j]).item.id.bits,
        forall|i: int|
            0 <= i < list@.len() ==> {
                let text = hyphenated_text((#[trigger] list@[i]).item.id.bits);
                &&& db.items.contains_key(text)
                &&& list@[i].item.created_at == Timestamp::of_ms(
                    db.items[text].created_at as int,
                )
                &&& list@[i].item.updated_at == Timestamp::of_ms(
                    db.items[text].updated_at as int,
                )
                &&& mime matches Some(wanted) ==> db.formats.contains_key((text, wanted))
                &&& db.formats.contains_key((text, m)) <==> exists|k: int|
                    0 <= k < list@[i].formats@.len() && (#[trigger] list@[i].formats@[k]).mime@
                        == m
            },
        db.items.contains_key(hyphenated_text(u)) && (mime matches Some(wanted)
            ==> db.formats.contains_key((hyphenated_text(u), wanted))) ==> {
            ||| exists|i: int| 0 <= i < list@.len() && (#[trigger] list@[i]).item.id.bits == u
            ||| limit matches Some(l) && list@.len() == l && forall|i: int|
                0 <= i < list@.len() ==> (#[trigger] list@[i]).item.id.bits > u
        },
{
    let ids = listed_ids(db, limit, mime);
    assert forall|i: int| 0 <= i < list@.len() implies {
        let text = hyphenated_text((#[trigger] list@[i]).item.id.bits);
        &&& db.items.contains_key(text)
        &&& list@[i].item.created_at == Timestamp::of_ms(db.items[text].created_at as int)
        &&& list@[i].item.updated_at == Timestamp::of_ms(db.items[text].updated_at as int)
        &&& mime matches Some(wanted) ==> db.formats.contains_key((text, wanted))
        &&& db.formats.contains_key((text, m)) <==> exists|k: int|
            0 <= k < list@[i].formats@.len() && (#[trigger] list@[i].formats@[k]).mime@ == m
    } by {
        let text = hyphenated_text(list@[i].item.id.bits);
        assert(text == ids[i]);
        assert(is_selected(db, mime, ids[i]));
        assert(is_listable(db, ids[i]) && is_entry(db, ids[i], list@[i]));
        let views = format_views(list@[i].formats@);
        assert forall|k: int| 0 <= k < views.len() implies #[trigger] views[k].mime
            == list@[i].formats@[k].mime@ by {}
        if db.formats.contains_key((text, m)) {
            let k = choose|k: int| 0 <= k < views.len() && (#[trigger] views[k]).mime == m;
            assert(list@[i].formats@[k].mime@ == m);
        }
        if exists|k: int|
            0 <= k < list@[i].formats@.len() && (#[trigger] list@[i].formats@[k]).mime@ == m {
            let k = choose|k: int|
                0 <= k < list@[i].formats@.len() && (#[trigger] list@[i].formats@[k]).mime@ == m;
            assert(views[k].mime == m);
        }
    }
    let text = hyphenated_text(u);
    if is_selected(db, mime, text) {
        if ids.contains(text) {
            let i = choose|i: int| 0 <= i < ids.len() && ids[i] == text;
            assert(hyphenated_text(list@[i].item.id.bits) == ids[i]);
            lemma_text_is_injective(list@[i].item.id.bits, u);
        } else {
            assert forall|i: int| 0 <= i < list@.len() implies (#[trigger] list@[i]).item.id.bits
                > u by {
                assert(crate::text::text_before(text, ids[i]));
                lemma_text_order_is_id_order(u, list@[i].item.id.bits);
            }
        }
    }
}

} // verus!
