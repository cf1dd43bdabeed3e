use richclip::clock::Timestamp;
use richclip::ids::ItemId;
use richclip::store::blob::{self, Blob, BlobChange, BlobDir, BlobEnd};
use richclip::store::db::{self, Change, Db, FormatRow, ItemRow};
use richclip::{Error, Item, Store};
use std::collections::{BTreeMap, BTreeSet};

const HOUR: i128 = 3_600_000_000_000;

fn temp_store() -> Store {
    Store::open(vec![], vec![], vec![]).expect("store open")
}

fn fmt(mime: &str, bytes: &[u8]) -> (String, Vec<u8>) {
    (mime.to_string(), bytes.to_vec())
}

fn new_id() -> ItemId {
    ItemId { bits: uuid::Uuid::now_v7().as_u128() }
}

/// The blob files, kept up to date from the store's journal.
struct Disk {
    files: BTreeMap<String, Vec<u8>>,
}

impl Disk {
    fn new() -> Disk {
        Disk { files: BTreeMap::new() }
    }

    fn sync(&mut self, store: &mut Store) {
        let (_, changes) = store.take_journal();
        for change in changes {
            match change {
                BlobChange::Write { hash, bytes } => {
                    self.files.entry(blob::blob_path("blobs", &hash)).or_insert(bytes);
                }
                BlobChange::Remove { hash } => {
                    self.files.remove(&blob::blob_path("blobs", &hash));
                }
            }
        }
    }

    fn holds(&self, path: &str) -> bool {
        self.files.contains_key(path)
    }
}

// Blob helpers

#[test]
fn blob_write_read_roundtrip() {
    let mut root = BlobDir::empty();
    let data = b"hello richclip blobs";
    let hash = blob::write_blob(&mut root, data);
    let read_back = blob::read_blob(&root, &hash).unwrap();
    assert_eq!(read_back, data);
}

#[test]
fn blob_deduplication() {
    let mut root = BlobDir::empty();
    let data = b"dedupe me";
    let hash1 = blob::write_blob(&mut root, data);
    let hash2 = blob::write_blob(&mut root, data);
    assert_eq!(hash1, hash2, "identical content must produce the same hash");

    // Only one file.
    let ends = blob::settle(root.take_journal());
    assert_eq!(ends.len(), 1);
    assert_eq!(ends[0].hash, hash1);
    assert!(matches!(&ends[0].end, BlobEnd::Written { bytes } if bytes == data));
    assert!(blob::read_blob(&root, &hash1).is_ok());
}

#[test]
fn blob_hash_is_the_blake3_digest() {
    assert_eq!(
        richclip::blob_hash(b""),
        "af1349b9f5f9a1a6a0404dea36dcc9499bcb25c9adc112b7cc9a93cae41f3262"
    );
    assert_eq!(blob::hash_bytes(b"abc"), richclip::blob_hash(b"abc"));
    assert_ne!(blob::hash_bytes(b"abc"), blob::hash_bytes(b"abd"));
}

#[test]
fn blob_path_splits_after_two_bytes() {
    assert_eq!(blob::blob_path("/data/blobs", "abcdef"), "/data/blobs/ab/cdef");
    assert_eq!(blob::blob_path("/data/blobs/", "abcdef"), "/data/blobs/ab/cdef");
    assert_eq!(blob::blob_path("", "abcdef"), "ab/cdef");
    assert_eq!(blob::blob_path("r", "éxy"), "r/é/xy");
    assert!(blob::has_blob_path("ab"));
    assert!(blob::has_blob_path("é"));
    assert!(!blob::has_blob_path("a"));
    assert!(!blob::has_blob_path(""));
    assert!(!blob::has_blob_path("aé"));
    assert!(!blob::has_blob_path("€uro"));
}

#[test]
fn read_and_delete_of_a_missing_blob() {
    let mut root = BlobDir::empty();
    assert!(matches!(blob::read_blob(&root, "abcd"), Err(Error::NotFound)));
    blob::delete_blob(&mut root, "abcd");
    assert!(matches!(blob::read_blob(&root, "abcd"), Err(Error::NotFound)));
}

// add_item, get_item, formats, decode

#[test]
fn add_item_then_get_item() {
    let mut store = temp_store();

    let formats = vec![
        ("text/plain".to_string(), b"hello world".to_vec()),
        ("text/html".to_string(), b"<b>hello</b>".to_vec()),
    ];
    let id = store.add_item(&formats).unwrap();

    let iwf = store.get_item(id).unwrap();
    assert_eq!(iwf.item.id, id);
    assert_eq!(iwf.formats.len(), 2);

    // Ids are time-ordered UUIDv7.
    assert_eq!(iwf.item.created_at, iwf.item.updated_at);
    let uuid = uuid::Uuid::from_u128(id.bits);
    assert_eq!(uuid.get_version_num(), 7);
}

#[test]
fn formats_returns_all_mimes() {
    let mut store = temp_store();

    let id = store
        .add_item(&[
            ("image/png".to_string(), b"PNG_DATA".to_vec()),
            ("application/x-richclip-label".to_string(), b"a label".to_vec()),
        ])
        .unwrap();

    let fmts = store.formats(id).unwrap();
    let mimes: Vec<&str> = fmts.iter().map(|f| f.mime.as_str()).collect();
    assert!(mimes.contains(&"image/png"));
    assert!(mimes.contains(&"application/x-richclip-label"));
}

#[test]
fn decode_returns_correct_bytes() {
    let mut store = temp_store();
    let payload = b"precise bytes 1234";

    let id = store
        .add_item(&[("application/octet-stream".to_string(), payload.to_vec())])
        .unwrap();

    let got = store.decode(id, "application/octet-stream").unwrap();
    assert_eq!(got, payload);
}

#[test]
fn a_stored_format_is_read_back_in_full() {
    let mut store = temp_store();
    let id = ItemId { bits: 5 };
    let now = Timestamp { nanos: 1_700_000_000_123_456_789 };
    store.add_item_at(id, now, &[fmt("text/plain", b"twelve bytes")]).unwrap();

    let entry = store.get_item(id).unwrap();
    let whole_ms = Timestamp { nanos: 1_700_000_000_123_000_000 };
    assert_eq!(entry.item, Item { id, created_at: whole_ms, updated_at: whole_ms });
    let f = &entry.formats[0];
    assert_eq!(f.item_id, id);
    assert_eq!(f.mime, "text/plain");
    assert_eq!(f.size, 12);
    assert_eq!(f.blob_hash, richclip::blob_hash(b"twelve bytes"));
    assert_eq!(f.captured_at, whole_ms);
}

#[test]
fn the_last_of_two_formats_with_one_mime_stays() {
    let mut store = temp_store();
    let id = store
        .add_item(&[fmt("text/plain", b"first"), fmt("text/plain", b"second")])
        .unwrap();
    assert_eq!(store.formats(id).unwrap().len(), 1);
    assert_eq!(store.decode(id, "text/plain").unwrap(), b"second");
}

#[test]
fn an_identity_is_added_once() {
    let mut store = temp_store();
    let id = ItemId { bits: 77 };
    let now = Timestamp { nanos: 0 };
    store.add_item_at(id, now, &[fmt("text/plain", b"one")]).unwrap();
    match store.add_item_at(id, now, &[fmt("text/plain", b"two")]) {
        Err(Error::Database(text)) => assert_eq!(text, "UNIQUE constraint failed: items.id"),
        other => panic!("unexpected result {:?}", other),
    }
    assert_eq!(store.decode(id, "text/plain").unwrap(), b"one");
}

// set_format: replace semantics + updated_at bump

#[test]
fn set_format_replace_bumps_updated_at() {
    let mut store = temp_store();

    let id = store
        .add_item(&[("text/plain".to_string(), b"v1".to_vec())])
        .unwrap();
    let created = store.get_item(id).unwrap().item.created_at;

    store.set_format(id, "text/plain", b"v2").unwrap();

    let after = store.get_item(id).unwrap();
    assert_eq!(store.decode(id, "text/plain").unwrap(), b"v2");
    assert!(
        after.item.updated_at >= created,
        "updated_at should not go backwards"
    );
    assert_eq!(after.item.created_at, created);
}

#[test]
fn set_format_takes_the_given_instant() {
    let mut store = temp_store();
    let id = ItemId { bits: 1 };
    let created = Timestamp { nanos: 1_000_000_000 };
    let later = Timestamp { nanos: 1_005_000_000 };
    store.add_item_at(id, created, &[fmt("text/plain", b"v1")]).unwrap();
    store.set_format_at(id, later, "text/plain", b"v2").unwrap();
    let item = store.get_item(id).unwrap().item;
    assert_eq!(item.created_at, created);
    assert_eq!(item.updated_at, later);
    assert_eq!(store.formats(id).unwrap()[0].captured_at, later);
}

#[test]
fn set_format_adds_new_mime() {
    let mut store = temp_store();

    let id = store
        .add_item(&[("text/plain".to_string(), b"hello".to_vec())])
        .unwrap();

    store.set_format(id, "text/html", b"<em>hello</em>").unwrap();

    let fmts = store.formats(id).unwrap();
    assert_eq!(fmts.len(), 2);
}

#[test]
fn set_format_deletes_the_replaced_blob() {
    let mut store = temp_store();
    let mut disk = Disk::new();
    let id = store.add_item(&[fmt("text/plain", b"old")]).unwrap();
    disk.sync(&mut store);
    let old = blob::blob_path("blobs", &richclip::blob_hash(b"old"));
    let new = blob::blob_path("blobs", &richclip::blob_hash(b"new"));
    assert!(disk.holds(&old));

    store.set_format(id, "text/plain", b"new").unwrap();
    disk.sync(&mut store);
    assert!(!disk.holds(&old));
    assert!(disk.holds(&new));

    // The same content again leaves the blob alone.
    store.set_format(id, "text/plain", b"new").unwrap();
    disk.sync(&mut store);
    assert!(disk.holds(&new));
}

#[test]
fn set_format_keeps_a_replaced_blob_that_is_shared() {
    let mut store = temp_store();
    let mut disk = Disk::new();
    let id = store.add_item(&[fmt("a/a", b"shared"), fmt("b/b", b"shared")]).unwrap();
    store.set_format(id, "a/a", b"own").unwrap();
    disk.sync(&mut store);
    assert!(disk.holds(&blob::blob_path("blobs", &richclip::blob_hash(b"shared"))));
    assert_eq!(store.decode(id, "b/b").unwrap(), b"shared");
}

// remove_format + inline blob cleanup

#[test]
fn remove_format_deletes_orphan_blob() {
    let mut store = temp_store();
    let mut disk = Disk::new();

    let id = store
        .add_item(&[("text/plain".to_string(), b"only format".to_vec())])
        .unwrap();
    disk.sync(&mut store);

    // Locate the blob file before removal.
    let hash = {
        let fmts = store.formats(id).unwrap();
        fmts[0].blob_hash.clone()
    };
    let path = blob::blob_path("blobs", &hash);
    assert!(disk.holds(&path), "blob must exist before removal");

    store.remove_format(id, "text/plain").unwrap();
    disk.sync(&mut store);

    assert!(
        !disk.holds(&path),
        "orphan blob must be deleted after removing the last reference"
    );
}

#[test]
fn remove_format_keeps_shared_blob() {
    let mut store = temp_store();
    let mut disk = Disk::new();
    let shared_bytes = b"shared content";

    // Both formats share the same blob (identical bytes, same hash).
    let id = store
        .add_item(&[
            ("text/plain".to_string(), shared_bytes.to_vec()),
            ("text/x-other".to_string(), shared_bytes.to_vec()),
        ])
        .unwrap();
    disk.sync(&mut store);

    let hash = {
        let fmts = store.formats(id).unwrap();
        fmts[0].blob_hash.clone()
    };
    let path = blob::blob_path("blobs", &hash);
    assert!(disk.holds(&path));

    // Remove one of the two references.
    store.remove_format(id, "text/plain").unwrap();
    disk.sync(&mut store);

    assert!(
        disk.holds(&path),
        "blob must survive while the other format still references it"
    );
}

// delete_item + inline blob cleanup

#[test]
fn delete_item_removes_blobs() {
    let mut store = temp_store();
    let mut disk = Disk::new();

    let id = store
        .add_item(&[
            ("image/png".to_string(), b"PNG".to_vec()),
            ("text/plain".to_string(), b"alt text".to_vec()),
        ])
        .unwrap();
    disk.sync(&mut store);

    let hashes: Vec<String> = store
        .formats(id)
        .unwrap()
        .iter()
        .map(|f| f.blob_hash.clone())
        .collect();
    assert_eq!(disk.files.len(), 2);

    store.delete_item(id).unwrap();
    disk.sync(&mut store);

    for h in &hashes {
        let p = blob::blob_path("blobs", h);
        assert!(!disk.holds(&p), "all blobs must be removed after delete_item");
    }

    // Item itself must be gone.
    assert!(matches!(store.get_item(id), Err(Error::NotFound)));
}

#[test]
fn delete_item_keeps_shared_blob() {
    let mut store = temp_store();
    let mut disk = Disk::new();
    let shared = b"shared across two items";

    let id1 = store
        .add_item(&[("text/plain".to_string(), shared.to_vec())])
        .unwrap();
    let id2 = store
        .add_item(&[("text/plain".to_string(), shared.to_vec())])
        .unwrap();
    disk.sync(&mut store);

    let hash = store.formats(id1).unwrap()[0].blob_hash.clone();
    let path = blob::blob_path("blobs", &hash);

    store.delete_item(id1).unwrap();
    disk.sync(&mut store);

    assert!(
        disk.holds(&path),
        "blob referenced by id2 must survive deletion of id1"
    );

    // Clean up id2 to verify the blob is now removable.
    store.delete_item(id2).unwrap();
    disk.sync(&mut store);
    assert!(!disk.holds(&path), "blob must be removed when last reference gone");
}

#[test]
fn deleting_an_added_item_undoes_the_addition() {
    let mut store = temp_store();
    let mut disk = Disk::new();
    let kept = store.add_item(&[fmt("text/plain", b"kept")]).unwrap();
    disk.sync(&mut store);
    let before = disk.files.clone();

    let id = store.add_item(&[fmt("text/plain", b"gone"), fmt("text/html", b"kept")]).unwrap();
    store.delete_item(id).unwrap();
    disk.sync(&mut store);
    assert_eq!(disk.files, before);
    let ids: Vec<ItemId> =
        store.list_items(None, None).unwrap().iter().map(|e| e.item.id).collect();
    assert_eq!(ids, vec![kept]);
}

// delete_older_than

#[test]
fn delete_older_than_count() {
    let mut store = temp_store();

    // Add three items.
    let _id1 = store
        .add_item(&[("text/plain".to_string(), b"a".to_vec())])
        .unwrap();
    let _id2 = store
        .add_item(&[("text/plain".to_string(), b"b".to_vec())])
        .unwrap();
    let _id3 = store
        .add_item(&[("text/plain".to_string(), b"c".to_vec())])
        .unwrap();

    // Cutoff = far future: all three deleted.
    let far_future = Timestamp { nanos: Timestamp::now().nanos + HOUR };
    let deleted = store.delete_older_than(far_future);
    assert_eq!(deleted, 3);

    assert_eq!(store.list_items(None, None).unwrap().len(), 0);
}

#[test]
fn delete_older_than_keeps_newer_items() {
    let mut store = temp_store();

    // An item that was created one second after the epoch.
    let old_id = new_id();
    let old = Timestamp { nanos: 1_000_000_000 };
    store
        .add_item_at(old_id, old, &[("text/plain".to_string(), b"old".to_vec())])
        .unwrap();

    let new_id = store
        .add_item(&[("text/plain".to_string(), b"new".to_vec())])
        .unwrap();

    // Cutoff = 1 hour ago; only the old item should be deleted.
    let cutoff = Timestamp { nanos: Timestamp::now().nanos - HOUR };
    let deleted = store.delete_older_than(cutoff);
    assert_eq!(deleted, 1);

    // Old item gone.
    assert!(matches!(store.get_item(old_id), Err(Error::NotFound)));
    // New item survives.
    assert!(store.get_item(new_id).is_ok());
}

#[test]
fn the_cutoff_itself_is_kept_and_pruning_is_idempotent() {
    let mut store = temp_store();
    let mut disk = Disk::new();
    for ms in [1_i128, 2, 3] {
        let at = Timestamp { nanos: ms * 1_000_000 };
        store
            .add_item_at(ItemId { bits: ms as u128 }, at, &[fmt("text/plain", &[ms as u8])])
            .unwrap();
    }
    let cutoff = Timestamp { nanos: 2_999_999 };
    assert_eq!(store.delete_older_than(cutoff), 1);
    assert_eq!(store.delete_older_than(cutoff), 0);
    disk.sync(&mut store);
    assert_eq!(store.list_items(None, None).unwrap().len(), 2);
    assert_eq!(disk.files.len(), 2);
    assert!(!disk.holds(&blob::blob_path("blobs", &richclip::blob_hash(&[1]))));
}

// NotFound paths

#[test]
fn get_item_not_found() {
    let store = temp_store();
    let bogus = new_id();
    assert!(matches!(store.get_item(bogus), Err(Error::NotFound)));
}

#[test]
fn formats_not_found() {
    let store = temp_store();
    let bogus = new_id();
    assert!(matches!(store.formats(bogus), Err(Error::NotFound)));
}

#[test]
fn decode_not_found_item() {
    let store = temp_store();
    let bogus = new_id();
    assert!(matches!(
        store.decode(bogus, "text/plain"),
        Err(Error::NotFound)
    ));
}

#[test]
fn decode_not_found_mime() {
    let mut store = temp_store();

    let id = store
        .add_item(&[("text/plain".to_string(), b"hi".to_vec())])
        .unwrap();

    assert!(matches!(
        store.decode(id, "image/png"),
        Err(Error::NotFound)
    ));
}

#[test]
fn set_format_not_found() {
    let mut store = temp_store();
    let bogus = new_id();
    assert!(matches!(
        store.set_format(bogus, "text/plain", b"x"),
        Err(Error::NotFound)
    ));
}

#[test]
fn remove_format_not_found_item() {
    let mut store = temp_store();
    let bogus = new_id();
    assert!(matches!(
        store.remove_format(bogus, "text/plain"),
        Err(Error::NotFound)
    ));
}

#[test]
fn remove_format_not_found_mime() {
    let mut store = temp_store();

    let id = store
        .add_item(&[("text/plain".to_string(), b"data".to_vec())])
        .unwrap();

    assert!(matches!(
        store.remove_format(id, "image/png"),
        Err(Error::NotFound)
    ));
}

#[test]
fn delete_item_not_found() {
    let mut store = temp_store();
    let bogus = new_id();
    assert!(matches!(store.delete_item(bogus), Err(Error::NotFound)));
}

// list_items

#[test]
fn list_items_newest_first() {
    let mut store = temp_store();

    let id1 = store
        .add_item(&[("text/plain".to_string(), b"first".to_vec())])
        .unwrap();
    let id2 = store
        .add_item(&[("text/plain".to_string(), b"second".to_vec())])
        .unwrap();
    let id3 = store
        .add_item(&[("text/plain".to_string(), b"third".to_vec())])
        .unwrap();

    let items = store.list_items(None, None).unwrap();
    assert_eq!(items.len(), 3);
    // Newest (UUIDv7 = highest) first.
    assert_eq!(items[0].item.id, id3);
    assert_eq!(items[1].item.id, id2);
    assert_eq!(items[2].item.id, id1);
}

#[test]
fn list_items_limit() {
    let mut store = temp_store();

    for i in 0..5u8 {
        store
            .add_item(&[("text/plain".to_string(), vec![i])])
            .unwrap();
    }

    let items = store.list_items(Some(3), None).unwrap();
    assert_eq!(items.len(), 3);
    assert_eq!(store.list_items(Some(0), None).unwrap().len(), 0);
    assert_eq!(store.list_items(Some(usize::MAX), None).unwrap().len(), 5);
}

#[test]
fn list_items_mime_filter() {
    let mut store = temp_store();

    store
        .add_item(&[("text/plain".to_string(), b"text only".to_vec())])
        .unwrap();
    let png_id = store
        .add_item(&[
            ("image/png".to_string(), b"PNG".to_vec()),
            ("text/plain".to_string(), b"alt".to_vec()),
        ])
        .unwrap();

    let items = store.list_items(None, Some("image/png")).unwrap();
    assert_eq!(items.len(), 1);
    assert_eq!(items[0].item.id, png_id);
}

#[test]
fn list_items_filters_before_it_limits() {
    let mut store = temp_store();
    let now = Timestamp { nanos: 0 };
    for bits in 1..=4_u128 {
        let mime = if bits % 2 == 0 { "image/png" } else { "text/plain" };
        store.add_item_at(ItemId { bits }, now, &[fmt(mime, &[bits as u8])]).unwrap();
    }
    let items = store.list_items(Some(1), Some("text/plain")).unwrap();
    assert_eq!(items.len(), 1);
    assert_eq!(items[0].item.id, ItemId { bits: 3 });
}

#[test]
fn a_stored_id_that_is_no_uuid_fails_the_listing() {
    let row = |id: &str| ItemRow { id: id.to_string(), created_at: 0, updated_at: 0 };
    let store = Store::open(vec![row("nonsense")], vec![], vec![]).unwrap();
    assert!(matches!(store.list_items(None, None), Err(Error::InvalidId(_))));
    // The other spelling of an id that is only there in capitals.
    let upper = "0190A1B2-0000-7000-8000-00000000000A";
    let store = Store::open(vec![row(upper)], vec![], vec![]).unwrap();
    assert!(matches!(store.list_items(None, None), Err(Error::NotFound)));
}

// update_item

#[test]
fn update_item_removes_then_sets() {
    let mut store = temp_store();
    let id = store.add_item(&[fmt("a/a", b"1"), fmt("b/b", b"2")]).unwrap();
    store
        .update_item(id, &["a/a".to_string()], &[fmt("c/c", b"3"), fmt("b/b", b"4")])
        .unwrap();
    assert!(store.decode(id, "a/a").is_err());
    assert_eq!(store.decode(id, "b/b").unwrap(), b"4");
    assert_eq!(store.decode(id, "c/c").unwrap(), b"3");
}

#[test]
fn a_failed_update_leaves_nothing_half_done() {
    let mut store = temp_store();
    let id = store.add_item(&[fmt("a/a", b"1"), fmt("b/b", b"2")]).unwrap();
    store.take_journal();
    let missing = ["a/a".to_string(), "x/x".to_string()];
    assert!(matches!(store.update_item(id, &missing, &[]), Err(Error::NotFound)));
    let twice = ["a/a".to_string(), "a/a".to_string()];
    assert!(matches!(store.update_item(id, &twice, &[]), Err(Error::NotFound)));
    assert!(matches!(
        store.update_item(new_id(), &[], &[fmt("c/c", b"3")]),
        Err(Error::NotFound)
    ));
    assert_eq!(store.decode(id, "a/a").unwrap(), b"1");
    let (changes, blobs) = store.take_journal();
    assert!(changes.is_empty() && blobs.is_empty());
    assert!(store.update_item(new_id(), &[], &[]).is_ok());
}

// The journal

/// Plain tables that the journal is replayed on.
#[derive(Default, PartialEq, Debug)]
struct Tables {
    items: BTreeMap<String, (i64, i64)>,
    formats: BTreeMap<(String, String), (String, i64, i64)>,
}

impl Tables {
    fn apply(&mut self, change: Change) {
        match change {
            Change::InsertItem { id, created_at, updated_at } => {
                self.items.insert(id, (created_at, updated_at));
            }
            Change::TouchItem { id, updated_at } => {
                if let Some(times) = self.items.get_mut(&id) {
                    times.1 = updated_at;
                }
            }
            Change::UpsertFormat { item_id, mime, blob_hash, size, captured_at } => {
                self.formats.insert((item_id, mime), (blob_hash, size, captured_at));
            }
            Change::DeleteFormat { item_id, mime } => {
                self.formats.remove(&(item_id, mime));
            }
            Change::DeleteFormatsOf { item_id } => self.formats.retain(|k, _| k.0 != item_id),
            Change::DeleteItem { id } => {
                self.items.remove(&id);
            }
            Change::DeleteFormatsBefore { cutoff_ms } => {
                let old: BTreeSet<String> = self
                    .items
                    .iter()
                    .filter(|(_, t)| t.0 < cutoff_ms)
                    .map(|(id, _)| id.clone())
                    .collect();
                self.formats.retain(|k, _| !old.contains(&k.0));
            }
            Change::DeleteItemsBefore { cutoff_ms } => self.items.retain(|_, t| t.0 >= cutoff_ms),
        }
    }
}

#[test]
fn the_journal_leads_to_the_same_tables() {
    let mut store = temp_store();
    let mut tables = Tables::default();
    let at = |ms: i128| Timestamp { nanos: ms * 1_000_000 };
    let (one, two, three) = (ItemId { bits: 1 }, ItemId { bits: 2 }, ItemId { bits: 3 });
    store.add_item_at(one, at(10), &[fmt("a/a", b"1"), fmt("b/b", b"2")]).unwrap();
    store.add_item_at(two, at(20), &[fmt("a/a", b"1")]).unwrap();
    store.add_item_at(three, at(30), &[fmt("c/c", b"3")]).unwrap();
    store.set_format_at(two, at(40), "d/d", b"4").unwrap();
    store.remove_format_at(three, at(50), "c/c").unwrap();
    store.delete_item(one).unwrap();
    store.delete_older_than(at(21));
    let (changes, _) = store.take_journal();
    for change in changes {
        tables.apply(change);
    }
    let mut expected = Tables::default();
    for entry in store.list_items(None, None).unwrap() {
        let ms = |t: Timestamp| (t.nanos / 1_000_000) as i64;
        let id = entry.item.id.to_text();
        expected.items.insert(id.clone(), (ms(entry.item.created_at), ms(entry.item.updated_at)));
        for f in entry.formats {
            expected
                .formats
                .insert((id.clone(), f.mime), (f.blob_hash, f.size as i64, ms(f.captured_at)));
        }
    }
    assert_eq!(tables, expected);
    assert_eq!(tables.items.len(), 1);
}

#[test]
fn steps_on_a_blob_come_to_one_end() {
    let write = |hash: &str, byte: u8| BlobChange::Write { hash: hash.to_string(), bytes: vec![byte] };
    let remove = |hash: &str| BlobChange::Remove { hash: hash.to_string() };
    let ends = blob::settle(vec![
        write("aa", 1),
        remove("bb"),
        remove("aa"),
        write("bb", 2),
        write("bb", 3),
        remove("cc"),
        remove("cc"),
        write("dd", 4),
        write("dd", 5),
    ]);
    let of = |hash: &str| &ends.iter().find(|b| b.hash == hash).unwrap().end;
    assert_eq!(ends.len(), 4);
    assert!(matches!(of("aa"), BlobEnd::Removed));
    assert!(matches!(of("bb"), BlobEnd::Replaced { bytes } if bytes == &[2]));
    assert!(matches!(of("cc"), BlobEnd::Removed));
    assert!(matches!(of("dd"), BlobEnd::Written { bytes } if bytes == &[4]));
}

#[test]
fn files_that_were_not_read_follow_their_references() {
    // Three items: two share a content, and no blob is read.
    let rows = || {
        let mut items = Vec::new();
        let mut formats = Vec::new();
        for (bits, content) in [(1_u128, b"shared"), (2, b"shared"), (3, b"single")] {
            let id = ItemId { bits }.to_text();
            items.push(ItemRow { id: id.clone(), created_at: bits as i64, updated_at: 0 });
            formats.push(FormatRow {
                item_id: id,
                mime: "text/plain".to_string(),
                blob_hash: richclip::blob_hash(content),
                size: 6,
                captured_at: 0,
            });
        }
        Store::open(items, formats, vec![]).unwrap()
    };
    let removed = |store: &mut Store| -> Vec<String> {
        blob::settle(store.take_journal().1)
            .into_iter()
            .filter(|b| matches!(b.end, BlobEnd::Removed))
            .map(|b| b.hash)
            .collect()
    };
    let (shared, single) = (richclip::blob_hash(b"shared"), richclip::blob_hash(b"single"));

    let mut store = rows();
    store.delete_item(ItemId { bits: 1 }).unwrap();
    assert!(removed(&mut store).is_empty());
    store.delete_item(ItemId { bits: 3 }).unwrap();
    assert_eq!(removed(&mut store), [single.clone()]);
    store.delete_item(ItemId { bits: 2 }).unwrap();
    assert_eq!(removed(&mut store), [shared.clone()]);

    let mut store = rows();
    store.remove_format(ItemId { bits: 2 }, "text/plain").unwrap();
    assert!(removed(&mut store).is_empty());
    store.set_format(ItemId { bits: 1 }, "text/plain", b"other").unwrap();
    assert_eq!(removed(&mut store), [shared.clone()]);

    let mut store = rows();
    let at = |ms: i64| richclip::clock::from_epoch_ms(ms);
    assert_eq!(store.delete_older_than(at(2)), 1);
    assert!(removed(&mut store).is_empty());
    assert_eq!(store.delete_older_than(at(9)), 2);
    let mut gone = removed(&mut store);
    gone.sort();
    let mut both = vec![shared, single.clone()];
    both.sort();
    assert_eq!(gone, both);

    // A content that goes and comes back within one update is written anew.
    let mut store = rows();
    let id = ItemId { bits: 3 };
    store.update_item(id, &["text/plain".to_string()], &[fmt("a/a", b"single")]).unwrap();
    let ends = blob::settle(store.take_journal().1);
    assert_eq!(ends.len(), 1);
    assert_eq!(ends[0].hash, single);
    assert!(matches!(&ends[0].end, BlobEnd::Replaced { bytes } if bytes == b"single"));
}

// Rows

#[test]
fn rows_and_blobs_can_be_read_from_disk() {
    let id = ItemId { bits: 9 };
    let hash = richclip::blob_hash(b"content");
    let store = Store::open(
        vec![ItemRow { id: id.to_text(), created_at: 5, updated_at: 6 }],
        vec![FormatRow {
            item_id: id.to_text(),
            mime: "text/plain".to_string(),
            blob_hash: hash.clone(),
            size: 7,
            captured_at: 8,
        }],
        vec![
            Blob { hash: hash.clone(), bytes: b"content".to_vec() },
            Blob { hash, bytes: b"dropped".to_vec() },
        ],
    )
    .unwrap();
    assert_eq!(store.decode(id, "text/plain").unwrap(), b"content");
    assert_eq!(store.get_item(id).unwrap().item.updated_at, Timestamp { nanos: 6_000_000 });
}

#[test]
fn duplicate_rows_are_refused() {
    let item = || ItemRow { id: "x".to_string(), created_at: 0, updated_at: 0 };
    match Db::from_rows(vec![item(), item()], vec![]) {
        Err(Error::Database(text)) => assert_eq!(text, "UNIQUE constraint failed: items.id"),
        _ => panic!("duplicate items must be refused"),
    }
    let format = || FormatRow {
        item_id: "x".to_string(),
        mime: "a/a".to_string(),
        blob_hash: "h".to_string(),
        size: 0,
        captured_at: 0,
    };
    match Db::from_rows(vec![item()], vec![format(), format()]) {
        Err(Error::Database(text)) => {
            assert_eq!(text, "UNIQUE constraint failed: formats.item_id, formats.mime")
        }
        _ => panic!("duplicate formats must be refused"),
    }
}

#[test]
fn rows_keep_their_references() {
    let mut tables = Db::empty();
    let now = Timestamp { nanos: 0 };
    let id = ItemId { bits: 3 };
    let format = richclip::Format {
        item_id: id,
        mime: "a/a".to_string(),
        blob_hash: "hash".to_string(),
        size: 1,
        captured_at: now,
    };
    match db::upsert_format(&mut tables, &format) {
        Err(Error::Database(text)) => assert_eq!(text, "FOREIGN KEY constraint failed"),
        other => panic!("unexpected result {:?}", other),
    }
    assert!(matches!(db::bump_updated_at(&mut tables, id, now), Err(Error::NotFound)));
    assert!(matches!(db::delete_item_row(&mut tables, id), Err(Error::NotFound)));
    db::insert_item(&mut tables, &Item { id, created_at: now, updated_at: now }).unwrap();
    db::upsert_format(&mut tables, &format).unwrap();
    assert!(db::blob_hash_has_references(&tables, "hash"));
    assert!(!db::blob_hash_has_references(&tables, "other"));
    match db::delete_item_row(&mut tables, id) {
        Err(Error::Database(text)) => assert_eq!(text, "FOREIGN KEY constraint failed"),
        other => panic!("unexpected result {:?}", other),
    }
    assert!(db::require_item(&tables, id).is_ok());
    assert_eq!(db::get_format(&tables, id, "a/a").unwrap().blob_hash, "hash");
    assert_eq!(db::get_formats(&tables, id).unwrap().len(), 1);
    assert_eq!(db::get_item(&tables, id).unwrap().id, id);
    assert_eq!(db::delete_format_row(&mut tables, id, "a/a").unwrap(), "hash");
    assert!(matches!(db::delete_format_row(&mut tables, id, "a/a"), Err(Error::NotFound)));
    assert!(db::delete_item_row(&mut tables, id).is_ok());
    assert_eq!(tables.take_journal().len(), 4);
}

#[test]
fn deletions_report_each_hash_once() {
    let mut tables = Db::empty();
    let at = |ms: i128| Timestamp { nanos: ms * 1_000_000 };
    for bits in [1_u128, 2, 3] {
        let id = ItemId { bits };
        let t = at(bits as i128);
        db::insert_item(&mut tables, &Item { id, created_at: t, updated_at: t }).unwrap();
        for (mime, hash) in [("a/a", "zz"), ("b/b", "zz"), ("c/c", "aa")] {
            let f = richclip::Format {
                item_id: id,
                mime: mime.to_string(),
                blob_hash: hash.to_string(),
                size: 1,
                captured_at: t,
            };
            db::upsert_format(&mut tables, &f).unwrap();
        }
    }
    let mut hashes = db::delete_formats_for_item(&mut tables, ItemId { bits: 3 });
    hashes.sort();
    assert_eq!(hashes, vec!["aa", "zz"]);
    let (ids, hashes) = db::delete_items_older_than(&mut tables, 3);
    assert_eq!(ids.len(), 2);
    assert_eq!(hashes, vec!["aa", "zz"]);
    let (ids, hashes) = db::delete_items_older_than(&mut tables, 3);
    assert!(ids.is_empty() && hashes.is_empty());
    assert_eq!(db::list_items(&tables, None, None).unwrap().len(), 1);
}
