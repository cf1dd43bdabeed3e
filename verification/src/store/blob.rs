//! Content-addressed blobs.
//!
//! A blob is kept under the `blake3` hash of its content, at
//! `<root>/<aa>/<rest>` where `aa` is the first two hex characters of the
//! hash. This two-level fanout keeps directory sizes reasonable.
//!
//! The directory is held in memory, or as much of it as was read. Every write
//! and every removal is also written to a journal, so that the files can follow.
//! What the journal makes of a directory is stated for any directory, whatever
//! was read of it.

use crate::error::{Error, Result};
use crate::paths::{join_path, joined_path};
use crate::store::table::{
    lemma_table, lemma_table_push, lemma_table_remove, lemma_table_update, table, unique_keys, Row,
};
use crate::text::{chars_of, clone_bytes, same_text, string_of_range};
use vstd::prelude::*;

verus! {

/// The `blake3` digest of `bytes` in hexadecimal.
pub uninterp spec fn blake3_hex(bytes: Seq<u8>) -> Seq<char>;

/// A lowercase hexadecimal digit.
pub open spec fn is_hex_digit(c: char) -> bool {
    ('0' <= c && c <= '9') || ('a' <= c && c <= 'f')
}

/// `blake3::hash` and `Hash::to_hex`: a function of the bytes alone, written
/// in 64 lowercase hexadecimal digits.
#[verifier::external_body]
fn blake3_text(bytes: &[u8]) -> (r: String)
    ensures
        r@ == blake3_hex(bytes@),
        r@.len() == 64,
        forall|i: int| 0 <= i < r@.len() ==> is_hex_digit(#[trigger] r@[i]),
{
    blake3::hash(bytes).to_hex().to_string()
}

/// Compute the `blake3` hex digest of `bytes`.
pub fn hash_bytes(bytes: &[u8]) -> (r: String)
    ensures
        r@ == blake3_hex(bytes@),
        r@.len() == 64,
        forall|i: int| 0 <= i < r@.len() ==> is_hex_digit(#[trigger] r@[i]),
        splits_after_two(r@),
{
    let r = blake3_text(bytes);
    assert(is_hex_digit(r@[0]) && is_hex_digit(r@[1]));
    r
}

/// The hash under which `bytes` are kept.
pub fn blob_hash(bytes: &[u8]) -> (r: String)
    ensures
        r@ == blake3_hex(bytes@),
        r@.len() == 64,
        forall|i: int| 0 <= i < r@.len() ==> is_hex_digit(#[trigger] r@[i]),
        splits_after_two(r@),
{
    hash_bytes(bytes)
}

/// The first two bytes of the text are whole characters: two of one byte, or
/// one of two.
pub open spec fn splits_after_two(s: Seq<char>) -> bool {
    ||| s.len() >= 2 && (s[0] as u32) < 0x80 && (s[1] as u32) < 0x80
    ||| s.len() >= 1 && 0x80 <= (s[0] as u32) < 0x800
}

/// How many characters the first two bytes make.
pub open spec fn bucket_len(s: Seq<char>) -> int {
    if (s[0] as u32) < 0x80 {
        2
    } else {
        1
    }
}

/// The path of the blob with the given hash.
pub open spec fn blob_path_of(root: Seq<char>, hash: Seq<char>) -> Seq<char> {
    joined_path(
        joined_path(root, hash.take(bucket_len(hash))),
        hash.skip(bucket_len(hash)),
    )
}

/// Derive the filesystem path for a blob given the blob root and hash.
pub fn blob_path(root: &str, hash: &str) -> (r: String)
    requires
        splits_after_two(hash@),
    ensures
        r@ == blob_path_of(root@, hash@),
{
    let chars = chars_of(hash);
    let bucket: usize = if (chars[0] as u32) < 0x80 {
        2
    } else {
        1
    };
    let prefix = string_of_range(chars.as_slice(), 0, bucket);
    let rest = string_of_range(chars.as_slice(), bucket, chars.len());
    assert(prefix@ =~= hash@.take(bucket_len(hash@)));
    assert(rest@ =~= hash@.skip(bucket_len(hash@)));
    let dir = join_path(root, prefix.as_str());
    join_path(dir.as_str(), rest.as_str())
}

/// Whether [`blob_path`] takes the hash.
pub fn has_blob_path(hash: &str) -> (r: bool)
    ensures
        r == splits_after_two(hash@),
{
    let chars = chars_of(hash);
    if chars.len() == 0 {
        false
    } else if (chars[0] as u32) < 0x80 {
        chars.len() >= 2 && (chars[1] as u32) < 0x80
    } else {
        (chars[0] as u32) < 0x800
    }
}

/// The blob of a digest lies in a directory named by its first two digits, in a
/// file named by the others.
pub proof fn law_blob_places(root: Seq<char>, bucket: Seq<char>, name: Seq<char>)
    requires
        root.len() > 0,
        root[root.len() - 1] != '/',
        bucket.len() == 2,
        name.len() > 0,
        forall|i: int| 0 <= i < 2 ==> is_hex_digit(#[trigger] bucket[i]),
        forall|i: int| 0 <= i < name.len() ==> is_hex_digit(#[trigger] name[i]),
    ensures
        blob_path_of(root, bucket + name) == root + seq!['/'] + bucket + seq!['/'] + name,
{
    let hash = bucket + name;
    assert(hash[0] == bucket[0]);
    assert(is_hex_digit(bucket[0]) && is_hex_digit(bucket[1]) && is_hex_digit(name[0]));
    assert(hash.take(2) =~= bucket);
    assert(hash.skip(2) =~= name);
    crate::paths::law_joined_path(root, bucket);
    let dir = root + seq!['/'] + bucket;
    assert(dir.last() == bucket[1]);
    crate::paths::law_joined_path(dir, name);
}

/// Two hashes of digests share a path only where they are the same.
pub proof fn law_blob_path_is_injective(root: Seq<char>, a: Seq<char>, b: Seq<char>)
    requires
        a.len() == 64,
        b.len() == 64,
        forall|i: int| 0 <= i < 64 ==> is_hex_digit(#[trigger] a[i]),
        forall|i: int| 0 <= i < 64 ==> is_hex_digit(#[trigger] b[i]),
        blob_path_of(root, a) == blob_path_of(root, b),
    ensures
        a == b,
{
    assert(is_hex_digit(a[0]) && is_hex_digit(b[0]) && is_hex_digit(a[2]) && is_hex_digit(b[2]));
    assert(is_hex_digit(a[1]) && is_hex_digit(b[1]));
    let da = joined_path(root, a.take(2));
    let db = joined_path(root, b.take(2));
    assert(a.take(2)[0] == a[0] && b.take(2)[0] == b[0]);
    assert(a.skip(2)[0] == a[2] && b.skip(2)[0] == b[2]);
    assert(a.take(2).last() == a[1] && b.take(2).last() == b[1]);
    assert(da.last() == a[1] && db.last() == b[1]);
    assert(da.len() == db.len());
    let pa = da + seq!['/'] + a.skip(2);
    let pb = db + seq!['/'] + b.skip(2);
    assert(pa == pb);
    let n = da.len() as int;
    assert forall|i: int| 0 <= i < 64 implies a[i] == b[i] by {
        if i < 2 {
            assert(pa[n - 2 + i] == da[n - 2 + i] && da[n - 2 + i] == a.take(2)[i]);
            assert(pb[n - 2 + i] == db[n - 2 + i] && db[n - 2 + i] == b.take(2)[i]);
        } else {
            assert(pa[n + 1 + i - 2] == a.skip(2)[i - 2]);
            assert(pb[n + 1 + i - 2] == b.skip(2)[i - 2]);
        }
    }
    assert(a =~= b);
}

// ---------------------------------------------------------------------------
// The directory
// ---------------------------------------------------------------------------

/// One blob: its content, under its hash.
#[derive(Debug)]
pub struct Blob {
    pub hash: String,
    pub bytes: Vec<u8>,
}

impl Row for Blob {
    type Key = Seq<char>;

    type Data = Seq<u8>;

    open spec fn key(self) -> Seq<char> {
        self.hash@
    }

    open spec fn data(self) -> Seq<u8> {
        self.bytes@
    }
}

/// One step that changes the directory.
#[derive(Debug)]
pub enum BlobChange {
    /// Write a blob, unless it is there.
    Write { hash: String, bytes: Vec<u8> },
    /// Remove a blob, if it is there.
    Remove { hash: String },
}

/// The blobs after one step.
pub open spec fn blobs_after(
    blobs: Map<Seq<char>, Seq<u8>>,
    change: BlobChange,
) -> Map<Seq<char>, Seq<u8>> {
    match change {
        BlobChange::Write { hash, bytes } => if blobs.contains_key(hash@) {
            blobs
        } else {
            blobs.insert(hash@, bytes@)
        },
        BlobChange::Remove { hash } => blobs.remove(hash@),
    }
}

/// The blobs after a list of steps, the first of them first.
pub open spec fn blobs_replayed(
    blobs: Map<Seq<char>, Seq<u8>>,
    changes: Seq<BlobChange>,
) -> Map<Seq<char>, Seq<u8>>
    decreases changes.len(),
{
    if changes.len() == 0 {
        blobs
    } else {
        blobs_after(blobs_replayed(blobs, changes.drop_last()), changes.last())
    }
}

/// The blobs in memory, and the steps taken since they were read or since the
/// journal was last taken.
pub struct BlobDir {
    blobs: Vec<Blob>,
    journal: Vec<BlobChange>,
    base: Ghost<Map<Seq<char>, Seq<u8>>>,
}

impl View for BlobDir {
    type V = Map<Seq<char>, Seq<u8>>;

    closed spec fn view(&self) -> Map<Seq<char>, Seq<u8>> {
        table(self.blobs@)
    }
}

impl BlobDir {
    /// The steps not yet taken.
    pub closed spec fn pending(self) -> Seq<BlobChange> {
        self.journal@
    }

    /// The blobs that the pending steps started from.
    pub closed spec fn base_state(self) -> Map<Seq<char>, Seq<u8>> {
        self.base@
    }

    /// Hashes are unique, and the pending steps lead from the base state to
    /// this one.
    pub closed spec fn wf(self) -> bool {
        &&& unique_keys(self.blobs@)
        &&& self@ == blobs_replayed(self.base@, self.journal@)
    }

    /// A directory without blobs.
    pub fn empty() -> (r: BlobDir)
        ensures
            r.wf(),
            r@ == Map::<Seq<char>, Seq<u8>>::empty(),
            r.pending().len() == 0,
            r.base_state() == r@,
    {
        BlobDir { blobs: Vec::new(), journal: Vec::new(), base: Ghost(Map::empty()) }
    }

    /// Take up a blob that is on disk. One whose hash is already there is
    /// dropped.
    pub fn load(&mut self, hash: String, bytes: Vec<u8>)
        requires
            old(self).wf(),
            old(self).pending().len() == 0,
        ensures
            final(self).wf(),
            final(self).pending().len() == 0,
            final(self).base_state() == final(self)@,
            final(self)@ == (if old(self)@.contains_key(hash@) {
                old(self)@
            } else {
                old(self)@.insert(hash@, bytes@)
            }),
    {
        if self.find(hash.as_str()) == self.blobs.len() {
            let blob = Blob { hash, bytes };
            proof {
                lemma_table_push(self.blobs@, blob);
            }
            self.blobs.push(blob);
        }
        self.base = Ghost(table(self.blobs@));
    }

    /// Hand out the pending steps.
    pub fn take_journal(&mut self) -> (r: Vec<BlobChange>)
        requires
            old(self).wf(),
        ensures
            final(self).wf(),
            final(self)@ == old(self)@,
            final(self).pending().len() == 0,
            final(self).base_state() == old(self)@,
            r@ == old(self).pending(),
            blobs_replayed(old(self).base_state(), r@) == old(self)@,
    {
        let mut journal: Vec<BlobChange> = Vec::new();
        std::mem::swap(&mut journal, &mut self.journal);
        self.base = Ghost(table(self.blobs@));
        journal
    }

    /// The place of the blob, or the number of blobs where there is none.
    fn find(&self, hash: &str) -> (r: usize)
        requires
            unique_keys(self.blobs@),
        ensures
            r <= self.blobs@.len(),
            r < self.blobs@.len() ==> self.blobs@[r as int].key() == hash@ && self@.contains_key(
                hash@,
            ) && self@[hash@] == self.blobs@[r as int].data(),
            r == self.blobs@.len() ==> !self@.contains_key(hash@),
    {
        proof {
            lemma_table(self.blobs@);
        }
        let mut i: usize = 0;
        while i < self.blobs.len()
            invariant
                unique_keys(self.blobs@),
                i <= self.blobs@.len(),
                forall|j: int| 0 <= j < i ==> (#[trigger] self.blobs@[j]).key() != hash@,
            decreases self.blobs@.len() - i,
        {
            if same_text(self.blobs[i].hash.as_str(), hash) {
                proof {
                    lemma_table(self.blobs@);
                    assert(self.blobs@[i as int].key() == hash@);
                }
                return i;
            }
            i += 1;
        }
        i
    }

    fn record(&mut self, change: BlobChange)
        requires
            unique_keys(old(self).blobs@),
            old(self)@ == blobs_after(
                blobs_replayed(old(self).base@, old(self).journal@),
                change,
            ),
        ensures
            final(self).wf(),
            final(self)@ == old(self)@,
            final(self).pending() == old(self).pending().push(change),
            final(self).base_state() == old(self).base_state(),
            forall|dir: Map<Seq<char>, Seq<u8>>| #[trigger]
                blobs_replayed(dir, final(self).pending()) == blobs_after(
                    blobs_replayed(dir, old(self).pending()),
                    change,
                ),
    {
        let ghost before = self.journal@;
        self.journal.push(change);
        assert(self.journal@.drop_last() =~= before);
    }
}

/// The blobs once `bytes` are written: nothing changes where their hash is
/// already there.
pub open spec fn with_blob(
    blobs: Map<Seq<char>, Seq<u8>>,
    bytes: Seq<u8>,
) -> Map<Seq<char>, Seq<u8>> {
    if blobs.contains_key(blake3_hex(bytes)) {
        blobs
    } else {
        blobs.insert(blake3_hex(bytes), bytes)
    }
}

/// Write `bytes` to the blob store idempotently (deduplication by hash).
///
/// Returns the hex hash of `bytes`.
pub fn write_blob(dir: &mut BlobDir, bytes: &[u8]) -> (r: String)
    requires
        old(dir).wf(),
    ensures
        final(dir).wf(),
        final(dir).base_state() == old(dir).base_state(),
        r@ == blake3_hex(bytes@),
        final(dir)@ == with_blob(old(dir)@, bytes@),
        final(dir).pending().len() == old(dir).pending().len() + 1,
        final(dir).pending().drop_last() == old(dir).pending(),
        final(dir).pending().last() matches BlobChange::Write { hash: h, bytes: b } && h@ == r@
            && b@ == bytes@,
        forall|d: Map<Seq<char>, Seq<u8>>| #[trigger]
            blobs_replayed(d, final(dir).pending()) == with_blob(
                blobs_replayed(d, old(dir).pending()),
                bytes@,
            ),
{
    let hash = hash_bytes(bytes);
    if dir.find(hash.as_str()) == dir.blobs.len() {
        let blob = Blob { hash: hash.clone(), bytes: clone_bytes(bytes) };
        proof {
            lemma_table_push(dir.blobs@, blob);
        }
        dir.blobs.push(blob);
    }
    let ghost before = dir.pending();
    dir.record(BlobChange::Write { hash: hash.clone(), bytes: clone_bytes(bytes) });
    assert(dir.pending().drop_last() =~= before);
    hash
}

/// Read the blob identified by `hash` from the store.
pub fn read_blob(dir: &BlobDir, hash: &str) -> (r: Result<Vec<u8>>)
    requires
        dir.wf(),
    ensures
        match r {
            Ok(bytes) => dir@.contains_key(hash@) && bytes@ == dir@[hash@],
            Err(e) => !dir@.contains_key(hash@) && e is NotFound,
        },
{
    let at = dir.find(hash);
    if at < dir.blobs.len() {
        Ok(clone_bytes(dir.blobs[at].bytes.as_slice()))
    } else {
        Err(Error::NotFound)
    }
}

/// Delete the blob for `hash`, if it exists.
///
/// This is called only after confirming that no remaining `formats` row
/// references this hash.
pub fn delete_blob(dir: &mut BlobDir, hash: &str)
    requires
        old(dir).wf(),
    ensures
        final(dir).wf(),
        final(dir).base_state() == old(dir).base_state(),
        final(dir)@ == old(dir)@.remove(hash@),
        final(dir).pending().len() == old(dir).pending().len() + 1,
        final(dir).pending().drop_last() == old(dir).pending(),
        final(dir).pending().last() matches BlobChange::Remove { hash: h } && h@ == hash@,
        forall|d: Map<Seq<char>, Seq<u8>>| #[trigger]
            blobs_replayed(d, final(dir).pending()) == blobs_replayed(
                d,
                old(dir).pending(),
            ).remove(hash@),
{
    let at = dir.find(hash);
    if at < dir.blobs.len() {
        proof {
            lemma_table_remove(dir.blobs@, at as int);
        }
        dir.blobs.remove(at);
    }
    assert(dir@ =~= old(dir)@.remove(hash@));
    let ghost before = dir.pending();
    dir.record(BlobChange::Remove { hash: hash.to_owned() });
    assert(dir.pending().drop_last() =~= before);
}

// ---------------------------------------------------------------------------
// Steps put in order
// ---------------------------------------------------------------------------

/// What becomes of one blob.
#[derive(Debug)]
pub enum BlobEnd {
    /// It is written, unless it is there.
    Written { bytes: Vec<u8> },
    /// It is written in place of what is there.
    Replaced { bytes: Vec<u8> },
    /// It is removed, if it is there.
    Removed,
}

/// What a [`BlobEnd`] holds.
pub enum EndView {
    Written(Seq<u8>),
    Replaced(Seq<u8>),
    Removed,
}

impl View for BlobEnd {
    type V = EndView;

    open spec fn view(&self) -> EndView {
        match self {
            BlobEnd::Written { bytes } => EndView::Written(bytes@),
            BlobEnd::Replaced { bytes } => EndView::Replaced(bytes@),
            BlobEnd::Removed => EndView::Removed,
        }
    }
}

/// One blob, and what becomes of it.
#[derive(Debug)]
pub struct SettledBlob {
    pub hash: String,
    pub end: BlobEnd,
}

impl Row for SettledBlob {
    type Key = Seq<char>;

    type Data = EndView;

    open spec fn key(self) -> Seq<char> {
        self.hash@
    }

    open spec fn data(self) -> EndView {
        self.end@
    }
}

/// The blobs once each has come to its end.
pub open spec fn settled(
    blobs: Map<Seq<char>, Seq<u8>>,
    ends: Map<Seq<char>, EndView>,
) -> Map<Seq<char>, Seq<u8>> {
    Map::new(
        |h: Seq<char>|
            if ends.contains_key(h) {
                !(ends[h] is Removed)
            } else {
                blobs.contains_key(h)
            },
        |h: Seq<char>|
            if ends.contains_key(h) {
                match ends[h] {
                    EndView::Written(bytes) => if blobs.contains_key(h) {
                        blobs[h]
                    } else {
                        bytes
                    },
                    EndView::Replaced(bytes) => bytes,
                    EndView::Removed => blobs[h],
                }
            } else {
                blobs[h]
            },
    )
}

/// Put steps together: what becomes of each blob, each of them once. So what is
/// to be written can be written before a transaction commits, and what is to be
/// removed can be removed after it has.
pub fn settle(changes: Vec<BlobChange>) -> (r: Vec<SettledBlob>)
    ensures
        unique_keys(r@),
        forall|blobs: Map<Seq<char>, Seq<u8>>| #[trigger]
            blobs_replayed(blobs, changes@) == settled(blobs, table(r@)),
{
    let ghost all = changes@;
    let mut ends: Vec<SettledBlob> = Vec::new();
    let mut i: usize = 0;
    proof {
        lemma_table(ends@);
        assert forall|blobs: Map<Seq<char>, Seq<u8>>| #[trigger]
            blobs_replayed(blobs, all.take(0)) == settled(blobs, table(ends@)) by {
            assert(blobs =~= settled(blobs, table(ends@)));
        }
    }
    while i < changes.len()
        invariant
            i <= changes@.len(),
            all == changes@,
            unique_keys(ends@),
            forall|blobs: Map<Seq<char>, Seq<u8>>| #[trigger]
                blobs_replayed(blobs, all.take(i as int)) == settled(blobs, table(ends@)),
        decreases changes@.len() - i,
    {
        let ghost before = table(ends@);
        match &changes[i] {
            BlobChange::Write { hash, bytes } => {
                let at = find_end(&ends, hash.as_str());
                if at == ends.len() {
                    let row = SettledBlob {
                        hash: hash.clone(),
                        end: BlobEnd::Written { bytes: clone_bytes(bytes.as_slice()) },
                    };
                    proof {
                        lemma_table_push(ends@, row);
                    }
                    ends.push(row);
                } else if is_removed(&ends[at].end) {
                    let row = SettledBlob {
                        hash: hash.clone(),
                        end: BlobEnd::Replaced { bytes: clone_bytes(bytes.as_slice()) },
                    };
                    proof {
                        lemma_table_update(ends@, at as int, row);
                    }
                    ends.set(at, row);
                }
            },
            BlobChange::Remove { hash } => {
                let at = find_end(&ends, hash.as_str());
                let row = SettledBlob { hash: hash.clone(), end: BlobEnd::Removed };
                if at == ends.len() {
                    proof {
                        lemma_table_push(ends@, row);
                    }
                    ends.push(row);
                } else {
                    proof {
                        lemma_table_update(ends@, at as int, row);
                    }
                    ends.set(at, row);
                }
            },
        }
        proof {
            let step = all[i as int];
            assert(all.take(i + 1).drop_last() =~= all.take(i as int));
            assert(all.take(i + 1).last() == step);
            assert forall|blobs: Map<Seq<char>, Seq<u8>>| #[trigger]
                blobs_replayed(blobs, all.take(i + 1)) == settled(blobs, table(ends@)) by {
                assert(blobs_replayed(blobs, all.take(i as int)) == settled(blobs, before));
                assert(blobs_after(settled(blobs, before), step) =~= settled(
                    blobs,
                    table(ends@),
                ));
            }
        }
        i += 1;
    }
    assert(all.take(i as int) =~= all);
    ends
}

fn is_removed(end: &BlobEnd) -> (r: bool)
    ensures
        r == (end@ is Removed),
{
    match end {
        BlobEnd::Removed => true,
        _ => false,
    }
}

/// The place of the blob, or the number of them where it is not among them.
fn find_end(ends: &Vec<SettledBlob>, hash: &str) -> (r: usize)
    requires
        unique_keys(ends@),
    ensures
        r <= ends@.len(),
        r < ends@.len() ==> ends@[r as int].key() == hash@ && table(ends@).contains_key(hash@)
            && table(ends@)[hash@] == ends@[r as int].data(),
        r == ends@.len() ==> !table(ends@).contains_key(hash@),
{
    proof {
        lemma_table(ends@);
    }
    let mut i: usize = 0;
    while i < ends.len()
        invariant
            unique_keys(ends@),
            i <= ends@.len(),
            forall|j: int| 0 <= j < i ==> (#[trigger] ends@[j]).key() != hash@,
        decreases ends@.len() - i,
    {
        if same_text(ends[i].hash.as_str(), hash) {
            proof {
                lemma_table(ends@);
                assert(ends@[i as int].key() == hash@);
            }
            return i;
        }
        i += 1;
    }
    i
}

} // verus!
