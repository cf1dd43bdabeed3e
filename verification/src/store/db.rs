//! The item/format index: two tables, the statements that change them and the
//! queries that read them.
//!
//! The tables are held in memory. Every statement that changes them is also
//! written to a journal, so that the same statements can be run, in the same
//! order, against the database that the tables were read from.

use crate::clock::{from_epoch_ms, to_epoch_ms, Timestamp};
use crate::error::{Error, Result};
use crate::ids::{
    hyphenated_text, lemma_text_order_is_id_order, parse_uuid_text, parsed_uuid, ItemId,
};
use crate::model::{Format, FormatView, Item, ItemWithFormats};
use crate::store::table::{
    kept, lemma_filter_step, lemma_table, lemma_table_filter, lemma_table_push, lemma_table_remove,
    lemma_table_update, row_kept, table, unique_keys, Row,
};
use crate::text::{
    ascending, insert_ascending, lemma_ascending_no_duplicates, lemma_text_before_total, same_text,
    text_before, texts,
};
use vstd::prelude::*;

verus! {

// ---------------------------------------------------------------------------
// Rows
// ---------------------------------------------------------------------------

/// A row of the `items` table; times are epoch milliseconds.
#[derive(Debug)]
pub struct ItemRow {
    pub id: String,
    pub created_at: i64,
    pub updated_at: i64,
}

/// A row of the `formats` table; the time is in epoch milliseconds.
#[derive(Debug)]
pub struct FormatRow {
    pub item_id: String,
    pub mime: String,
    pub blob_hash: String,
    pub size: i64,
    pub captured_at: i64,
}

/// What the `items` table holds under an id.
pub struct ItemTimes {
    pub created_at: i64,
    pub updated_at: i64,
}

/// What the `formats` table holds under an id and a MIME type.
pub struct FormatData {
    pub blob_hash: Seq<char>,
    pub size: i64,
    pub captured_at: i64,
}

impl Row for ItemRow {
    type Key = Seq<char>;

    type Data = ItemTimes;

    open spec fn key(self) -> Seq<char> {
        self.id@
    }

    open spec fn data(self) -> ItemTimes {
        ItemTimes { created_at: self.created_at, updated_at: self.updated_at }
    }
}

impl Row for FormatRow {
    type Key = (Seq<char>, Seq<char>);

    type Data = FormatData;

    open spec fn key(self) -> (Seq<char>, Seq<char>) {
        (self.item_id@, self.mime@)
    }

    open spec fn data(self) -> FormatData {
        FormatData {
            blob_hash: self.blob_hash@,
            size: self.size,
            captured_at: self.captured_at,
        }
    }
}

// ---------------------------------------------------------------------------
// The state and its changes
// ---------------------------------------------------------------------------

/// The contents of both tables.
#[verifier::ext_equal]
pub struct DbState {
    pub items: Map<Seq<char>, ItemTimes>,
    pub formats: Map<(Seq<char>, Seq<char>), FormatData>,
}

/// One statement that changes the tables.
#[derive(Debug)]
pub enum Change {
    /// Insert an item row.
    InsertItem { id: String, created_at: i64, updated_at: i64 },
    /// Set an item's time of change.
    TouchItem { id: String, updated_at: i64 },
    /// Insert a format row, or replace the one with the same id and MIME type.
    UpsertFormat { item_id: String, mime: String, blob_hash: String, size: i64, captured_at: i64 },
    /// Delete the row of one format.
    DeleteFormat { item_id: String, mime: String },
    /// Delete the format rows of an item.
    DeleteFormatsOf { item_id: String },
    /// Delete an item row.
    DeleteItem { id: String },
    /// Delete the format rows of the items created before the cutoff.
    DeleteFormatsBefore { cutoff_ms: i64 },
    /// Delete the rows of the items created before the cutoff.
    DeleteItemsBefore { cutoff_ms: i64 },
}

/// The item is there and was created before the cutoff.
pub open spec fn is_old(
    items: Map<Seq<char>, ItemTimes>,
    id: Seq<char>,
    cutoff_ms: i64,
) -> bool {
    items.contains_key(id) && items[id].created_at < cutoff_ms
}

/// Of a format: it belongs to another item.
pub open spec fn format_not_of(id: Seq<char>) -> spec_fn((Seq<char>, Seq<char>), FormatData) -> bool {
    |k: (Seq<char>, Seq<char>), d: FormatData| k.0 != id
}

/// Of a format: it does not belong to an item created before the cutoff.
pub open spec fn format_not_old(items: Map<Seq<char>, ItemTimes>, cutoff_ms: i64) -> spec_fn(
    (Seq<char>, Seq<char>),
    FormatData,
) -> bool {
    |k: (Seq<char>, Seq<char>), d: FormatData| !is_old(items, k.0, cutoff_ms)
}

/// Of an item: it was not created before the cutoff.
pub open spec fn item_not_old(cutoff_ms: i64) -> spec_fn(Seq<char>, ItemTimes) -> bool {
    |id: Seq<char>, t: ItemTimes| !(t.created_at < cutoff_ms)
}

impl DbState {

    /// Some format points at the blob.
    pub open spec fn references(self, hash: Seq<char>) -> bool {
        exists|k: (Seq<char>, Seq<char>)| #[trigger]
            self.formats.contains_key(k) && self.formats[k].blob_hash == hash
    }

    /// Some format is stored under the id.
    pub open spec fn has_formats(self, id: Seq<char>) -> bool {
        exists|k: (Seq<char>, Seq<char>)| #[trigger] self.formats.contains_key(k) && k.0 == id
    }

    /// Every format belongs to an item.
    pub open spec fn formats_have_items(self) -> bool {
        forall|k: (Seq<char>, Seq<char>)| #[trigger]
            self.formats.contains_key(k) ==> self.items.contains_key(k.0)
    }

    /// Every id is the text of an identity.
    pub open spec fn ids_are_canonical(self) -> bool {
        forall|id: Seq<char>| #[trigger]
            self.items.contains_key(id) ==> exists|u: u128| id == #[trigger] hyphenated_text(u)
    }

    pub open spec fn with_item(self, id: Seq<char>, times: ItemTimes) -> DbState {
        DbState { items: self.items.insert(id, times), formats: self.formats }
    }

    pub open spec fn touched(self, id: Seq<char>, updated_at: i64) -> DbState {
        if self.items.contains_key(id) {
            self.with_item(
                id,
                ItemTimes { created_at: self.items[id].created_at, updated_at },
            )
        } else {
            self
        }
    }

    pub open spec fn with_format(
        self,
        id: Seq<char>,
        mime: Seq<char>,
        data: FormatData,
    ) -> DbState {
        DbState { items: self.items, formats: self.formats.insert((id, mime), data) }
    }

    pub open spec fn without_format(self, id: Seq<char>, mime: Seq<char>) -> DbState {
        DbState { items: self.items, formats: self.formats.remove((id, mime)) }
    }

    pub open spec fn without_formats_of(self, id: Seq<char>) -> DbState {
        DbState {
            items: self.items,
            formats: kept(self.formats, format_not_of(id)),
        }
    }

    pub open spec fn without_item(self, id: Seq<char>) -> DbState {
        DbState { items: self.items.remove(id), formats: self.formats }
    }

    pub open spec fn without_old_formats(self, cutoff_ms: i64) -> DbState {
        DbState {
            items: self.items,
            formats: kept(self.formats, format_not_old(self.items, cutoff_ms)),
        }
    }

    pub open spec fn without_old_items(self, cutoff_ms: i64) -> DbState {
        DbState {
            items: kept(self.items, item_not_old(cutoff_ms)),
            formats: self.formats,
        }
    }

    /// The state after one statement.
    pub open spec fn after(self, change: Change) -> DbState {
        match change {
            Change::InsertItem { id, created_at, updated_at } => self.with_item(
                id@,
                ItemTimes { created_at, updated_at },
            ),
            Change::TouchItem { id, updated_at } => self.touched(id@, updated_at),
            Change::UpsertFormat {
                item_id,
                mime,
                blob_hash,
                size,
                captured_at,
            } => self.with_format(
                item_id@,
                mime@,
                FormatData { blob_hash: blob_hash@, size, captured_at },
            ),
            Change::DeleteFormat { item_id, mime } => self.without_format(item_id@, mime@),
            Change::DeleteFormatsOf { item_id } => self.without_formats_of(item_id@),
            Change::DeleteItem { id } => self.without_item(id@),
            Change::DeleteFormatsBefore { cutoff_ms } => self.without_old_formats(cutoff_ms),
            Change::DeleteItemsBefore { cutoff_ms } => self.without_old_items(cutoff_ms),
        }
    }

    /// The state after a list of statements, the first of them first.
    pub open spec fn replay(self, changes: Seq<Change>) -> DbState
        decreases changes.len(),
    {
        if changes.len() == 0 {
            self
        } else {
            self.replay(changes.drop_last()).after(changes.last())
        }
    }
}

/// The tables in memory, and the statements run on them since they were read
/// or since the journal was last taken.
pub struct Db {
    items: Vec<ItemRow>,
    formats: Vec<FormatRow>,
    journal: Vec<Change>,
    base: Ghost<DbState>,
}

impl View for Db {
    type V = DbState;

    closed spec fn view(&self) -> DbState {
        DbState { items: table(self.items@), formats: table(self.formats@) }
    }
}

impl Db {
    /// The statements not yet taken.
    pub closed spec fn pending(self) -> Seq<Change> {
        self.journal@
    }

    /// The state that the pending statements started from.
    pub closed spec fn base_state(self) -> DbState {
        self.base@
    }

    /// Keys are unique, and the pending statements lead from the base state to
    /// this one.
    pub closed spec fn wf(self) -> bool {
        &&& unique_keys(self.items@)
        &&& unique_keys(self.formats@)
        &&& self@ == self.base@.replay(self.journal@)
    }

    /// A database without rows.
    pub fn empty() -> (r: Db)
        ensures
            r.wf(),
            r@.items == Map::<Seq<char>, ItemTimes>::empty(),
            r@.formats == Map::<(Seq<char>, Seq<char>), FormatData>::empty(),
            r.pending().len() == 0,
            r.base_state() == r@,
    {
        Db {
            items: Vec::new(),
            formats: Vec::new(),
            journal: Vec::new(),
            base: Ghost(DbState { items: Map::empty(), formats: Map::empty() }),
        }
    }

    /// The database that holds the given rows. A key that occurs twice is the
    /// error that the primary keys of the tables raise.
    pub fn from_rows(items: Vec<ItemRow>, formats: Vec<FormatRow>) -> (r: Result<Db>)
        ensures
            match r {
                Ok(db) => {
                    &&& unique_keys(items@)
                    &&& unique_keys(formats@)
                    &&& db.wf()
                    &&& db@ == (DbState { items: table(items@), formats: table(formats@) })
                    &&& db.pending().len() == 0
                    &&& db.base_state() == db@
                },
                Err(e) => if !unique_keys(items@) {
                    e.is_database("UNIQUE constraint failed: items.id"@)
                } else {
                    &&& !unique_keys(formats@)
                    &&& e.is_database("UNIQUE constraint failed: formats.item_id, formats.mime"@)
                },
            },
    {
        let mut i: usize = 0;
        while i < items.len()
            invariant
                i <= items@.len(),
                forall|a: int, b: int|
                    0 <= a < b < items@.len() && a < i ==> #[trigger] items@[a].key()
                        != #[trigger] items@[b].key(),
            decreases items@.len() - i,
        {
            let mut j: usize = i + 1;
            while j < items.len()
                invariant
                    i < j <= items@.len(),
                    forall|b: int| i < b < j ==> items@[i as int].key() != #[trigger] items@[b].key(),
                decreases items@.len() - j,
            {
                if same_text(items[i].id.as_str(), items[j].id.as_str()) {
                    assert(items@[i as int].key() == items@[j as int].key());
                    return Err(Error::Database("UNIQUE constraint failed: items.id".to_owned()));
                }
                j += 1;
            }
            i += 1;
        }
        assert(unique_keys(items@));
        let mut i: usize = 0;
        while i < formats.len()
            invariant
                unique_keys(items@),
                i <= formats@.len(),
                forall|a: int, b: int|
                    0 <= a < b < formats@.len() && a < i ==> #[trigger] formats@[a].key()
                        != #[trigger] formats@[b].key(),
            decreases formats@.len() - i,
        {
            let mut j: usize = i + 1;
            while j < formats.len()
                invariant
                    unique_keys(items@),
                    i < j <= formats@.len(),
                    forall|b: int|
                        i < b < j ==> formats@[i as int].key() != #[trigger] formats@[b].key(),
                decreases formats@.len() - j,
            {
                if same_text(formats[i].item_id.as_str(), formats[j].item_id.as_str())
                    && same_text(formats[i].mime.as_str(), formats[j].mime.as_str()) {
                    assert(formats@[i as int].key() == formats@[j as int].key());
                    return Err(
                        Error::Database(
                            "UNIQUE constraint failed: formats.item_id, formats.mime".to_owned(),
                        ),
                    );
                }
                j += 1;
            }
            i += 1;
        }
        assert(unique_keys(formats@));
        let base: Ghost<DbState> = Ghost(
            DbState { items: table(items@), formats: table(formats@) },
        );
        Ok(Db { items, formats, journal: Vec::new(), base })
    }

    /// Hand out the pending statements.
    pub fn take_journal(&mut self) -> (r: Vec<Change>)
        requires
            old(self).wf(),
        ensures
            final(self).wf(),
            final(self)@ == old(self)@,
            final(self).pending().len() == 0,
            final(self).base_state() == old(self)@,
            r@ == old(self).pending(),
            old(self).base_state().replay(r@) == old(self)@,
    {
        let mut journal: Vec<Change> = Vec::new();
        std::mem::swap(&mut journal, &mut self.journal);
        self.base = Ghost(DbState { items: table(self.items@), formats: table(self.formats@) });
        journal
    }

    /// Record a statement that has been run on the tables.
    fn record(&mut self, change: Change)
        requires
            unique_keys(old(self).items@),
            unique_keys(old(self).formats@),
            old(self)@ == old(self).base@.replay(old(self).journal@).after(change),
        ensures
            final(self).wf(),
            final(self)@ == old(self)@,
            final(self).pending() == old(self).pending().push(change),
            final(self).base_state() == old(self).base_state(),
    {
        let ghost before = self.journal@;
        self.journal.push(change);
        assert(self.journal@.drop_last() =~= before);
    }
}

// ---------------------------------------------------------------------------
// Row lookup
// ---------------------------------------------------------------------------

/// The row of the item, or the number of rows where there is none.
fn find_item(rows: &Vec<ItemRow>, id: &str) -> (r: usize)
    requires
        unique_keys(rows@),
    ensures
        r <= rows@.len(),
        r < rows@.len() ==> rows@[r as int].key() == id@ && table(rows@).contains_key(id@) && table(
            rows@,
        )[id@] == rows@[r as int].data(),
        r == rows@.len() ==> !table(rows@).contains_key(id@),
{
    proof {
        lemma_table(rows@);
    }
    let mut i: usize = 0;
    while i < rows.len()
        invariant
            unique_keys(rows@),
            i <= rows@.len(),
            forall|j: int| 0 <= j < i ==> (#[trigger] rows@[j]).key() != id@,
        decreases rows@.len() - i,
    {
        if same_text(rows[i].id.as_str(), id) {
            proof {
                lemma_table(rows@);
                assert(rows@[i as int].key() == id@);
            }
            return i;
        }
        i += 1;
    }
    i
}

/// The row of the format, or the number of rows where there is none.
fn find_format(rows: &Vec<FormatRow>, id: &str, mime: &str) -> (r: usize)
    requires
        unique_keys(rows@),
    ensures
        r <= rows@.len(),
        r < rows@.len() ==> rows@[r as int].key() == (id@, mime@) && table(rows@).contains_key(
            (id@, mime@),
        ) && table(rows@)[(id@, mime@)] == rows@[r as int].data(),
        r == rows@.len() ==> !table(rows@).contains_key((id@, mime@)),
{
    proof {
        lemma_table(rows@);
    }
    let mut i: usize = 0;
    while i < rows.len()
        invariant
            unique_keys(rows@),
            i <= rows@.len(),
            forall|j: int| 0 <= j < i ==> (#[trigger] rows@[j]).key() != (id@, mime@),
        decreases rows@.len() - i,
    {
        if same_text(rows[i].item_id.as_str(), id) && same_text(rows[i].mime.as_str(), mime) {
            proof {
                lemma_table(rows@);
                assert(rows@[i as int].key() == (id@, mime@));
            }
            return i;
        }
        i += 1;
    }
    i
}

proof fn lemma_removed<A>(done: Seq<A>, s: Seq<A>, n: int)
    requires
        0 <= n < s.len(),
    ensures
        (done + s.skip(n)).remove(done.len() as int) == done + s.skip(n + 1),
        (done + s.skip(n)) == done.push(s[n]) + s.skip(n + 1),
        (done + s.skip(n))[done.len() as int] == s[n],
{
    assert((done + s.skip(n)).remove(done.len() as int) =~= done + s.skip(n + 1));
    assert((done + s.skip(n)) =~= done.push(s[n]) + s.skip(n + 1));
}

/// Drop the format rows of an item.
fn drop_formats_of(rows: &mut Vec<FormatRow>, id: &str)
    ensures
        final(rows)@ == old(rows)@.filter(row_kept::<FormatRow>(format_not_of(id@))),
{
    let ghost start = rows@;
    let ghost p = row_kept::<FormatRow>(format_not_of(id@));
    let ghost mut n: int = 0;
    let mut i: usize = 0;
    proof {
        reveal(Seq::filter);
        assert(start.take(0).filter(p) =~= Seq::empty());
        assert(start =~= start.take(0).filter(p) + start.skip(0));
    }
    while i < rows.len()
        invariant
            0 <= n <= start.len(),
            p == row_kept::<FormatRow>(format_not_of(id@)),
            i == start.take(n).filter(p).len(),
            rows@ == start.take(n).filter(p) + start.skip(n),
        decreases rows@.len() - i,
    {
        let ghost done = start.take(n).filter(p);
        proof {
            lemma_removed(done, start, n);
            lemma_filter_step(start, p, n);
        }
        if same_text(rows[i].item_id.as_str(), id) {
            rows.remove(i);
        } else {
            i += 1;
        }
        proof {
            n = n + 1;
        }
    }
    proof {
        assert(n == start.len());
        assert(start.take(n) =~= start);
        assert(rows@ =~= start.filter(p));
    }
}

/// Drop the format rows of the items created before the cutoff.
fn drop_old_formats(rows: &mut Vec<FormatRow>, items: &Vec<ItemRow>, cutoff_ms: i64)
    requires
        unique_keys(items@),
    ensures
        final(rows)@ == old(rows)@.filter(
            row_kept::<FormatRow>(format_not_old(table(items@), cutoff_ms)),
        ),
{
    let ghost start = rows@;
    let ghost p = row_kept::<FormatRow>(format_not_old(table(items@), cutoff_ms));
    let ghost mut n: int = 0;
    let mut i: usize = 0;
    proof {
        reveal(Seq::filter);
        assert(start.take(0).filter(p) =~= Seq::empty());
        assert(start =~= start.take(0).filter(p) + start.skip(0));
    }
    while i < rows.len()
        invariant
            unique_keys(items@),
            0 <= n <= start.len(),
            p == row_kept::<FormatRow>(format_not_old(table(items@), cutoff_ms)),
            i == start.take(n).filter(p).len(),
            rows@ == start.take(n).filter(p) + start.skip(n),
        decreases rows@.len() - i,
    {
        let ghost done = start.take(n).filter(p);
        proof {
            lemma_removed(done, start, n);
            lemma_filter_step(start, p, n);
        }
        let at = find_item(items, rows[i].item_id.as_str());
        if at < items.len() && items[at].created_at < cutoff_ms {
            rows.remove(i);
        } else {
            i += 1;
        }
        proof {
            n = n + 1;
        }
    }
    proof {
        assert(n == start.len());
        assert(start.take(n) =~= start);
        assert(rows@ =~= start.filter(p));
    }
}

/// Drop the rows of the items created before the cutoff.
fn drop_old_items(rows: &mut Vec<ItemRow>, cutoff_ms: i64)
    ensures
        final(rows)@ == old(rows)@.filter(row_kept::<ItemRow>(item_not_old(cutoff_ms))),
{
    let ghost start = rows@;
    let ghost p = row_kept::<ItemRow>(item_not_old(cutoff_ms));
    let ghost mut n: int = 0;
    let mut i: usize = 0;
    proof {
        reveal(Seq::filter);
        assert(start.take(0).filter(p) =~= Seq::empty());
        assert(start =~= start.take(0).filter(p) + start.skip(0));
    }
    while i < rows.len()
        invariant
            0 <= n <= start.len(),
            p == row_kept::<ItemRow>(item_not_old(cutoff_ms)),
            i == start.take(n).filter(p).len(),
            rows@ == start.take(n).filter(p) + start.skip(n),
        decreases rows@.len() - i,
    {
        let ghost done = start.take(n).filter(p);
        proof {
            lemma_removed(done, start, n);
            lemma_filter_step(start, p, n);
        }
        if rows[i].created_at < cutoff_ms {
            rows.remove(i);
        } else {
            i += 1;
        }
        proof {
            n = n + 1;
        }
    }
    proof {
        assert(n == start.len());
        assert(start.take(n) =~= start);
        assert(rows@ =~= start.filter(p));
    }
}

// ---------------------------------------------------------------------------
// Row mapping helpers
// ---------------------------------------------------------------------------

/// The identity that a stored id stands for: nil where it is no UUID.
pub open spec fn id_of_text(s: Seq<char>) -> ItemId {
    match parsed_uuid(s) {
        Ok(bits) => ItemId { bits },
        Err(_) => ItemId { bits: 0 },
    }
}

/// An item as queries return it.
pub open spec fn item_of(id: ItemId, times: ItemTimes) -> Item {
    Item {
        id,
        created_at: Timestamp::of_ms(times.created_at as int),
        updated_at: Timestamp::of_ms(times.updated_at as int),
    }
}

/// A format as queries return it.
pub open spec fn format_of(item_id: ItemId, mime: Seq<char>, data: FormatData) -> FormatView {
    FormatView {
        item_id,
        mime,
        blob_hash: data.blob_hash,
        size: data.size as u64,
        captured_at: Timestamp::of_ms(data.captured_at as int),
    }
}

/// What a format is stored as.
pub open spec fn stored_format(f: FormatView) -> FormatData {
    FormatData {
        blob_hash: f.blob_hash,
        size: f.size as i64,
        captured_at: f.captured_at.ms() as i64,
    }
}

/// Read a stored id.
pub fn stored_id(text: &str) -> (r: ItemId)
    ensures
        r == id_of_text(text@),
        forall|u: u128| text@ == #[trigger] hyphenated_text(u) ==> r.bits == u,
{
    match parse_uuid_text(text) {
        Ok(id) => id,
        Err(_) => ItemId::nil(),
    }
}

fn row_to_item(row: &ItemRow) -> (r: Item)
    ensures
        r == item_of(id_of_text(row.id@), row.data()),
        forall|u: u128| row.id@ == #[trigger] hyphenated_text(u) ==> r.id.bits == u,
{
    let id = stored_id(row.id.as_str());
    Item { id, created_at: from_epoch_ms(row.created_at), updated_at: from_epoch_ms(row.updated_at) }
}

fn row_to_format(row: &FormatRow) -> (r: Format)
    ensures
        r@ == format_of(id_of_text(row.item_id@), row.mime@, row.data()),
        forall|u: u128| row.item_id@ == #[trigger] hyphenated_text(u) ==> r.item_id.bits == u,
{
    let item_id = stored_id(row.item_id.as_str());
    Format {
        item_id,
        mime: row.mime.clone(),
        blob_hash: row.blob_hash.clone(),
        #[verifier::truncate]
        size: row.size as u64,
        captured_at: from_epoch_ms(row.captured_at),
    }
}

/// What formats hold, in their order.
pub open spec fn format_views(list: Seq<Format>) -> Seq<FormatView> {
    list.map_values(|f: Format| f@)
}

/// The list holds the formats stored under `id`, each once, in some order.
pub open spec fn lists_formats(
    db: DbState,
    id: Seq<char>,
    item_id: ItemId,
    list: Seq<FormatView>,
) -> bool {
    &&& forall|i: int, j: int|
        0 <= i < j < list.len() ==> (#[trigger] list[i]).mime != (#[trigger] list[j]).mime
    &&& forall|i: int|
        0 <= i < list.len() ==> {
            &&& db.formats.contains_key((id, (#[trigger] list[i]).mime))
            &&& list[i] == format_of(item_id, list[i].mime, db.formats[(id, list[i].mime)])
        }
    &&& forall|mime: Seq<char>| #[trigger]
        db.formats.contains_key((id, mime)) ==> exists|i: int|
            0 <= i < list.len() && (#[trigger] list[i]).mime == mime
}

// ---------------------------------------------------------------------------
// Statements
// ---------------------------------------------------------------------------

/// Insert a new `Item` row.
pub fn insert_item(db: &mut Db, item: &Item) -> (r: Result<()>)
    requires
        old(db).wf(),
        item.created_at.wf(),
        item.updated_at.wf(),
    ensures
        final(db).wf(),
        final(db).base_state() == old(db).base_state(),
        match r {
            Ok(_) => {
                &&& !old(db)@.items.contains_key(hyphenated_text(item.id.bits))
                &&& final(db)@ == old(db)@.with_item(
                    hyphenated_text(item.id.bits),
                    (ItemTimes {
                        created_at: item.created_at.ms() as i64,
                        updated_at: item.updated_at.ms() as i64,
                    }),
                )
            },
            Err(e) => {
                &&& old(db)@.items.contains_key(hyphenated_text(item.id.bits))
                &&& e.is_database("UNIQUE constraint failed: items.id"@)
                &&& *final(db) == *old(db)
            },
        },
{
    let id = item.id.to_text();
    let at = find_item(&db.items, id.as_str());
    if at < db.items.len() {
        return Err(Error::Database("UNIQUE constraint failed: items.id".to_owned()));
    }
    let created_at = to_epoch_ms(item.created_at);
    let updated_at = to_epoch_ms(item.updated_at);
    let row = ItemRow { id: id.clone(), created_at, updated_at };
    proof {
        lemma_table_push(db.items@, row);
    }
    db.items.push(row);
    db.record(Change::InsertItem { id, created_at, updated_at });
    Ok(())
}

/// Upsert a `Format` row (insert or replace on conflict).
pub fn upsert_format(db: &mut Db, fmt: &Format) -> (r: Result<()>)
    requires
        old(db).wf(),
        fmt.captured_at.wf(),
    ensures
        final(db).wf(),
        final(db).base_state() == old(db).base_state(),
        match r {
            Ok(_) => {
                &&& old(db)@.items.contains_key(hyphenated_text(fmt.item_id.bits))
                &&& final(db)@ == old(db)@.with_format(
                    hyphenated_text(fmt.item_id.bits),
                    fmt.mime@,
                    stored_format(fmt@),
                )
            },
            Err(e) => {
                &&& !old(db)@.items.contains_key(hyphenated_text(fmt.item_id.bits))
                &&& e.is_database("FOREIGN KEY constraint failed"@)
                &&& *final(db) == *old(db)
            },
        },
{
    let item_id = fmt.item_id.to_text();
    if find_item(&db.items, item_id.as_str()) == db.items.len() {
        return Err(Error::Database("FOREIGN KEY constraint failed".to_owned()));
    }
    #[verifier::truncate]
    let size: i64 = fmt.size as i64;
    let captured_at = to_epoch_ms(fmt.captured_at);
    let row = FormatRow {
        item_id: item_id.clone(),
        mime: fmt.mime.clone(),
        blob_hash: fmt.blob_hash.clone(),
        size,
        captured_at,
    };
    let at = find_format(&db.formats, item_id.as_str(), fmt.mime.as_str());
    if at < db.formats.len() {
        proof {
            lemma_table_update(db.formats@, at as int, row);
        }
        db.formats.set(at, row);
    } else {
        proof {
            lemma_table_push(db.formats@, row);
        }
        db.formats.push(row);
    }
    db.record(
        Change::UpsertFormat {
            item_id,
            mime: fmt.mime.clone(),
            blob_hash: fmt.blob_hash.clone(),
            size,
            captured_at,
        },
    );
    Ok(())
}

/// Bump `updated_at` for an item.
pub fn bump_updated_at(db: &mut Db, id: ItemId, now: Timestamp) -> (r: Result<()>)
    requires
        old(db).wf(),
        now.wf(),
    ensures
        final(db).wf(),
        final(db).base_state() == old(db).base_state(),
        match r {
            Ok(_) => {
                &&& old(db)@.items.contains_key(hyphenated_text(id.bits))
                &&& final(db)@ == old(db)@.touched(hyphenated_text(id.bits), now.ms() as i64)
            },
            Err(e) => {
                &&& !old(db)@.items.contains_key(hyphenated_text(id.bits))
                &&& e is NotFound
                &&& *final(db) == *old(db)
            },
        },
{
    let id = id.to_text();
    let at = find_item(&db.items, id.as_str());
    if at == db.items.len() {
        return Err(Error::NotFound);
    }
    let updated_at = to_epoch_ms(now);
    let row = ItemRow { id: id.clone(), created_at: db.items[at].created_at, updated_at };
    proof {
        lemma_table_update(db.items@, at as int, row);
    }
    db.items.set(at, row);
    db.record(Change::TouchItem { id, updated_at });
    Ok(())
}

/// Delete a single item row (formats must already be removed).
pub fn delete_item_row(db: &mut Db, id: ItemId) -> (r: Result<()>)
    requires
        old(db).wf(),
    ensures
        final(db).wf(),
        final(db).base_state() == old(db).base_state(),
        match r {
            Ok(_) => {
                &&& old(db)@.items.contains_key(hyphenated_text(id.bits))
                &&& !old(db)@.has_formats(hyphenated_text(id.bits))
                &&& final(db)@ == old(db)@.without_item(hyphenated_text(id.bits))
            },
            Err(e) => {
                &&& *final(db) == *old(db)
                &&& if old(db)@.items.contains_key(hyphenated_text(id.bits)) {
                    &&& old(db)@.has_formats(hyphenated_text(id.bits))
                    &&& e.is_database("FOREIGN KEY constraint failed"@)
                } else {
                    e is NotFound
                }
            },
        },
{
    let id_text = id.to_text();
    let at = find_item(&db.items, id_text.as_str());
    if at == db.items.len() {
        return Err(Error::NotFound);
    }
    proof {
        lemma_table(db.formats@);
    }
    let mut i: usize = 0;
    while i < db.formats.len()
        invariant
            db.wf(),
            *db == *old(db),
            id_text@ == hyphenated_text(id.bits),
            i <= db.formats@.len(),
            db@.items.contains_key(id_text@),
            forall|j: int| 0 <= j < i ==> (#[trigger] db.formats@[j]).item_id@ != id_text@,
        decreases db.formats@.len() - i,
    {
        if same_text(db.formats[i].item_id.as_str(), id_text.as_str()) {
            proof {
                lemma_table(db.formats@);
                let k = db.formats@[i as int].key();
                assert(db@.formats.contains_key(k) && k.0 == id_text@);
            }
            return Err(Error::Database("FOREIGN KEY constraint failed".to_owned()));
        }
        i += 1;
    }
    assert(!db@.has_formats(id_text@)) by {
        lemma_table(db.formats@);
        assert forall|k: (Seq<char>, Seq<char>)| #[trigger]
            db@.formats.contains_key(k) implies k.0 != id_text@ by {
            let j = choose|j: int| 0 <= j < db.formats@.len() && #[trigger] db.formats@[j].key() == k;
            assert(db.formats@[j].item_id@ != id_text@);
        }
    }
    proof {
        lemma_table_remove(db.items@, at as int);
    }
    db.items.remove(at);
    db.record(Change::DeleteItem { id: id_text });
    Ok(())
}

/// Delete a single format row, returning the old blob_hash (or `NotFound`).
pub fn delete_format_row(db: &mut Db, id: ItemId, mime: &str) -> (r: Result<String>)
    requires
        old(db).wf(),
    ensures
        final(db).wf(),
        final(db).base_state() == old(db).base_state(),
        match r {
            Ok(hash) => {
                &&& old(db)@.formats.contains_key((hyphenated_text(id.bits), mime@))
                &&& hash@ == old(db)@.formats[(hyphenated_text(id.bits), mime@)].blob_hash
                &&& final(db)@ == old(db)@.without_format(hyphenated_text(id.bits), mime@)
            },
            Err(e) => {
                &&& !old(db)@.formats.contains_key((hyphenated_text(id.bits), mime@))
                &&& e is NotFound
                &&& *final(db) == *old(db)
            },
        },
{
    let item_id = id.to_text();
    let at = find_format(&db.formats, item_id.as_str(), mime);
    if at == db.formats.len() {
        return Err(Error::NotFound);
    }
    let hash = db.formats[at].blob_hash.clone();
    proof {
        lemma_table_remove(db.formats@, at as int);
    }
    db.formats.remove(at);
    db.record(Change::DeleteFormat { item_id, mime: mime.to_owned() });
    Ok(hash)
}

/// The hash belongs to some format stored under the id.
pub open spec fn hash_of_item(db: DbState, id: Seq<char>, hash: Seq<char>) -> bool {
    exists|k: (Seq<char>, Seq<char>)| #[trigger]
        db.formats.contains_key(k) && k.0 == id && db.formats[k].blob_hash == hash
}

/// The hash belongs to some format of an item created before the cutoff.
pub open spec fn hash_of_old_item(db: DbState, cutoff_ms: i64, hash: Seq<char>) -> bool {
    exists|k: (Seq<char>, Seq<char>)| #[trigger]
        db.formats.contains_key(k) && is_old(db.items, k.0, cutoff_ms) && db.formats[k].blob_hash
            == hash
}

/// Delete all format rows for an item; returns each distinct blob_hash that
/// was referenced.
pub fn delete_formats_for_item(db: &mut Db, id: ItemId) -> (r: Vec<String>)
    requires
        old(db).wf(),
    ensures
        final(db).wf(),
        final(db).base_state() == old(db).base_state(),
        final(db)@ == old(db)@.without_formats_of(hyphenated_text(id.bits)),
        texts(r@).no_duplicates(),
        forall|h: Seq<char>| #[trigger]
            texts(r@).contains(h) <==> hash_of_item(old(db)@, hyphenated_text(id.bits), h),
{
    let item_id = id.to_text();
    let mut hashes: Vec<String> = Vec::new();
    let mut i: usize = 0;
    while i < db.formats.len()
        invariant
            db.wf(),
            *db == *old(db),
            i <= db.formats@.len(),
            ascending(texts(hashes@)),
            forall|h: Seq<char>| #[trigger]
                texts(hashes@).contains(h) <==> exists|j: int|
                    0 <= j < i && (#[trigger] db.formats@[j]).item_id@ == item_id@
                        && db.formats@[j].blob_hash@ == h,
        decreases db.formats@.len() - i,
    {
        let ghost before = hashes@;
        if same_text(db.formats[i].item_id.as_str(), item_id.as_str()) {
            insert_ascending(&mut hashes, db.formats[i].blob_hash.clone());
        }
        assert forall|h: Seq<char>| #[trigger] texts(hashes@).contains(h) implies exists|j: int|
            0 <= j < i + 1 && (#[trigger] db.formats@[j]).item_id@ == item_id@
                && db.formats@[j].blob_hash@ == h by {
            if texts(before).contains(h) {
                let j = choose|j: int|
                    0 <= j < i && (#[trigger] db.formats@[j]).item_id@ == item_id@
                        && db.formats@[j].blob_hash@ == h;
                assert(db.formats@[j].item_id@ == item_id@);
            } else {
                assert(db.formats@[i as int].blob_hash@ == h);
            }
        }
        i += 1;
    }
    proof {
        lemma_table(db.formats@);
        lemma_ascending_no_duplicates(texts(hashes@));
        let rows = db.formats@;
        assert forall|h: Seq<char>| #[trigger] texts(hashes@).contains(h) <==> hash_of_item(
            db@,
            item_id@,
            h,
        ) by {
            if texts(hashes@).contains(h) {
                let j = choose|j: int|
                    0 <= j < rows.len() && (#[trigger] rows[j]).item_id@ == item_id@
                        && rows[j].blob_hash@ == h;
                assert(db@.formats.contains_key(rows[j].key()));
            }
            if hash_of_item(db@, item_id@, h) {
                let k = choose|k: (Seq<char>, Seq<char>)| #[trigger]
                    db@.formats.contains_key(k) && k.0 == item_id@ && db@.formats[k].blob_hash == h;
                let j = choose|j: int| 0 <= j < rows.len() && #[trigger] rows[j].key() == k;
                assert(rows[j].item_id@ == item_id@ && rows[j].blob_hash@ == h);
            }
        }
        lemma_table_filter(db.formats@, format_not_of(item_id@));
    }
    drop_formats_of(&mut db.formats, item_id.as_str());
    db.record(Change::DeleteFormatsOf { item_id });
    hashes
}

/// The list holds the ids of the items created before the cutoff, in the order
/// of their texts.
pub open spec fn is_old_listing(db: DbState, cutoff_ms: i64, ids: Seq<Seq<char>>) -> bool {
    &&& ascending(ids)
    &&& forall|id: Seq<char>| #[trigger] ids.contains(id) <==> is_old(db.items, id, cutoff_ms)
}

/// The identities that stored ids stand for, in order.
pub open spec fn ids_of(list: Seq<Seq<char>>) -> Seq<ItemId> {
    list.map_values(|id: Seq<char>| id_of_text(id))
}

/// Delete items with `created_at < cutoff_ms` along with their format rows.
/// Returns the ids and blob_hashes involved.
pub fn delete_items_older_than(db: &mut Db, cutoff_ms: i64) -> (r: (Vec<String>, Vec<String>))
    requires
        old(db).wf(),
    ensures
        final(db).wf(),
        final(db).base_state() == old(db).base_state(),
        final(db)@ == old(db)@.without_old_formats(cutoff_ms).without_old_items(cutoff_ms),
        is_old_listing(old(db)@, cutoff_ms, texts(r.0@)),
        ascending(texts(r.1@)),
        forall|h: Seq<char>| #[trigger]
            texts(r.1@).contains(h) <==> hash_of_old_item(old(db)@, cutoff_ms, h),
{
    let ids = old_ids(db, cutoff_ms);
    if ids.len() == 0 {
        let hashes: Vec<String> = Vec::new();
        proof {
            lemma_nothing_old(db@, cutoff_ms, texts(ids@));
            assert(texts(hashes@) =~= Seq::empty());
        }
        return (ids, hashes);
    }
    let hashes = old_hashes(db, cutoff_ms);
    proof {
        lemma_table_filter(db.formats@, format_not_old(table(db.items@), cutoff_ms));
    }
    drop_old_formats(&mut db.formats, &db.items, cutoff_ms);
    db.record(Change::DeleteFormatsBefore { cutoff_ms });
    proof {
        lemma_table_filter(db.items@, item_not_old(cutoff_ms));
    }
    drop_old_items(&mut db.items, cutoff_ms);
    db.record(Change::DeleteItemsBefore { cutoff_ms });
    (ids, hashes)
}

/// Where nothing is old, deleting what is old changes nothing.
pub(crate) proof fn lemma_nothing_old(db: DbState, cutoff_ms: i64, ids: Seq<Seq<char>>)
    requires
        ids.len() == 0,
        forall|id: Seq<char>| #[trigger] ids.contains(id) <==> is_old(db.items, id, cutoff_ms),
    ensures
        db == db.without_old_formats(cutoff_ms).without_old_items(cutoff_ms),
        forall|h: Seq<char>| !#[trigger] hash_of_old_item(db, cutoff_ms, h),
{
    assert forall|id: Seq<char>| !#[trigger] is_old(db.items, id, cutoff_ms) by {
        assert(!ids.contains(id));
    }
    let after = db.without_old_formats(cutoff_ms).without_old_items(cutoff_ms);
    assert forall|id: Seq<char>| #[trigger] db.items.contains_key(id) implies !(
    db.items[id].created_at < cutoff_ms) by {
        assert(!is_old(db.items, id, cutoff_ms));
    }
    assert(after.items =~= db.items);
    assert(after.formats =~= db.formats);
}

/// The ids of the items created before the cutoff.
fn old_ids(db: &Db, cutoff_ms: i64) -> (r: Vec<String>)
    requires
        db.wf(),
    ensures
        is_old_listing(db@, cutoff_ms, texts(r@)),
{
    let mut ids: Vec<String> = Vec::new();
    let mut i: usize = 0;
    while i < db.items.len()
        invariant
            db.wf(),
            i <= db.items@.len(),
            ascending(texts(ids@)),
            forall|id: Seq<char>| #[trigger]
                texts(ids@).contains(id) <==> exists|j: int|
                    0 <= j < i && (#[trigger] db.items@[j]).id@ == id && db.items@[j].created_at
                        < cutoff_ms,
        decreases db.items@.len() - i,
    {
        let ghost before = ids@;
        if db.items[i].created_at < cutoff_ms {
            insert_ascending(&mut ids, db.items[i].id.clone());
        }
        assert forall|id: Seq<char>| #[trigger] texts(ids@).contains(id) implies exists|j: int|
            0 <= j < i + 1 && (#[trigger] db.items@[j]).id@ == id && db.items@[j].created_at
                < cutoff_ms by {
            if texts(before).contains(id) {
                let j = choose|j: int|
                    0 <= j < i && (#[trigger] db.items@[j]).id@ == id && db.items@[j].created_at
                        < cutoff_ms;
                assert(db.items@[j].id@ == id);
            } else {
                assert(db.items@[i as int].id@ == id);
            }
        }
        i += 1;
    }
    proof {
        lemma_table(db.items@);
        let rows = db.items@;
        assert forall|id: Seq<char>| #[trigger] texts(ids@).contains(id) <==> is_old(
            db@.items,
            id,
            cutoff_ms,
        ) by {
            if texts(ids@).contains(id) {
                let j = choose|j: int|
                    0 <= j < rows.len() && (#[trigger] rows[j]).id@ == id && rows[j].created_at
                        < cutoff_ms;
                assert(db@.items.contains_key(rows[j].key()));
            }
            if is_old(db@.items, id, cutoff_ms) {
                let j = choose|j: int| 0 <= j < rows.len() && #[trigger] rows[j].key() == id;
                assert(rows[j].id@ == id);
            }
        }
    }
    ids
}

/// The hashes of the formats of the items created before the cutoff, sorted.
fn old_hashes(db: &Db, cutoff_ms: i64) -> (r: Vec<String>)
    requires
        db.wf(),
    ensures
        ascending(texts(r@)),
        forall|h: Seq<char>| #[trigger]
            texts(r@).contains(h) <==> hash_of_old_item(db@, cutoff_ms, h),
{
    let mut hashes: Vec<String> = Vec::new();
    let mut i: usize = 0;
    while i < db.formats.len()
        invariant
            db.wf(),
            i <= db.formats@.len(),
            ascending(texts(hashes@)),
            forall|h: Seq<char>| #[trigger]
                texts(hashes@).contains(h) <==> exists|j: int|
                    0 <= j < i && is_old(db@.items, (#[trigger] db.formats@[j]).item_id@, cutoff_ms)
                        && db.formats@[j].blob_hash@ == h,
        decreases db.formats@.len() - i,
    {
        let ghost before = hashes@;
        let at = find_item(&db.items, db.formats[i].item_id.as_str());
        if at < db.items.len() && db.items[at].created_at < cutoff_ms {
            insert_ascending(&mut hashes, db.formats[i].blob_hash.clone());
        }
        assert forall|h: Seq<char>| #[trigger] texts(hashes@).contains(h) implies exists|j: int|
            0 <= j < i + 1 && is_old(db@.items, (#[trigger] db.formats@[j]).item_id@, cutoff_ms)
                && db.formats@[j].blob_hash@ == h by {
            if texts(before).contains(h) {
                let j = choose|j: int|
                    0 <= j < i && is_old(db@.items, (#[trigger] db.formats@[j]).item_id@, cutoff_ms)
                        && db.formats@[j].blob_hash@ == h;
                assert(db.formats@[j].blob_hash@ == h);
            } else {
                assert(db.formats@[i as int].blob_hash@ == h);
            }
        }
        i += 1;
    }
    proof {
        lemma_table(db.formats@);
        let rows = db.formats@;
        assert forall|h: Seq<char>| #[trigger] texts(hashes@).contains(h) <==> hash_of_old_item(
            db@,
            cutoff_ms,
            h,
        ) by {
            if texts(hashes@).contains(h) {
                let j = choose|j: int|
                    0 <= j < rows.len() && is_old(
                        db@.items,
                        (#[trigger] rows[j]).item_id@,
                        cutoff_ms,
                    ) && rows[j].blob_hash@ == h;
                assert(db@.formats.contains_key(rows[j].key()));
            }
            if hash_of_old_item(db@, cutoff_ms, h) {
                let k = choose|k: (Seq<char>, Seq<char>)| #[trigger]
                    db@.formats.contains_key(k) && is_old(db@.items, k.0, cutoff_ms)
                        && db@.formats[k].blob_hash == h;
                let j = choose|j: int| 0 <= j < rows.len() && #[trigger] rows[j].key() == k;
                assert(rows[j].blob_hash@ == h);
            }
        }
    }
    hashes
}

// ---------------------------------------------------------------------------
// Queries
// ---------------------------------------------------------------------------

/// Check whether any `formats` row still references `hash`.
pub fn blob_hash_has_references(db: &Db, hash: &str) -> (r: bool)
    requires
        db.wf(),
    ensures
        r == db@.references(hash@),
{
    let mut i: usize = 0;
    while i < db.formats.len()
        invariant
            db.wf(),
            i <= db.formats@.len(),
            forall|j: int| 0 <= j < i ==> (#[trigger] db.formats@[j]).blob_hash@ != hash@,
        decreases db.formats@.len() - i,
    {
        if same_text(db.formats[i].blob_hash.as_str(), hash) {
            proof {
                lemma_table(db.formats@);
                let k = db.formats@[i as int].key();
                assert(db@.formats.contains_key(k) && db@.formats[k].blob_hash == hash@);
            }
            return true;
        }
        i += 1;
    }
    proof {
        lemma_table(db.formats@);
        assert forall|k: (Seq<char>, Seq<char>)| #[trigger]
            db@.formats.contains_key(k) implies db@.formats[k].blob_hash != hash@ by {
            let j = choose|j: int| 0 <= j < db.formats@.len() && #[trigger] db.formats@[j].key() == k;
            assert(db.formats@[j].blob_hash@ != hash@);
        }
    }
    false
}

/// Check whether an item exists; return `Err(NotFound)` if not.
pub fn require_item(db: &Db, id: ItemId) -> (r: Result<()>)
    requires
        db.wf(),
    ensures
        r is Ok <==> db@.items.contains_key(hyphenated_text(id.bits)),
        r is Err ==> r->Err_0 is NotFound,
{
    let id = id.to_text();
    if find_item(&db.items, id.as_str()) < db.items.len() {
        Ok(())
    } else {
        Err(Error::NotFound)
    }
}

/// Fetch a single item by id.
pub fn get_item(db: &Db, id: ItemId) -> (r: Result<Item>)
    requires
        db.wf(),
    ensures
        match r {
            Ok(item) => {
                &&& db@.items.contains_key(hyphenated_text(id.bits))
                &&& item == item_of(id, db@.items[hyphenated_text(id.bits)])
            },
            Err(e) => {
                &&& !db@.items.contains_key(hyphenated_text(id.bits))
                &&& e is NotFound
            },
        },
{
    let id_text = id.to_text();
    let at = find_item(&db.items, id_text.as_str());
    if at < db.items.len() {
        Ok(row_to_item(&db.items[at]))
    } else {
        Err(Error::NotFound)
    }
}

/// The formats stored under an id.
fn select_formats(db: &Db, id: &str) -> (r: Vec<Format>)
    requires
        db.wf(),
    ensures
        lists_formats(db@, id@, id_of_text(id@), format_views(r@)),
        forall|u: u128| id@ == #[trigger] hyphenated_text(u) ==> lists_formats(
            db@,
            id@,
            (ItemId { bits: u }),
            format_views(r@),
        ),
{
    let mut list: Vec<Format> = Vec::new();
    let ghost mut origin: Seq<int> = Seq::empty();
    let mut i: usize = 0;
    while i < db.formats.len()
        invariant
            db.wf(),
            i <= db.formats@.len(),
            origin.len() == list@.len(),
            forall|a: int, b: int| 0 <= a < b < origin.len() ==> origin[a] < origin[b],
            forall|a: int|
                0 <= a < list@.len() ==> {
                    &&& 0 <= #[trigger] origin[a] < i
                    &&& db.formats@[origin[a]].item_id@ == id@
                    &&& list@[a]@ == format_of(
                        id_of_text(id@),
                        db.formats@[origin[a]].mime@,
                        db.formats@[origin[a]].data(),
                    )
                },
            forall|a: int, u: u128|
                0 <= a < list@.len() && id@ == #[trigger] hyphenated_text(u)
                    ==> (#[trigger] list@[a]).item_id.bits == u,
            forall|j: int|
                0 <= j < i && (#[trigger] db.formats@[j]).item_id@ == id@ ==> origin.contains(j),
        decreases db.formats@.len() - i,
    {
        let ghost before = origin;
        if same_text(db.formats[i].item_id.as_str(), id) {
            list.push(row_to_format(&db.formats[i]));
            proof {
                origin = origin.push(i as int);
                assert(origin[before.len() as int] == i);
                assert forall|j: int| before.contains(j) implies origin.contains(j) by {
                    let a = choose|a: int| 0 <= a < before.len() && before[a] == j;
                    assert(origin[a] == j);
                }
            }
        }
        i += 1;
    }
    proof {
        lemma_selected(db, id@, id_of_text(id@), list@, origin);
        assert forall|u: u128| id@ == #[trigger] hyphenated_text(u) implies lists_formats(
            db@,
            id@,
            (ItemId { bits: u }),
            format_views(list@),
        ) by {
            lemma_selected(db, id@, ItemId { bits: u }, list@, origin);
        }
    }
    list
}

proof fn lemma_selected(
    db: &Db,
    id: Seq<char>,
    item_id: ItemId,
    list: Seq<Format>,
    origin: Seq<int>,
)
    requires
        db.wf(),
        origin.len() == list.len(),
        forall|a: int, b: int| 0 <= a < b < origin.len() ==> origin[a] < origin[b],
        forall|a: int|
            0 <= a < list.len() ==> {
                &&& 0 <= #[trigger] origin[a] < db.formats@.len()
                &&& db.formats@[origin[a]].item_id@ == id
                &&& list[a]@ == format_of(
                    item_id,
                    db.formats@[origin[a]].mime@,
                    db.formats@[origin[a]].data(),
                )
            },
        forall|j: int|
            0 <= j < db.formats@.len() && (#[trigger] db.formats@[j]).item_id@ == id
                ==> origin.contains(j),
    ensures
        lists_formats(db@, id, item_id, format_views(list)),
{
    let rows = db.formats@;
    lemma_table(rows);
    let views = format_views(list);
    assert forall|a: int, b: int| 0 <= a < b < views.len() implies (#[trigger] views[a]).mime != (
    #[trigger] views[b]).mime by {
        assert(views[a] == list[a]@ && views[b] == list[b]@);
        assert(origin[a] < origin[b]);
        assert(rows[origin[a]].key() != rows[origin[b]].key());
    }
    assert forall|a: int| 0 <= a < views.len() implies db@.formats.contains_key(
        (id, (#[trigger] views[a]).mime),
    ) && views[a] == format_of(item_id, views[a].mime, db@.formats[(id, views[a].mime)]) by {
        assert(views[a] == list[a]@);
        assert(0 <= origin[a] < rows.len());
        assert(rows[origin[a]].key() == (id, views[a].mime));
    }
    assert forall|mime: Seq<char>| #[trigger] db@.formats.contains_key((id, mime)) implies exists|
        a: int,
    |
        0 <= a < views.len() && (#[trigger] views[a]).mime == mime by {
        let j = choose|j: int| 0 <= j < rows.len() && #[trigger] rows[j].key() == (id, mime);
        assert(rows[j].item_id@ == id);
        assert(origin.contains(j));
        let a = choose|a: int| 0 <= a < origin.len() && origin[a] == j;
        assert(origin[a] == j);
        assert(views[a] == list[a]@);
        assert(views[a].mime == mime);
    }
}

/// Fetch all formats for an item; returns `Err(NotFound)` if the item itself
/// is missing.
pub fn get_formats(db: &Db, id: ItemId) -> (r: Result<Vec<Format>>)
    requires
        db.wf(),
    ensures
        match r {
            Ok(list) => {
                &&& db@.items.contains_key(hyphenated_text(id.bits))
                &&& lists_formats(db@, hyphenated_text(id.bits), id, format_views(list@))
            },
            Err(e) => {
                &&& !db@.items.contains_key(hyphenated_text(id.bits))
                &&& e is NotFound
            },
        },
{
    match require_item(db, id) {
        Ok(_) => {
            let id_text = id.to_text();
            Ok(select_formats(db, id_text.as_str()))
        },
        Err(e) => Err(e),
    }
}

/// Fetch a single format row for `(id, mime)`.
pub fn get_format(db: &Db, id: ItemId, mime: &str) -> (r: Result<Format>)
    requires
        db.wf(),
    ensures
        match r {
            Ok(f) => {
                &&& db@.formats.contains_key((hyphenated_text(id.bits), mime@))
                &&& f@ == format_of(
                    id,
                    mime@,
                    db@.formats[(hyphenated_text(id.bits), mime@)],
                )
            },
            Err(e) => {
                &&& !db@.formats.contains_key((hyphenated_text(id.bits), mime@))
                &&& e is NotFound
            },
        },
{
    let id_text = id.to_text();
    let at = find_format(&db.formats, id_text.as_str(), mime);
    if at < db.formats.len() {
        Ok(row_to_format(&db.formats[at]))
    } else {
        Err(Error::NotFound)
    }
}

// ---------------------------------------------------------------------------
// Listing
// ---------------------------------------------------------------------------

/// The item is there and, where a MIME type is asked for, has a format of it.
pub open spec fn is_selected(db: DbState, mime: Option<Seq<char>>, id: Seq<char>) -> bool {
    &&& db.items.contains_key(id)
    &&& mime is Some ==> db.formats.contains_key((id, mime->0))
}

/// Each text stands behind the next ones.
pub open spec fn descending(list: Seq<Seq<char>>) -> bool {
    forall|i: int, j: int|
        0 <= i < j < list.len() ==> text_before(#[trigger] list[j], #[trigger] list[i])
}

/// The ids are selected ones, in descending order, and what is left out stands
/// behind a full list.
pub open spec fn is_listing(
    db: DbState,
    limit: Option<nat>,
    mime: Option<Seq<char>>,
    ids: Seq<Seq<char>>,
) -> bool {
    &&& descending(ids)
    &&& forall|i: int| 0 <= i < ids.len() ==> is_selected(db, mime, #[trigger] ids[i])
    &&& limit is Some ==> ids.len() <= limit->0
    &&& forall|id: Seq<char>| #[trigger]
        is_selected(db, mime, id) && !ids.contains(id) ==> {
            &&& limit is Some
            &&& ids.len() == limit->0
            &&& forall|i: int| 0 <= i < ids.len() ==> text_before(id, #[trigger] ids[i])
        }
}

/// The ids that a listing shows, in its order.
pub open spec fn listed_ids(db: DbState, limit: Option<nat>, mime: Option<Seq<char>>) -> Seq<
    Seq<char>,
> {
    choose|ids: Seq<Seq<char>>| is_listing(db, limit, mime, ids)
}

proof fn lemma_listing_agrees(
    db: DbState,
    limit: Option<nat>,
    mime: Option<Seq<char>>,
    s: Seq<Seq<char>>,
    t: Seq<Seq<char>>,
    n: int,
)
    requires
        is_listing(db, limit, mime, s),
        is_listing(db, limit, mime, t),
        0 <= n < s.len(),
        n <= t.len(),
        s.take(n) == t.take(n),
    ensures
        n < t.len() && s[n] == t[n],
{
    assert(is_selected(db, mime, s[n]));
    assert forall|i: int| 0 <= i < n implies #[trigger] s[i] == t[i] by {
        assert(s.take(n)[i] == t.take(n)[i]);
    }
    if n >= t.len() {
        if t.contains(s[n]) {
            let j = choose|j: int| 0 <= j < t.len() && t[j] == s[n];
            assert(s[j] == t[j]);
            assert(text_before(s[n], s[j]));
            lemma_text_before_total(s[n], s[j]);
        }
        assert(t.len() == limit->0);
    } else if s[n] != t[n] {
        lemma_behind(db, limit, mime, s, t, n);
        lemma_behind(db, limit, mime, t, s, n);
        lemma_text_before_total(s[n], t[n]);
        lemma_text_before_total(t[n], s[n]);
    }
}

/// Of two listings that first differ at `n`, the second has the earlier text
/// there.
proof fn lemma_behind(
    db: DbState,
    limit: Option<nat>,
    mime: Option<Seq<char>>,
    s: Seq<Seq<char>>,
    t: Seq<Seq<char>>,
    n: int,
)
    requires
        is_listing(db, limit, mime, s),
        is_listing(db, limit, mime, t),
        0 <= n < s.len(),
        n < t.len(),
        forall|i: int| 0 <= i < n ==> #[trigger] s[i] == t[i],
        s[n] != t[n],
    ensures
        text_before(t[n], s[n]),
{
    assert(is_selected(db, mime, t[n]));
    if s.contains(t[n]) {
        let m = choose|m: int| 0 <= m < s.len() && s[m] == t[n];
        if m < n {
            assert(t[m] == t[n]);
            assert(text_before(t[n], t[m]));
            lemma_text_before_total(t[n], t[m]);
        }
        assert(text_before(s[m], s[n]));
    }
}

/// There is one listing.
pub proof fn lemma_listing_is_unique(
    db: DbState,
    limit: Option<nat>,
    mime: Option<Seq<char>>,
    ids: Seq<Seq<char>>,
)
    requires
        is_listing(db, limit, mime, ids),
    ensures
        listed_ids(db, limit, mime) == ids,
{
    let other = listed_ids(db, limit, mime);
    lemma_listing_prefix(db, limit, mime, ids, other, ids.len() as int);
    lemma_listing_prefix(db, limit, mime, other, ids, other.len() as int);
    assert(ids.take(ids.len() as int) =~= ids);
    assert(other.take(ids.len() as int) =~= other);
}

proof fn lemma_listing_prefix(
    db: DbState,
    limit: Option<nat>,
    mime: Option<Seq<char>>,
    s: Seq<Seq<char>>,
    t: Seq<Seq<char>>,
    n: int,
)
    requires
        is_listing(db, limit, mime, s),
        is_listing(db, limit, mime, t),
        0 <= n <= s.len(),
    ensures
        n <= t.len(),
        s.take(n) == t.take(n),
    decreases n,
{
    if n > 0 {
        lemma_listing_prefix(db, limit, mime, s, t, n - 1);
        lemma_listing_agrees(db, limit, mime, s, t, n - 1);
        assert(s.take(n) =~= s.take(n - 1).push(s[n - 1]));
        assert(t.take(n) =~= t.take(n - 1).push(t[n - 1]));
    }
}

/// The ids that a listing shows, in its order.
fn select_ids(db: &Db, limit: Option<usize>, mime_filter: Option<&str>) -> (r: Vec<String>)
    requires
        db.wf(),
    ensures
        texts(r@) == listed_ids(db@, limit_of(limit), mime_of(mime_filter)),
        is_listing(db@, limit_of(limit), mime_of(mime_filter), texts(r@)),
{
    let mut all: Vec<String> = Vec::new();
    let mut i: usize = 0;
    let ghost mime = mime_of(mime_filter);
    while i < db.items.len()
        invariant
            db.wf(),
            i <= db.items@.len(),
            mime == mime_of(mime_filter),
            ascending(texts(all@)),
            forall|id: Seq<char>| #[trigger]
                texts(all@).contains(id) <==> is_selected(db@, mime, id) && exists|j: int|
                    0 <= j < i && (#[trigger] db.items@[j]).id@ == id,
        decreases db.items@.len() - i,
    {
        let ghost before = texts(all@);
        proof {
            lemma_table(db.items@);
            assert(db@.items.contains_key(db.items@[i as int].key()));
        }
        let wanted = match mime_filter {
            None => true,
            Some(m) => find_format(&db.formats, db.items[i].id.as_str(), m) < db.formats.len(),
        };
        if wanted {
            insert_ascending(&mut all, db.items[i].id.clone());
        }
        assert forall|id: Seq<char>| #[trigger] texts(all@).contains(id) implies is_selected(
            db@,
            mime,
            id,
        ) && exists|j: int| 0 <= j < i + 1 && (#[trigger] db.items@[j]).id@ == id by {
            if before.contains(id) {
                let j = choose|j: int| 0 <= j < i && (#[trigger] db.items@[j]).id@ == id;
                assert(db.items@[j].id@ == id);
            } else {
                assert(db.items@[i as int].id@ == id);
            }
        }
        i += 1;
    }
    let ghost sorted = texts(all@);
    assert forall|id: Seq<char>| is_selected(db@, mime, id) implies sorted.contains(id) by {
        lemma_table(db.items@);
        let j = choose|j: int| 0 <= j < db.items@.len() && #[trigger] db.items@[j].key() == id;
        assert(db.items@[j].id@ == id);
    }
    let most: usize = match limit {
        Some(l) => if l < all.len() {
            l
        } else {
            all.len()
        },
        None => all.len(),
    };
    let mut ids: Vec<String> = Vec::new();
    while ids.len() < most
        invariant
            ids@.len() <= most <= sorted.len(),
            ids@.len() + all@.len() == sorted.len(),
            texts(all@) == sorted.take(all@.len() as int),
            forall|k: int| 0 <= k < ids@.len() ==> texts(ids@)[k] == sorted[sorted.len() - 1 - k],
        decreases most - ids@.len(),
    {
        let ghost rest = all@;
        let ghost n = rest.len();
        let ghost before = texts(ids@);
        match all.pop() {
            Some(id) => {
                let ghost text = id@;
                assert(text == texts(rest)[n - 1]);
                assert(text == sorted[n - 1]);
                ids.push(id);
                assert(texts(ids@) =~= before.push(text));
            },
            None => {},
        }
        assert(texts(all@) =~= sorted.take(all@.len() as int));
    }
    proof {
        let r = texts(ids@);
        let limit_nat = limit_of(limit);
        assert(descending(r)) by {
            assert forall|a: int, b: int| 0 <= a < b < r.len() implies text_before(
                #[trigger] r[b],
                #[trigger] r[a],
            ) by {
                assert(text_before(sorted[sorted.len() - 1 - b], sorted[sorted.len() - 1 - a]));
            }
        }
        assert forall|k: int| 0 <= k < r.len() implies is_selected(db@, mime, #[trigger] r[k]) by {
            assert(sorted.contains(sorted[sorted.len() - 1 - k]));
        }
        assert forall|id: Seq<char>| #[trigger]
            is_selected(db@, mime, id) && !r.contains(id) implies limit_nat is Some && r.len()
            == limit_nat->0 && forall|k: int|
            0 <= k < r.len() ==> text_before(id, #[trigger] r[k]) by {
            assert(sorted.contains(id));
            let j = choose|j: int| 0 <= j < sorted.len() && sorted[j] == id;
            let k = sorted.len() - 1 - j;
            if k < r.len() {
                assert(r[k] == id);
            }
            assert(j < all@.len());
            assert forall|k: int| 0 <= k < r.len() implies text_before(id, #[trigger] r[k]) by {
                assert(text_before(sorted[j], sorted[sorted.len() - 1 - k]));
            }
        }
        lemma_listing_is_unique(db@, limit_nat, mime, r);
    }
    ids
}

/// The number of items asked for, if there is a limit.
pub open spec fn limit_of(limit: Option<usize>) -> Option<nat> {
    match limit {
        Some(l) => Some(l as nat),
        None => None,
    }
}

/// The MIME type asked for, if there is one.
pub open spec fn mime_of(mime: Option<&str>) -> Option<Seq<char>> {
    match mime {
        Some(m) => Some(m@),
        None => None,
    }
}

/// The stored id is a UUID, and the item of that identity is there.
pub open spec fn is_listable(db: DbState, id: Seq<char>) -> bool {
    parsed_uuid(id) is Ok && db.items.contains_key(hyphenated_text(parsed_uuid(id)->Ok_0))
}

/// What a listing shows for a stored id.
pub open spec fn is_entry(db: DbState, id: Seq<char>, entry: ItemWithFormats) -> bool {
    let bits = parsed_uuid(id)->Ok_0;
    &&& entry.item == item_of(ItemId { bits }, db.items[hyphenated_text(bits)])
    &&& lists_formats(db, id, ItemId { bits }, format_views(entry.formats@))
}

/// The error that a stored id which cannot be listed gives.
pub open spec fn is_listing_error(db: DbState, id: Seq<char>, e: Error) -> bool {
    match parsed_uuid(id) {
        Err(text) => e matches Error::InvalidId(t) && t@ == text,
        Ok(_) => e is NotFound,
    }
}

/// What a listing gives: the entries of the listed ids in their order, or the
/// error of the first id that cannot be listed. Where every id is the text of
/// an identity it succeeds, with the greatest identity first.
pub open spec fn is_list_result(
    db: DbState,
    limit: Option<nat>,
    mime: Option<Seq<char>>,
    r: Result<Vec<ItemWithFormats>>,
) -> bool {
    let ids = listed_ids(db, limit, mime);
    &&& is_listing(db, limit, mime, ids)
    &&& match r {
        Ok(list) => {
            &&& list@.len() == ids.len()
            &&& forall|i: int|
                0 <= i < ids.len() ==> is_listable(db, #[trigger] ids[i]) && is_entry(
                    db,
                    ids[i],
                    list@[i],
                )
        },
        Err(e) => exists|i: int|
            {
                &&& 0 <= i < ids.len()
                &&& !is_listable(db, #[trigger] ids[i])
                &&& is_listing_error(db, ids[i], e)
                &&& forall|j: int| 0 <= j < i ==> is_listable(db, #[trigger] ids[j])
            },
    }
    &&& db.ids_are_canonical() ==> r is Ok && (forall|i: int|
        0 <= i < r->Ok_0@.len() ==> hyphenated_text((#[trigger] r->Ok_0@[i]).item.id.bits)
            == ids[i]) && forall|i: int, j: int|
        0 <= i < j < r->Ok_0@.len() ==> (#[trigger] r->Ok_0@[i]).item.id.bits > (
        #[trigger] r->Ok_0@[j]).item.id.bits
}

/// List items newest-first (descending by id), with optional limit and MIME
/// filter. MIME filter keeps items that have at least one format with that MIME.
pub fn list_items(db: &Db, limit: Option<usize>, mime_filter: Option<&str>) -> (r: Result<
    Vec<ItemWithFormats>,
>)
    requires
        db.wf(),
    ensures
        is_list_result(db@, limit_of(limit), mime_of(mime_filter), r),
{
    let ids = select_ids(db, limit, mime_filter);
    let ghost shown = texts(ids@);
    let mut result: Vec<ItemWithFormats> = Vec::new();
    let mut i: usize = 0;
    while i < ids.len()
        invariant
            db.wf(),
            i <= ids@.len(),
            shown == texts(ids@),
            is_listing(db@, limit_of(limit), mime_of(mime_filter), shown),
            shown == listed_ids(db@, limit_of(limit), mime_of(mime_filter)),
            result@.len() == i,
            forall|j: int|
                0 <= j < i ==> is_listable(db@, #[trigger] shown[j]) && is_entry(
                    db@,
                    shown[j],
                    result@[j],
                ),
            db@.ids_are_canonical() ==> forall|j: int|
                0 <= j < i ==> hyphenated_text((#[trigger] result@[j]).item.id.bits) == shown[j],
        decreases ids@.len() - i,
    {
        let ghost text = shown[i as int];
        assert(is_selected(db@, mime_of(mime_filter), text));
        let id = match parse_uuid_text(ids[i].as_str()) {
            Ok(id) => id,
            Err(e) => {
                assert(!is_listable(db@, text));
                return Err(Error::InvalidId(e));
            },
        };
        let item = match get_item(db, id) {
            Ok(item) => item,
            Err(e) => {
                assert(!is_listable(db@, text));
                return Err(e);
            },
        };
        let formats = select_formats(db, ids[i].as_str());
        let ghost before = result@;
        result.push(ItemWithFormats { item, formats });
        i += 1;
    }
    proof {
        if db@.ids_are_canonical() {
            assert forall|a: int, b: int| 0 <= a < b < result@.len() implies (
            #[trigger] result@[a]).item.id.bits > (#[trigger] result@[b]).item.id.bits by {
                assert(text_before(shown[b], shown[a]));
                lemma_text_order_is_id_order(result@[b].item.id.bits, result@[a].item.id.bits);
            }
        }
    }
    Ok(result)
}

/// A stored id that is a UUID stands for its value, and any other for the
/// identity whose bits are all zero.
pub proof fn law_stored_ids(text: Seq<char>)
    ensures
        parsed_uuid(text) matches Ok(bits) ==> id_of_text(text).bits == bits,
        parsed_uuid(text) is Err ==> id_of_text(text).bits == 0,
{
}

} // verus!
