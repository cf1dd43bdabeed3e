//! Tables of rows with a unique key, and the maps they stand for.

use vstd::prelude::*;

verus! {

/// A row of a table: a key, which no other row of the table has, and the data
/// stored under it.
pub trait Row: Sized {
    type Key;

    type Data;

    spec fn key(self) -> Self::Key;

    spec fn data(self) -> Self::Data;
}

/// No key occurs twice.
pub open spec fn unique_keys<R: Row>(rows: Seq<R>) -> bool {
    forall|i: int, j: int|
        0 <= i < j < rows.len() ==> #[trigger] rows[i].key() != #[trigger] rows[j].key()
}

/// The map from keys to data that a table stands for.
pub open spec fn table<R: Row>(rows: Seq<R>) -> Map<R::Key, R::Data>
    decreases rows.len(),
{
    if rows.len() == 0 {
        Map::empty()
    } else {
        table(rows.drop_last()).insert(rows.last().key(), rows.last().data())
    }
}

/// The entries of the table are its rows.
pub proof fn lemma_table<R: Row>(rows: Seq<R>)
    requires
        unique_keys(rows),
    ensures
        forall|i: int|
            0 <= i < rows.len() ==> table(rows).contains_key(#[trigger] rows[i].key()) && table(
                rows,
            )[rows[i].key()] == rows[i].data(),
        forall|k: R::Key|
            table(rows).contains_key(k) ==> exists|i: int|
                0 <= i < rows.len() && #[trigger] rows[i].key() == k,
        table(rows).dom().finite(),
    decreases rows.len(),
{
    if rows.len() > 0 {
        let front = rows.drop_last();
        assert forall|i: int, j: int| 0 <= i < j < front.len() implies #[trigger] front[i].key()
            != #[trigger] front[j].key() by {
            assert(rows[i].key() != rows[j].key());
        }
        lemma_table(front);
        let last = rows.len() - 1;
        assert forall|i: int| 0 <= i < rows.len() implies table(rows).contains_key(
            #[trigger] rows[i].key(),
        ) && table(rows)[rows[i].key()] == rows[i].data() by {
            if i < last {
                assert(front[i] == rows[i]);
                assert(table(front).contains_key(front[i].key()));
                assert(rows[i].key() != rows[last].key());
            }
        }
        assert forall|k: R::Key| table(rows).contains_key(k) implies exists|i: int|
            0 <= i < rows.len() && #[trigger] rows[i].key() == k by {
            if k == rows.last().key() {
                assert(rows[last].key() == k);
            } else {
                assert(table(front).contains_key(k));
                let i = choose|i: int| 0 <= i < front.len() && #[trigger] front[i].key() == k;
                assert(rows[i].key() == k);
            }
        }
    }
}

/// A row with a new key adds one entry.
pub proof fn lemma_table_push<R: Row>(rows: Seq<R>, row: R)
    requires
        unique_keys(rows),
        !table(rows).contains_key(row.key()),
    ensures
        unique_keys(rows.push(row)),
        table(rows.push(row)) == table(rows).insert(row.key(), row.data()),
{
    lemma_table(rows);
    assert(rows.push(row).drop_last() =~= rows);
    assert forall|i: int, j: int| 0 <= i < j < rows.push(row).len() implies #[trigger] rows.push(
        row,
    )[i].key() != #[trigger] rows.push(row)[j].key() by {
        assert(rows[i].key() == rows.push(row)[i].key());
        if j < rows.len() {
            assert(rows[j].key() == rows.push(row)[j].key());
        }
    }
}

/// Replacing a row by one with the same key replaces one entry.
pub proof fn lemma_table_update<R: Row>(rows: Seq<R>, at: int, row: R)
    requires
        unique_keys(rows),
        0 <= at < rows.len(),
        row.key() == rows[at].key(),
    ensures
        unique_keys(rows.update(at, row)),
        table(rows.update(at, row)) == table(rows).insert(row.key(), row.data()),
{
    let after = rows.update(at, row);
    assert forall|i: int, j: int| 0 <= i < j < after.len() implies #[trigger] after[i].key()
        != #[trigger] after[j].key() by {
        assert(rows[i].key() == after[i].key());
        assert(rows[j].key() == after[j].key());
    }
    lemma_table(rows);
    lemma_table(after);
    let expected = table(rows).insert(row.key(), row.data());
    assert forall|k: R::Key| table(after).contains_key(k) == expected.contains_key(k) by {
        if table(after).contains_key(k) {
            let i = choose|i: int| 0 <= i < after.len() && #[trigger] after[i].key() == k;
            assert(rows[i].key() == k);
        }
        if table(rows).contains_key(k) {
            let i = choose|i: int| 0 <= i < rows.len() && #[trigger] rows[i].key() == k;
            assert(after[i].key() == k);
        }
        assert(after[at].key() == row.key());
    }
    assert forall|k: R::Key| table(after).contains_key(k) implies table(after)[k] == expected[k] by {
        let i = choose|i: int| 0 <= i < after.len() && #[trigger] after[i].key() == k;
        assert(rows[i].key() == k);
        assert(after[at].key() == row.key());
        if i != at {
            assert(rows[i].key() != rows[at].key());
        }
    }
    assert(table(after) =~= expected);
}

/// Removing a row removes one entry.
pub proof fn lemma_table_remove<R: Row>(rows: Seq<R>, at: int)
    requires
        unique_keys(rows),
        0 <= at < rows.len(),
    ensures
        unique_keys(rows.remove(at)),
        table(rows.remove(at)) == table(rows).remove(rows[at].key()),
{
    let after = rows.remove(at);
    assert forall|i: int, j: int| 0 <= i < j < after.len() implies #[trigger] after[i].key()
        != #[trigger] after[j].key() by {
        let a = if i < at { i } else { i + 1 };
        let b = if j < at { j } else { j + 1 };
        assert(rows[a].key() == after[i].key());
        assert(rows[b].key() == after[j].key());
    }
    lemma_table(rows);
    lemma_table(after);
    let expected = table(rows).remove(rows[at].key());
    assert forall|k: R::Key| table(after).contains_key(k) == expected.contains_key(k) by {
        if table(after).contains_key(k) {
            let i = choose|i: int| 0 <= i < after.len() && #[trigger] after[i].key() == k;
            let a = if i < at { i } else { i + 1 };
            assert(rows[a].key() == k);
            assert(rows[a].key() != rows[at].key());
        }
        if expected.contains_key(k) {
            let a = choose|i: int| 0 <= i < rows.len() && #[trigger] rows[i].key() == k;
            let i = if a < at { a } else { a - 1 };
            assert(after[i].key() == k);
        }
    }
    assert forall|k: R::Key| table(after).contains_key(k) implies table(after)[k] == expected[k] by {
        let i = choose|i: int| 0 <= i < after.len() && #[trigger] after[i].key() == k;
        let a = if i < at { i } else { i + 1 };
        assert(rows[a].key() == k);
    }
    assert(table(after) =~= expected);
}

/// The entries that `keep` holds of.
pub open spec fn kept<K, V>(m: Map<K, V>, keep: spec_fn(K, V) -> bool) -> Map<K, V> {
    m.restrict(Set::new(|k: K| m.contains_key(k) && keep(k, m[k])))
}

/// What a row must meet to be kept.
pub open spec fn row_kept<R: Row>(keep: spec_fn(R::Key, R::Data) -> bool) -> spec_fn(R) -> bool {
    |row: R| keep(row.key(), row.data())
}

/// Dropping rows drops their entries and nothing else.
pub proof fn lemma_table_filter<R: Row>(rows: Seq<R>, keep: spec_fn(R::Key, R::Data) -> bool)
    requires
        unique_keys(rows),
    ensures
        unique_keys(rows.filter(row_kept::<R>(keep))),
        table(rows.filter(row_kept::<R>(keep))) == kept(table(rows), keep),
    decreases rows.len(),
{
    let p = row_kept::<R>(keep);
    reveal(Seq::filter);
    if rows.len() == 0 {
        assert(table(rows.filter(p)) =~= kept(table(rows), keep));
    } else {
        let front = rows.drop_last();
        let last = rows.last();
        assert forall|i: int, j: int| 0 <= i < j < front.len() implies #[trigger] front[i].key()
            != #[trigger] front[j].key() by {
            assert(rows[i].key() != rows[j].key());
        }
        lemma_table_filter(front, keep);
        lemma_table(front);
        assert(!table(front).contains_key(last.key())) by {
            if table(front).contains_key(last.key()) {
                let i = choose|i: int|
                    0 <= i < front.len() && #[trigger] front[i].key() == last.key();
                assert(rows[i].key() == rows[rows.len() - 1].key());
            }
        }
        if p(last) {
            lemma_table_push(front.filter(p), last);
            assert(rows.filter(p) == front.filter(p).push(last));
        } else {
            assert(rows.filter(p) == front.filter(p));
        }
        assert(table(rows.filter(p)) =~= kept(table(rows), keep));
    }
}

/// Filtering one row further.
pub proof fn lemma_filter_step<A>(s: Seq<A>, p: spec_fn(A) -> bool, n: int)
    requires
        0 <= n < s.len(),
    ensures
        s.take(n + 1).filter(p) == (if p(s[n]) {
            s.take(n).filter(p).push(s[n])
        } else {
            s.take(n).filter(p)
        }),
{
    reveal(Seq::filter);
    assert(s.take(n + 1).drop_last() =~= s.take(n));
    assert(s.take(n + 1).last() == s[n]);
}

} // verus!
