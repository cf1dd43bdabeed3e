//! Restoring an item: what is advertised, and what is served.

use crate::error::Result;
use crate::ids::{hyphenated_text, ItemId};
use crate::store::db::{format_views, lists_formats};
use crate::store::{inputs, Store, StoreState};
use crate::text::{clone_bytes, same_text, starts_with, texts};
use crate::thumbnail::lemma_listed_mimes;
use vstd::prelude::*;

verus! {

/// A type of the namespace for generated data, which is stored but never
/// advertised.
pub open spec fn is_internal(mime: Seq<char>) -> bool {
    "application/x-richclip-"@.is_prefix_of(mime)
}

/// Whether a MIME type is in the `application/x-richclip-*` namespace.
pub fn is_internal_mime(mime: &str) -> (r: bool)
    ensures
        r == is_internal(mime@),
        r <==> exists|t: Seq<char>| mime@ == #[trigger] ("application/x-richclip-"@ + t),
{
    proof {
        lemma_internal(mime@);
    }
    starts_with(mime, "application/x-richclip-")
}

proof fn lemma_internal(mime: Seq<char>)
    ensures
        is_internal(mime) <==> exists|t: Seq<char>|
            mime == #[trigger] ("application/x-richclip-"@ + t),
{
    let front = "application/x-richclip-"@;
    if is_internal(mime) {
        assert(mime =~= front + mime.skip(front.len() as int));
    }
    if exists|t: Seq<char>| mime == #[trigger] (front + t) {
        let t = choose|t: Seq<char>| mime == #[trigger] (front + t);
        assert(front =~= mime.subrange(0, front.len() as int));
    }
}

/// The list holds the formats of the item that are advertised on restore: every
/// stored one that is not internal, once, with its bytes.
pub open spec fn is_restorable(
    s: StoreState,
    id: ItemId,
    list: Seq<(Seq<char>, Seq<u8>)>,
) -> bool {
    &&& crate::store::laws::distinct_mimes(list)
    &&& forall|i: int|
        0 <= i < list.len() ==> !is_internal((#[trigger] list[i]).0) && s.content(id, list[i].0)
            == Some(list[i].1)
    &&& forall|mime: Seq<char>|
        #![trigger s.db.formats.contains_key((hyphenated_text(id.bits), mime))]
        s.db.formats.contains_key((hyphenated_text(id.bits), mime)) && !is_internal(mime)
            ==> exists|i: int| 0 <= i < list.len() && (#[trigger] list[i]).0 == mime
}

/// Some advertised format of the item has lost its blob.
pub open spec fn lacks_blob(s: StoreState, id: ItemId) -> bool {
    exists|mime: Seq<char>|
        #![trigger s.db.formats.contains_key((hyphenated_text(id.bits), mime))]
        s.db.formats.contains_key((hyphenated_text(id.bits), mime)) && !is_internal(mime)
            && s.content(id, mime) is None
}

/// The formats that a restore of the item advertises, with the bytes to serve.
pub fn restorable_formats(store: &Store, id: ItemId) -> (r: Result<Vec<(String, Vec<u8>)>>)
    requires
        store.wf(),
    ensures
        match r {
            Ok(list) => {
                &&& store@.db.items.contains_key(hyphenated_text(id.bits))
                &&& !lacks_blob(store@, id)
                &&& is_restorable(store@, id, inputs(list@))
                &&& forall|t: Seq<char>|
                    !mimes_of(inputs(list@)).contains(#[trigger] ("application/x-richclip-"@ + t))
            },
            Err(e) => {
                &&& e is NotFound
                &&& !store@.db.items.contains_key(hyphenated_text(id.bits)) || lacks_blob(
                    store@,
                    id,
                )
            },
        },
{
    let formats = match store.formats(id) {
        Ok(formats) => formats,
        Err(e) => {
            return Err(e);
        },
    };
    let ghost text = hyphenated_text(id.bits);
    let ghost views = format_views(formats@);
    proof {
        lemma_listed_mimes(store@.db, id, formats@);
    }
    let mut list: Vec<(String, Vec<u8>)> = Vec::new();
    let ghost mut origin: Seq<int> = Seq::empty();
    let mut i: usize = 0;
    while i < formats.len()
        invariant
            store.wf(),
            i <= formats@.len(),
            text == hyphenated_text(id.bits),
            views == format_views(formats@),
            lists_formats(store@.db, text, id, views),
            store@.db.items.contains_key(text),
            origin.len() == list@.len(),
            forall|a: int, b: int| 0 <= a < b < origin.len() ==> origin[a] < origin[b],
            forall|a: int|
                0 <= a < list@.len() ==> {
                    &&& 0 <= #[trigger] origin[a] < i
                    &&& inputs(list@)[a].0 == formats@[origin[a]].mime@
                    &&& !is_internal(inputs(list@)[a].0)
                    &&& store@.content(id, inputs(list@)[a].0) == Some(inputs(list@)[a].1)
                },
            forall|j: int|
                0 <= j < i && !is_internal((#[trigger] formats@[j]).mime@) ==> origin.contains(j)
                    && store@.content(id, formats@[j].mime@) is Some,
        decreases formats@.len() - i,
    {
        let ghost before = list@;
        let ghost before_origin = origin;
        if !is_internal_mime(formats[i].mime.as_str()) {
            let bytes = match store.decode(id, formats[i].mime.as_str()) {
                Ok(bytes) => bytes,
                Err(e) => {
                    proof {
                        assert(views[i as int] == formats@[i as int]@);
                        assert(store@.db.formats.contains_key((text, views[i as int].mime)));
                    }
                    return Err(e);
                },
            };
            list.push((formats[i].mime.clone(), bytes));
            proof {
                origin = origin.push(i as int);
                let n = before.len() as int;
                assert(inputs(list@) =~= inputs(before).push((formats@[i as int].mime@, bytes@)));
                assert(origin[n] == i);
                assert forall|j: int| before_origin.contains(j) implies origin.contains(j) by {
                    let a = choose|a: int| 0 <= a < before_origin.len() && before_origin[a] == j;
                    assert(origin[a] == j);
                }
            }
        }
        i += 1;
    }
    proof {
        let out = inputs(list@);
        assert forall|a: int, b: int| 0 <= a < b < out.len() implies (#[trigger] out[a]).0 != (
        #[trigger] out[b]).0 by {
            assert(origin[a] < origin[b]);
            assert(views[origin[a]] == formats@[origin[a]]@);
            assert(views[origin[b]] == formats@[origin[b]]@);
            assert(views[origin[a]].mime != views[origin[b]].mime);
        }
        assert forall|a: int| 0 <= a < out.len() implies !is_internal((#[trigger] out[a]).0)
            && store@.content(id, out[a].0) == Some(out[a].1) by {
            assert(0 <= origin[a]);
        }
        assert forall|mime: Seq<char>|
            #![trigger store@.db.formats.contains_key((hyphenated_text(id.bits), mime))]
            store@.db.formats.contains_key((hyphenated_text(id.bits), mime)) && !is_internal(
                mime,
            ) implies (exists|a: int| 0 <= a < out.len() && (#[trigger] out[a]).0 == mime)
            && store@.content(id, mime) is Some by {
            let j = choose|j: int| 0 <= j < views.len() && (#[trigger] views[j]).mime == mime;
            assert(views[j] == formats@[j]@);
            assert(!is_internal(formats@[j].mime@));
            assert(origin.contains(j));
            let a = choose|a: int| 0 <= a < origin.len() && origin[a] == j;
            assert(origin[a] == j);
            assert(out[a].0 == mime);
        }
        assert forall|t: Seq<char>|
            !mimes_of(out).contains(#[trigger] ("application/x-richclip-"@ + t)) by {
            law_generated_data_is_never_restored(store@, id, out, t);
        }
    }
    Ok(list)
}

/// The MIME types to advertise, in order.
pub fn advertised(formats: &Vec<(String, Vec<u8>)>) -> (r: Vec<String>)
    ensures
        texts(r@) == mimes_of(inputs(formats@)),
{
    let mut mimes: Vec<String> = Vec::new();
    let mut i: usize = 0;
    while i < formats.len()
        invariant
            i <= formats@.len(),
            mimes@.len() == i,
            forall|j: int| 0 <= j < i ==> (#[trigger] mimes@[j])@ == inputs(formats@)[j].0,
        decreases formats@.len() - i,
    {
        mimes.push(formats[i].0.clone());
        i += 1;
    }
    assert(texts(mimes@) =~= mimes_of(inputs(formats@)));
    mimes
}

/// The MIME types of formats, in order.
pub open spec fn mimes_of(list: Seq<(Seq<char>, Seq<u8>)>) -> Seq<Seq<char>> {
    list.map_values(|p: (Seq<char>, Seq<u8>)| p.0)
}

// ---------------------------------------------------------------------------
// The provider
// ---------------------------------------------------------------------------

/// What the compositor tells the owner of the selection.
#[derive(Debug)]
pub enum RestoreEvent {
    /// A client asks for the bytes of a MIME type.
    Send { mime_type: String },
    /// A newer selection has replaced this one.
    Cancelled,
    /// The data device is no longer valid.
    Finished,
}

/// What the owner of the selection does.
#[derive(Debug)]
pub enum RestoreAction {
    /// Write the bytes, none where the MIME type is unknown, and close.
    Write { bytes: Option<Vec<u8>> },
    /// Destroy the data source.
    DestroySource,
    /// Nothing.
    Wait,
}

/// What the owner of a selection that serves `list` does about an event: whether
/// the ownership has ended before and after it, and the action.
pub open spec fn is_restore_step(
    list: Seq<(Seq<char>, Seq<u8>)>,
    before: bool,
    event: RestoreEvent,
    after: bool,
    r: RestoreAction,
) -> bool {
    match event {
        RestoreEvent::Send { mime_type } => {
            &&& after == before
            &&& r matches RestoreAction::Write { bytes } && match bytes {
                Some(b) => served(list, mime_type@) == Some(b@),
                None => served(list, mime_type@) is None,
            }
        },
        RestoreEvent::Cancelled => after && r is DestroySource,
        RestoreEvent::Finished => after && r is Wait,
    }
}

/// Serving a type does not end the ownership, and a newer selection or an invalid
/// device does; a type that was given is served with its last content, and any
/// other with nothing.
pub proof fn law_ownership(
    list: Seq<(Seq<char>, Seq<u8>)>,
    before: bool,
    event: RestoreEvent,
    after: bool,
    r: RestoreAction,
    i: int,
)
    requires
        is_restore_step(list, before, event, after, r),
    ensures
        after <==> before && event is Send || event is Cancelled || event is Finished,
        r is Write <==> event is Send,
        r is DestroySource <==> event is Cancelled,
        event matches RestoreEvent::Send { mime_type } && 0 <= i < list.len() && list[i].0
            == mime_type@ && (forall|j: int|
            i < j < list.len() ==> (#[trigger] list[j]).0 != mime_type@) ==> (r matches
            RestoreAction::Write { bytes } && bytes is Some && bytes->0@ == list[i].1),
        event matches RestoreEvent::Send { mime_type } && (forall|j: int|
            0 <= j < list.len() ==> (#[trigger] list[j]).0 != mime_type@) ==> (r matches
            RestoreAction::Write { bytes } && bytes is None),
{
    match event {
        RestoreEvent::Send { mime_type } => {
            if 0 <= i < list.len() && list[i].0 == mime_type@ && (forall|j: int|
                i < j < list.len() ==> (#[trigger] list[j]).0 != mime_type@) {
                let front = list.take(i);
                let more = list.skip(i + 1);
                assert forall|j: int| 0 <= j < more.len() implies (#[trigger] more[j]).0
                    != mime_type@ by {
                    assert(more[j] == list[i + 1 + j]);
                }
                law_last_content_is_served(front, mime_type@, list[i].1, more);
                assert(list =~= front + seq![(mime_type@, list[i].1)] + more);
            }
            if forall|j: int| 0 <= j < list.len() ==> (#[trigger] list[j]).0 != mime_type@ {
                lemma_not_served(list, mime_type@);
            }
        },
        _ => {},
    }
}

/// The owner of a restored selection.
pub struct RestoreState {
    blobs: Vec<(String, Vec<u8>)>,
    done: bool,
}

/// The content served under a MIME type: the last one given for it.
pub open spec fn served(list: Seq<(Seq<char>, Seq<u8>)>, mime: Seq<char>) -> Option<Seq<u8>>
    decreases list.len(),
{
    if list.len() == 0 {
        None
    } else if list.last().0 == mime {
        Some(list.last().1)
    } else {
        served(list.drop_last(), mime)
    }
}

/// The bytes served under a MIME type.
pub fn lookup(formats: &Vec<(String, Vec<u8>)>, mime: &str) -> (r: Option<Vec<u8>>)
    ensures
        match r {
            Some(bytes) => served(inputs(formats@), mime@) == Some(bytes@),
            None => served(inputs(formats@), mime@) is None,
        },
{
    let ghost list = inputs(formats@);
    let mut n: usize = formats.len();
    assert(list.take(n as int) =~= list);
    while n > 0
        invariant
            n <= formats@.len(),
            list == inputs(formats@),
            served(list, mime@) == served(list.take(n as int), mime@),
        decreases n,
    {
        proof {
            assert(list.take(n as int).drop_last() =~= list.take(n - 1));
            assert(list.take(n as int).last() == list[n - 1]);
        }
        if same_text(formats[n - 1].0.as_str(), mime) {
            return Some(clone_bytes(formats[n - 1].1.as_slice()));
        }
        n -= 1;
    }
    None
}

impl RestoreState {
    /// What is served.
    pub closed spec fn formats(self) -> Seq<(Seq<char>, Seq<u8>)> {
        inputs(self.blobs@)
    }

    /// The ownership has ended.
    pub closed spec fn is_done(self) -> bool {
        self.done
    }

    /// Own a selection that serves these formats.
    pub fn new(formats: Vec<(String, Vec<u8>)>) -> (r: RestoreState)
        ensures
            r.formats() == inputs(formats@),
            !r.is_done(),
    {
        RestoreState { blobs: formats, done: false }
    }

    /// Whether the ownership has ended.
    pub fn done(&self) -> (r: bool)
        ensures
            r == self.is_done(),
    {
        self.done
    }

    /// Take one event and say what is to be done.
    pub fn event(&mut self, event: RestoreEvent) -> (r: RestoreAction)
        ensures
            final(self).formats() == old(self).formats(),
            is_restore_step(
                old(self).formats(),
                old(self).is_done(),
                event,
                final(self).is_done(),
                r,
            ),
    {
        match event {
            RestoreEvent::Send { mime_type } => {
                let bytes = lookup(&self.blobs, mime_type.as_str());
                RestoreAction::Write { bytes }
            },
            RestoreEvent::Cancelled => {
                self.done = true;
                RestoreAction::DestroySource
            },
            RestoreEvent::Finished => {
                self.done = true;
                RestoreAction::Wait
            },
        }
    }
}

/// Each advertised format of a restored item is served with the bytes stored
/// for it.
pub proof fn law_restored_formats_are_served(
    s: StoreState,
    id: ItemId,
    list: Seq<(Seq<char>, Seq<u8>)>,
    mime: Seq<char>,
)
    requires
        is_restorable(s, id, list),
        s.db.formats.contains_key((hyphenated_text(id.bits), mime)),
        !is_internal(mime),
    ensures
        served(list, mime) == s.content(id, mime),
        served(list, mime) is Some,
{
    let i = choose|i: int| 0 <= i < list.len() && (#[trigger] list[i]).0 == mime;
    lemma_served(list, i);
}

proof fn lemma_served(list: Seq<(Seq<char>, Seq<u8>)>, i: int)
    requires
        crate::store::laws::distinct_mimes(list),
        0 <= i < list.len(),
    ensures
        served(list, list[i].0) == Some(list[i].1),
    decreases list.len(),
{
    let last = list.len() - 1;
    if i < last {
        assert(list[i].0 != list[last].0);
        let front = list.drop_last();
        assert forall|a: int, b: int| 0 <= a < b < front.len() implies (#[trigger] front[a]).0 != (
        #[trigger] front[b]).0 by {
            assert(list[a].0 != list[b].0);
        }
        assert(front[i] == list[i]);
        lemma_served(front, i);
    }
}

/// Nothing of the internal namespace is ever advertised or served.
pub proof fn law_internal_formats_are_not_served(
    s: StoreState,
    id: ItemId,
    list: Seq<(Seq<char>, Seq<u8>)>,
    mime: Seq<char>,
)
    requires
        is_restorable(s, id, list),
        is_internal(mime),
    ensures
        !mimes_of(list).contains(mime),
        served(list, mime) is None,
{
    if mimes_of(list).contains(mime) {
        let i = choose|i: int| 0 <= i < mimes_of(list).len() && mimes_of(list)[i] == mime;
        assert(list[i].0 == mime);
    }
    lemma_not_served(list, mime);
}

proof fn lemma_not_served(list: Seq<(Seq<char>, Seq<u8>)>, mime: Seq<char>)
    requires
        forall|i: int| 0 <= i < list.len() ==> (#[trigger] list[i]).0 != mime,
    ensures
        served(list, mime) is None,
    decreases list.len(),
{
    if list.len() > 0 {
        assert(list[list.len() - 1].0 != mime);
        let front = list.drop_last();
        assert forall|i: int| 0 <= i < front.len() implies (#[trigger] front[i]).0 != mime by {
            assert(list[i].0 != mime);
        }
        lemma_not_served(front, mime);
    }
}

/// A format that is stored under `application/x-richclip-` and any text behind
/// it is neither advertised nor served.
pub proof fn law_generated_data_is_never_restored(
    s: StoreState,
    id: ItemId,
    list: Seq<(Seq<char>, Seq<u8>)>,
    t: Seq<char>,
)
    requires
        is_restorable(s, id, list),
    ensures
        !mimes_of(list).contains("application/x-richclip-"@ + t),
        served(list, "application/x-richclip-"@ + t) is None,
{
    lemma_internal("application/x-richclip-"@ + t);
    law_internal_formats_are_not_served(s, id, list, "application/x-richclip-"@ + t);
}

/// Every stored format whose type does not begin with `application/x-richclip-`
/// is advertised, and served with its bytes.
pub proof fn law_everything_else_is_restored(
    s: StoreState,
    id: ItemId,
    list: Seq<(Seq<char>, Seq<u8>)>,
    mime: Seq<char>,
)
    requires
        is_restorable(s, id, list),
        s.db.formats.contains_key((hyphenated_text(id.bits), mime)),
        forall|t: Seq<char>| mime != #[trigger] ("application/x-richclip-"@ + t),
    ensures
        mimes_of(list).contains(mime),
        served(list, mime) is Some,
        served(list, mime) == s.content(id, mime),
{
    lemma_internal(mime);
    law_restored_formats_are_served(s, id, list, mime);
    let i = choose|i: int| 0 <= i < list.len() && (#[trigger] list[i]).0 == mime;
    assert(mimes_of(list)[i] == mime);
}

/// A restore fails for a lost blob of a format outside
/// `application/x-richclip-`, and for no other.
pub proof fn law_only_lost_originals_prevent_a_restore(s: StoreState, id: ItemId)
    ensures
        lacks_blob(s, id) <==> exists|mime: Seq<char>|
            #![trigger s.db.formats.contains_key((hyphenated_text(id.bits), mime))]
            s.db.formats.contains_key((hyphenated_text(id.bits), mime)) && s.content(id, mime)
                is None && forall|t: Seq<char>| mime != #[trigger] ("application/x-richclip-"@ + t),
{
    assert forall|mime: Seq<char>| is_internal(mime) <==> exists|t: Seq<char>|
        mime == #[trigger] ("application/x-richclip-"@ + t) by {
        lemma_internal(mime);
    }
}

/// Of several contents given for one type the last is served, and one type's
/// content is never served for another.
pub proof fn law_last_content_is_served(
    list: Seq<(Seq<char>, Seq<u8>)>,
    mime: Seq<char>,
    bytes: Seq<u8>,
    more: Seq<(Seq<char>, Seq<u8>)>,
)
    requires
        forall|i: int| 0 <= i < more.len() ==> (#[trigger] more[i]).0 != mime,
    ensures
        served(list + seq![(mime, bytes)] + more, mime) == Some(bytes),
        served(more, mime) is None,
    decreases more.len(),
{
    let all = list + seq![(mime, bytes)] + more;
    if more.len() > 0 {
        let rest = more.drop_last();
        assert(all.last() == more[more.len() - 1]);
        assert(all.drop_last() =~= list + seq![(mime, bytes)] + rest);
        assert forall|i: int| 0 <= i < rest.len() implies (#[trigger] rest[i]).0 != mime by {
            assert(more[i].0 != mime);
        }
        law_last_content_is_served(list, mime, bytes, rest);
    } else {
        assert(all.last() == (mime, bytes));
    }
}

} // verus!
