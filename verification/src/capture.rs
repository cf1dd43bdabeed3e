//! The capture of clipboard selections, as a machine: the compositor's events
//! go in, and what is to be received comes out.

use crate::backend::{captured, CaptureSink, CapturedFormat, CapturedItem};
use crate::filter::{
    accepted, accepted_mimes, accepted_pairs, base_type, fits, is_sensitive, is_sensitive_type,
    law_first_offer_of_a_type_wins, law_marked_type_is_sensitive,
    law_other_types_are_not_sensitive, law_secret_type_is_sensitive, lowered, lowered_bases,
    saturated_sum, within_size_limits, AcceptedMime, CaptureConfig,
};
use crate::restore::{advertised, lookup, mimes_of, served};
use crate::store::inputs;
use crate::store::table::{
    lemma_table, lemma_table_push, lemma_table_remove, lemma_table_update, table, unique_keys, Row,
};
use crate::text::{texts, unicode_lowercase};
use vstd::prelude::*;

verus! {

/// wlr-data-control capture backend.
///
/// Construct with [`WlrDataControlBackend::new`] (uses default
/// [`CaptureConfig`]) or [`WlrDataControlBackend::with_config`].
#[derive(Debug)]
pub struct WlrDataControlBackend {
    pub config: CaptureConfig,
}

impl WlrDataControlBackend {
    /// Create a backend with the default [`CaptureConfig`].
    pub fn new() -> (r: Self)
        ensures
            texts(r.config.allowed_mimes@) == crate::filter::default_mimes(),
            r.config.max_item_bytes == 8 * 1024 * 1024,
            r.config.max_format_bytes == 4 * 1024 * 1024,
    {
        WlrDataControlBackend { config: CaptureConfig::default() }
    }

    /// Create a backend with a custom [`CaptureConfig`].
    pub fn with_config(config: CaptureConfig) -> (r: Self)
        ensures
            r.config == config,
    {
        WlrDataControlBackend { config }
    }
}

// ---------------------------------------------------------------------------
// State
// ---------------------------------------------------------------------------

/// The MIME types advertised so far for one offer.
#[derive(Debug)]
pub struct OfferedTypes {
    pub id: u64,
    pub mimes: Vec<String>,
}

impl Row for OfferedTypes {
    type Key = u64;

    type Data = Seq<Seq<char>>;

    open spec fn key(self) -> u64 {
        self.id
    }

    open spec fn data(self) -> Seq<Seq<char>> {
        texts(self.mimes@)
    }
}

/// What the compositor tells, and what became of a request to receive.
#[derive(Debug)]
pub enum CaptureEvent {
    /// A new offer was introduced.
    DataOffer { id: u64 },
    /// An offer advertises one more MIME type.
    Offer { id: u64, mime_type: String },
    /// The selection is now this offer, or cleared.
    Selection { offer: Option<u64> },
    /// The formats asked for were read, each to its end or not at all.
    Received { id: u64, accepted: Vec<AcceptedMime>, reads: Vec<Option<Vec<u8>>> },
}

/// What is to be done after an event.
#[derive(Debug)]
pub enum CaptureAction {
    /// Nothing.
    Wait,
    /// Ask the offer for each of these types, by what was offered, and answer
    /// with [`CaptureEvent::Received`].
    Receive { id: u64, accepted: Vec<AcceptedMime> },
}

/// All mutable state of the capture.
pub struct State {
    config: CaptureConfig,
    sink: CaptureSink,
    offers: Vec<OfferedTypes>,
}

/// What the state of a capture stands for.
pub struct CaptureView {
    pub config: CaptureConfig,
    /// The offers that are open, with their types in the order of the offer.
    pub offers: Map<u64, Seq<Seq<char>>>,
    /// The items captured and not yet taken.
    pub items: Seq<CapturedItem>,
}

impl View for State {
    type V = CaptureView;

    closed spec fn view(&self) -> CaptureView {
        CaptureView { config: self.config, offers: table(self.offers@), items: self.sink@ }
    }
}

/// The offer carries a type that marks it as secret.
pub open spec fn is_sensitive_offer(mimes: Seq<Seq<char>>) -> bool {
    exists|i: int|
        0 <= i < mimes.len() && is_sensitive_type(unicode_lowercase(#[trigger] mimes[i]))
}

/// The types of an offer that are captured.
pub open spec fn captured_types(config: CaptureConfig, mimes: Seq<Seq<char>>) -> Seq<
    (Seq<char>, Seq<char>),
> {
    accepted(lowered(texts(config.allowed_mimes@)), mimes, lowered_bases(mimes))
}

/// The formats kept of what was read, the first type first: one that could not
/// be read or is over the cap for one format is passed over, and the first one
/// that would take the item over its cap ends it.
pub open spec fn drained(
    config: CaptureConfig,
    types: Seq<(Seq<char>, Seq<char>)>,
    reads: Seq<Option<Seq<u8>>>,
    total: usize,
) -> Seq<(Seq<char>, Seq<u8>)>
    decreases types.len(),
{
    if types.len() == 0 || reads.len() == 0 {
        Seq::empty()
    } else {
        match reads[0] {
            None => drained(config, types.drop_first(), reads.drop_first(), total),
            Some(bytes) => if bytes.len() > config.max_format_bytes {
                drained(config, types.drop_first(), reads.drop_first(), total)
            } else if fits(config, total, bytes.len() as usize) {
                seq![(types[0].1, bytes)] + drained(
                    config,
                    types.drop_first(),
                    reads.drop_first(),
                    saturated_sum(total, bytes.len() as usize) as usize,
                )
            } else {
                Seq::empty()
            },
        }
    }
}

/// What was read, as contents.
pub open spec fn read_contents(reads: Seq<Option<Vec<u8>>>) -> Seq<Option<Seq<u8>>> {
    reads.map_values(
        |r: Option<Vec<u8>>|
            match r {
                Some(bytes) => Some(bytes@),
                None => None,
            },
    )
}

/// The action asks for exactly these types of the offer.
pub open spec fn asks_for(action: CaptureAction, id: u64, types: Seq<(Seq<char>, Seq<char>)>) -> bool {
    action matches CaptureAction::Receive { id: i, accepted: a } && i == id && accepted_pairs(a@)
        == types
}

/// The formats of the captured item at this place.
pub open spec fn item_formats(items: Seq<CapturedItem>, i: int) -> Seq<(Seq<char>, Seq<u8>)> {
    captured(items[i].formats@)
}

/// What an event makes of the state, and the action that it calls for.
pub open spec fn steps_to(
    before: CaptureView,
    event: CaptureEvent,
    after: CaptureView,
    action: CaptureAction,
) -> bool {
    &&& after.config == before.config
    &&& match event {
        CaptureEvent::DataOffer { id } => {
            &&& action is Wait
            &&& after.items == before.items
            &&& after.offers == before.offers.insert(id, Seq::empty())
        },
        CaptureEvent::Offer { id, mime_type } => {
            &&& action is Wait
            &&& after.items == before.items
            &&& after.offers == if before.offers.contains_key(id) {
                before.offers.insert(id, before.offers[id].push(mime_type@))
            } else {
                before.offers
            }
        },
        CaptureEvent::Selection { offer: None } => {
            action is Wait && after.items == before.items && after.offers == before.offers
        },
        CaptureEvent::Selection { offer: Some(id) } => {
            &&& after.items == before.items
            &&& if !before.offers.contains_key(id) {
                action is Wait && after.offers == before.offers
            } else if is_sensitive_offer(before.offers[id]) || captured_types(
                before.config,
                before.offers[id],
            ).len() == 0 {
                action is Wait && after.offers == before.offers.remove(id)
            } else {
                asks_for(action, id, captured_types(before.config, before.offers[id]))
                    && after.offers == before.offers
            }
        },
        CaptureEvent::Received { id, accepted, reads } => {
            let formats = drained(
                before.config,
                accepted_pairs(accepted@),
                read_contents(reads@),
                0,
            );
            &&& action is Wait
            &&& after.offers == before.offers.remove(id)
            &&& if formats.len() == 0 {
                after.items == before.items
            } else {
                &&& after.items.len() == before.items.len() + 1
                &&& after.items.drop_last() == before.items
                &&& item_formats(after.items, before.items.len() as int) == formats
            }
        },
    }
}

impl State {
    /// No offer is registered twice.
    pub closed spec fn wf(self) -> bool {
        unique_keys(self.offers@)
    }

    /// A capture that has seen nothing.
    pub fn new(config: CaptureConfig) -> (r: State)
        ensures
            r.wf(),
            r@.config == config,
            r@.offers == Map::<u64, Seq<Seq<char>>>::empty(),
            r@.items == Seq::<CapturedItem>::empty(),
    {
        State { config, sink: CaptureSink::new(), offers: Vec::new() }
    }

    /// Hand out the items captured since the last call.
    pub fn take_items(&mut self) -> (r: Vec<CapturedItem>)
        requires
            old(self).wf(),
        ensures
            final(self).wf(),
            r@ == old(self)@.items,
            final(self)@.items == Seq::<CapturedItem>::empty(),
            final(self)@.offers == old(self)@.offers,
            final(self)@.config == old(self)@.config,
    {
        self.sink.take()
    }

    /// The place of the offer, or the number of offers where it is unknown.
    fn find(&self, id: u64) -> (r: usize)
        requires
            self.wf(),
        ensures
            r <= self.offers@.len(),
            r < self.offers@.len() ==> self.offers@[r as int].key() == id
                && self@.offers.contains_key(id) && self@.offers[id]
                == self.offers@[r as int].data(),
            r == self.offers@.len() ==> !self@.offers.contains_key(id),
    {
        proof {
            lemma_table(self.offers@);
        }
        let mut i: usize = 0;
        while i < self.offers.len()
            invariant
                self.wf(),
                i <= self.offers@.len(),
                forall|j: int| 0 <= j < i ==> (#[trigger] self.offers@[j]).key() != id,
            decreases self.offers@.len() - i,
        {
            if self.offers[i].id == id {
                proof {
                    lemma_table(self.offers@);
                    assert(self.offers@[i as int].key() == id);
                }
                return i;
            }
            i += 1;
        }
        i
    }

    /// Forget the offer, if it is known.
    fn forget(&mut self, id: u64)
        requires
            old(self).wf(),
        ensures
            final(self).wf(),
            final(self)@.offers == old(self)@.offers.remove(id),
            final(self)@.items == old(self)@.items,
            final(self)@.config == old(self)@.config,
            final(self).config == old(self).config,
    {
        let at = self.find(id);
        if at < self.offers.len() {
            proof {
                lemma_table_remove(self.offers@, at as int);
            }
            self.offers.remove(at);
        }
        assert(self@.offers =~= old(self)@.offers.remove(id));
    }

    /// Take one event and say what is to be done.
    pub fn event(&mut self, event: CaptureEvent) -> (r: CaptureAction)
        requires
            old(self).wf(),
            event matches CaptureEvent::Received { accepted, reads, .. } ==> accepted@.len()
                == reads@.len(),
        ensures
            final(self).wf(),
            steps_to(old(self)@, event, final(self)@, r),
    {
        match event {
            CaptureEvent::DataOffer { id } => {
                // A new offer has been created. Register an empty MIME list;
                // later events populate it before the selection arrives.
                let at = self.find(id);
                let row = OfferedTypes { id, mimes: Vec::new() };
                assert(row.data() =~= Seq::empty());
                if at < self.offers.len() {
                    proof {
                        lemma_table_update(self.offers@, at as int, row);
                    }
                    self.offers.set(at, row);
                } else {
                    proof {
                        lemma_table_push(self.offers@, row);
                    }
                    self.offers.push(row);
                }
                CaptureAction::Wait
            },
            CaptureEvent::Offer { id, mime_type } => {
                // Accumulate the MIME type into this offer's list. An offer
                // that was not introduced is ignored.
                let at = self.find(id);
                if at < self.offers.len() {
                    let ghost before = self.offers@[at as int];
                    let ghost text = mime_type@;
                    let mut mimes = crate::text::clone_texts(&self.offers[at].mimes);
                    mimes.push(mime_type);
                    assert(texts(mimes@) =~= texts(before.mimes@).push(text));
                    let row = OfferedTypes { id, mimes };
                    proof {
                        lemma_table_update(self.offers@, at as int, row);
                    }
                    self.offers.set(at, row);
                }
                CaptureAction::Wait
            },
            CaptureEvent::Selection { offer: None } => {
                // Clipboard cleared; nothing to capture.
                CaptureAction::Wait
            },
            CaptureEvent::Selection { offer: Some(id) } => {
                let at = self.find(id);
                if at == self.offers.len() {
                    return CaptureAction::Wait;
                }
                let ghost mimes = texts(self.offers@[at as int].mimes@);
                // Sensitivity check (before allowlist).
                let sensitive = is_sensitive(self.offers[at].mimes.as_slice());
                proof {
                    lemma_sensitive_offer(self.offers@[at as int].mimes@);
                }
                if sensitive {
                    self.forget(id);
                    return CaptureAction::Wait;
                }
                // Allowlist filter.
                let accepted = accepted_mimes(&self.config, self.offers[at].mimes.as_slice());
                if accepted.len() == 0 {
                    assert(accepted_pairs(accepted@).len() == 0);
                    self.forget(id);
                    return CaptureAction::Wait;
                }
                assert(accepted_pairs(accepted@).len() > 0);
                CaptureAction::Receive { id, accepted }
            },
            CaptureEvent::Received { id, accepted, reads } => {
                let formats = drain(&self.config, &accepted, &reads);
                self.forget(id);
                if formats.len() > 0 {
                    let ghost items = self.sink@;
                    let ghost kept = captured(formats@);
                    self.sink.push(CapturedItem { formats });
                    assert(self.sink@.drop_last() =~= items);
                    assert(item_formats(self.sink@, items.len() as int) == kept);
                }
                CaptureAction::Wait
            },
        }
    }
}

proof fn lemma_sensitive_offer(mimes: Seq<String>)
    ensures
        is_sensitive_offer(texts(mimes)) <==> exists|i: int|
            0 <= i < mimes.len() && is_sensitive_type(
                unicode_lowercase((#[trigger] mimes[i])@),
            ),
{
    let all = texts(mimes);
    if is_sensitive_offer(all) {
        let i = choose|i: int|
            0 <= i < all.len() && is_sensitive_type(unicode_lowercase(#[trigger] all[i]));
        assert(mimes[i]@ == all[i]);
    }
    if exists|i: int|
        0 <= i < mimes.len() && is_sensitive_type(unicode_lowercase((#[trigger] mimes[i])@)) {
        let i = choose|i: int|
            0 <= i < mimes.len() && is_sensitive_type(unicode_lowercase((#[trigger] mimes[i])@));
        assert(all[i] == mimes[i]@);
    }
}

/// The formats kept of what was read. One that could not be read or is too large
/// by itself is passed over; one that would make the item too large also stops
/// it from taking more.
pub fn drain(
    config: &CaptureConfig,
    accepted: &Vec<AcceptedMime>,
    reads: &Vec<Option<Vec<u8>>>,
) -> (r: Vec<CapturedFormat>)
    requires
        accepted@.len() == reads@.len(),
    ensures
        captured(r@) == drained(*config, accepted_pairs(accepted@), read_contents(reads@), 0),
{
    let ghost types = accepted_pairs(accepted@);
    let ghost contents = read_contents(reads@);
    let mut formats: Vec<CapturedFormat> = Vec::new();
    let mut total: usize = 0;
    let mut i: usize = 0;
    proof {
        assert(types.skip(0) =~= types);
        assert(contents.skip(0) =~= contents);
        assert(captured(formats@) =~= Seq::empty());
        assert(Seq::<(Seq<char>, Seq<u8>)>::empty() + drained(*config, types, contents, 0)
            =~= drained(*config, types, contents, 0));
    }
    while i < accepted.len()
        invariant
            i <= accepted@.len(),
            accepted@.len() == reads@.len(),
            types == accepted_pairs(accepted@),
            contents == read_contents(reads@),
            captured(formats@) + drained(
                *config,
                types.skip(i as int),
                contents.skip(i as int),
                total,
            ) == drained(*config, types, contents, 0),
        decreases accepted@.len() - i,
    {
        let ghost n = i as int;
        let ghost before = captured(formats@);
        proof {
            assert(types.skip(n).drop_first() =~= types.skip(n + 1));
            assert(contents.skip(n).drop_first() =~= contents.skip(n + 1));
            assert(types.skip(n)[0] == types[n]);
            assert(contents.skip(n)[0] == contents[n]);
        }
        match &reads[i] {
            Some(bytes) => {
                assert(contents[n] == Some(bytes@));
                if bytes.len() > config.max_format_bytes {
                    i += 1;
                    continue;
                }
                if !within_size_limits(config, total, bytes.len()) {
                    assert(before + Seq::<(Seq<char>, Seq<u8>)>::empty() =~= before);
                    return formats;
                }
                let ghost rest = drained(
                    *config,
                    types.skip(n + 1),
                    contents.skip(n + 1),
                    saturated_sum(total, bytes@.len() as usize) as usize,
                );
                total = total.saturating_add(bytes.len());
                formats.push(
                    CapturedFormat {
                        mime: accepted[i].store_as.clone(),
                        bytes: crate::text::clone_bytes(bytes.as_slice()),
                    },
                );
                proof {
                    let one = (types[n].1, bytes@);
                    assert(captured(formats@) =~= before.push(one));
                    assert(before + (seq![one] + rest) =~= before.push(one) + rest);
                }
            },
            None => {
                assert(contents[n] == None::<Seq<u8>>);
            },
        }
        i += 1;
    }
    assert(captured(formats@) + Seq::<(Seq<char>, Seq<u8>)>::empty() =~= captured(formats@));
    formats
}

// ---------------------------------------------------------------------------
// The echo of a restored selection
// ---------------------------------------------------------------------------

/// What is read of each type where the formats of `list` are served.
pub open spec fn served_reads(
    list: Seq<(Seq<char>, Seq<u8>)>,
    types: Seq<(Seq<char>, Seq<char>)>,
) -> Seq<Option<Seq<u8>>> {
    types.map_values(|t: (Seq<char>, Seq<char>)| served(list, t.0))
}

/// What a capture keeps of a selection that offers and serves the formats of
/// `list`.
pub open spec fn echo_of(
    config: CaptureConfig,
    list: Seq<(Seq<char>, Seq<u8>)>,
) -> Seq<(Seq<char>, Seq<u8>)> {
    if is_sensitive_offer(mimes_of(list)) {
        Seq::empty()
    } else {
        let types = captured_types(config, mimes_of(list));
        drained(config, types, served_reads(list, types), 0)
    }
}

/// What a capture keeps of a selection that offers and serves these formats.
pub fn echo(config: &CaptureConfig, formats: &Vec<(String, Vec<u8>)>) -> (r: Vec<CapturedFormat>)
    ensures
        captured(r@) == echo_of(*config, inputs(formats@)),
{
    let mimes = advertised(formats);
    proof {
        lemma_sensitive_offer(mimes@);
    }
    if is_sensitive(mimes.as_slice()) {
        let nothing: Vec<CapturedFormat> = Vec::new();
        assert(captured(nothing@) =~= Seq::empty());
        return nothing;
    }
    let accepted = accepted_mimes(config, mimes.as_slice());
    let ghost types = accepted_pairs(accepted@);
    let mut reads: Vec<Option<Vec<u8>>> = Vec::new();
    let mut i: usize = 0;
    while i < accepted.len()
        invariant
            i <= accepted@.len(),
            types == accepted_pairs(accepted@),
            reads@.len() == i,
            forall|j: int|
                0 <= j < i ==> #[trigger] read_contents(reads@)[j] == served(
                    inputs(formats@),
                    types[j].0,
                ),
        decreases accepted@.len() - i,
    {
        let ghost before = reads@;
        reads.push(lookup(formats, accepted[i].offered.as_str()));
        assert forall|j: int| 0 <= j < i + 1 implies #[trigger] read_contents(reads@)[j] == served(
            inputs(formats@),
            types[j].0,
        ) by {
            if j < i {
                assert(read_contents(reads@)[j] == read_contents(before)[j]);
            }
        }
        i += 1;
    }
    assert(read_contents(reads@) =~= served_reads(inputs(formats@), types));
    drain(config, &accepted, &reads)
}

// ---------------------------------------------------------------------------
// What holds of every capture
// ---------------------------------------------------------------------------

/// Capturing a selection that offers and serves the formats of `list`, and
/// reading all of what is asked for, gives the echo of them as the last item, or
/// no item where nothing is kept.
pub proof fn law_served_selection_is_captured_as_its_echo(
    list: Seq<(Seq<char>, Seq<u8>)>,
    id: u64,
    offered: CaptureView,
    asked: CaptureView,
    accepted: Vec<AcceptedMime>,
    reads: Vec<Option<Vec<u8>>>,
    after: CaptureView,
    last: CaptureAction,
)
    requires
        offered.offers.contains_key(id),
        offered.offers[id] == mimes_of(list),
        steps_to(
            offered,
            (CaptureEvent::Selection { offer: Some(id) }),
            asked,
            (CaptureAction::Receive { id, accepted }),
        ),
        read_contents(reads@) == served_reads(list, accepted_pairs(accepted@)),
        steps_to(asked, (CaptureEvent::Received { id, accepted, reads }), after, last),
    ensures
        if echo_of(offered.config, list).len() == 0 {
            after.items == offered.items
        } else {
            after.items.drop_last() == offered.items && captured(after.items.last().formats@)
                == echo_of(offered.config, list)
        },
{
}

/// The sum of the sizes of formats.
pub open spec fn total_size(formats: Seq<(Seq<char>, Seq<u8>)>) -> int
    decreases formats.len(),
{
    if formats.len() == 0 {
        0
    } else {
        formats[0].1.len() + total_size(formats.drop_first())
    }
}

/// No captured format is larger than the cap for one format, and together they
/// are not larger than the cap for an item. Left out is a cap at the largest
/// size, which sums are held at.
pub proof fn law_drained_sizes(
    config: CaptureConfig,
    types: Seq<(Seq<char>, Seq<char>)>,
    reads: Seq<Option<Seq<u8>>>,
    total: usize,
)
    requires
        total <= config.max_item_bytes < usize::MAX,
    ensures
        forall|i: int|
            0 <= i < drained(config, types, reads, total).len() ==> (#[trigger] drained(
                config,
                types,
                reads,
                total,
            )[i]).1.len() <= config.max_format_bytes,
        total + total_size(drained(config, types, reads, total)) <= config.max_item_bytes,
    decreases types.len(),
{
    if types.len() > 0 && reads.len() > 0 {
        let rest = reads.drop_first();
        match reads[0] {
            None => {
                law_drained_sizes(config, types.drop_first(), rest, total);
            },
            Some(bytes) => {
                if bytes.len() > config.max_format_bytes {
                    law_drained_sizes(config, types.drop_first(), rest, total);
                } else if fits(config, total, bytes.len() as usize) {
                    let sum = saturated_sum(total, bytes.len() as usize) as usize;
                    law_drained_sizes(config, types.drop_first(), rest, sum);
                    let tail = drained(config, types.drop_first(), rest, sum);
                    let all = drained(config, types, reads, total);
                    assert(all == seq![(types[0].1, bytes)] + tail);
                    assert(all.drop_first() =~= tail);
                    assert forall|i: int| 0 <= i < all.len() implies (#[trigger] all[i]).1.len()
                        <= config.max_format_bytes by {
                        if i > 0 {
                            assert(all[i] == tail[i - 1]);
                        }
                    }
                }
            },
        }
    }
}

/// The sum of the sizes of what was read and is not over the cap for one format.
pub open spec fn acceptable_size(config: CaptureConfig, reads: Seq<Option<Seq<u8>>>) -> int
    decreases reads.len(),
{
    if reads.len() == 0 {
        0
    } else {
        let rest = acceptable_size(config, reads.drop_first());
        match reads[0] {
            Some(bytes) => if bytes.len() <= config.max_format_bytes {
                bytes.len() + rest
            } else {
                rest
            },
            None => rest,
        }
    }
}

/// Where everything that is not over the cap for one format fits into the item
/// together, all of it is kept.
pub proof fn law_formats_within_the_caps_are_kept(
    config: CaptureConfig,
    types: Seq<(Seq<char>, Seq<char>)>,
    reads: Seq<Option<Seq<u8>>>,
    total: usize,
    i: int,
)
    requires
        types.len() == reads.len(),
        total + acceptable_size(config, reads) <= config.max_item_bytes,
        0 <= i < reads.len(),
        reads[i] matches Some(bytes) && bytes.len() <= config.max_format_bytes,
    ensures
        drained(config, types, reads, total).contains((types[i].1, reads[i]->0)),
    decreases types.len(),
{
    let rest = reads.drop_first();
    lemma_acceptable_size(config, rest);
    let all = drained(config, types, reads, total);
    let kept = (types[i].1, reads[i]->0);
    match reads[0] {
        Some(bytes) if bytes.len() <= config.max_format_bytes => {
            let sum = saturated_sum(total, bytes.len() as usize) as usize;
            let tail = drained(config, types.drop_first(), rest, sum);
            assert(all == seq![(types[0].1, bytes)] + tail);
            if i == 0 {
                assert(all[0] == kept);
            } else {
                law_formats_within_the_caps_are_kept(config, types.drop_first(), rest, sum, i - 1);
                let k = choose|k: int| 0 <= k < tail.len() && tail[k] == kept;
                assert(all[k + 1] == kept);
            }
        },
        _ => {
            law_formats_within_the_caps_are_kept(config, types.drop_first(), rest, total, i - 1);
        },
    }
}

proof fn lemma_acceptable_size(config: CaptureConfig, reads: Seq<Option<Seq<u8>>>)
    ensures
        acceptable_size(config, reads) >= 0,
    decreases reads.len(),
{
    if reads.len() > 0 {
        lemma_acceptable_size(config, reads.drop_first());
    }
}

/// A secret selection is skipped entirely: nothing is received of it, nothing
/// is captured, and the offer is forgotten.
pub proof fn law_secrets_are_not_captured(
    before: CaptureView,
    id: u64,
    after: CaptureView,
    action: CaptureAction,
)
    requires
        before.offers.contains_key(id),
        is_sensitive_offer(before.offers[id]),
        steps_to(before, (CaptureEvent::Selection { offer: Some(id) }), after, action),
    ensures
        action is Wait,
        after.items == before.items,
        !after.offers.contains_key(id),
{
}

/// An offer with a type that holds the password manager's marker anywhere, in
/// upper or lower case and whatever stands before or behind it, is skipped
/// entirely, and so is one with a type that holds `secret` before its
/// parameters.
pub proof fn law_marked_selections_are_skipped(
    before: CaptureView,
    id: u64,
    i: int,
    front: Seq<char>,
    back: Seq<char>,
    after: CaptureView,
    action: CaptureAction,
)
    requires
        before.offers.contains_key(id),
        0 <= i < before.offers[id].len(),
        ({
            let lower = unicode_lowercase(before.offers[id][i]);
            ||| lower == front + "x-kde-passwordmanagerhint"@ + back
            ||| !front.contains(';') && lower == front + "secret"@ + back
        }),
        steps_to(before, (CaptureEvent::Selection { offer: Some(id) }), after, action),
    ensures
        is_sensitive_offer(before.offers[id]),
        action is Wait,
        after.items == before.items,
        !after.offers.contains_key(id),
{
    law_marked_type_is_sensitive(front, back);
    if !front.contains(';') {
        law_secret_type_is_sensitive(front, back);
    }
}

/// An offer none of whose types holds the marker, or `secret` before its
/// parameters, is asked for every type whose base type is allowed.
pub proof fn law_plain_selections_are_asked_for(
    before: CaptureView,
    id: u64,
    i: int,
    after: CaptureView,
    action: CaptureAction,
) -> (k: int)
    requires
        before.offers.contains_key(id),
        forall|j: int, front: Seq<char>, back: Seq<char>|
            0 <= j < before.offers[id].len() ==> unicode_lowercase(
                #[trigger] before.offers[id][j],
            ) != #[trigger] (front + "x-kde-passwordmanagerhint"@ + back),
        forall|j: int, front: Seq<char>, back: Seq<char>|
            0 <= j < before.offers[id].len() && !front.contains(';') ==> unicode_lowercase(
                #[trigger] before.offers[id][j],
            ) != #[trigger] (front + "secret"@ + back),
        0 <= i < before.offers[id].len(),
        exists|a: int|
            0 <= a < before.config.allowed_mimes@.len() && unicode_lowercase(
                (#[trigger] before.config.allowed_mimes@[a])@,
            ) == unicode_lowercase(base_type(before.offers[id][i])),
        steps_to(before, (CaptureEvent::Selection { offer: Some(id) }), after, action),
    ensures
        !is_sensitive_offer(before.offers[id]),
        action matches CaptureAction::Receive { id: asked, accepted } && asked == id && 0 <= k
            < accepted@.len() && accepted@[k].store_as@ == unicode_lowercase(
            base_type(before.offers[id][i]),
        ),
{
    let mimes = before.offers[id];
    assert forall|j: int| 0 <= j < mimes.len() implies !is_sensitive_type(
        unicode_lowercase(#[trigger] mimes[j]),
    ) by {
        law_other_types_are_not_sensitive(unicode_lowercase(mimes[j]));
    }
    let allowed = lowered(texts(before.config.allowed_mimes@));
    let bases = lowered_bases(mimes);
    crate::filter::law_accepted(allowed, mimes, bases);
    let a = choose|a: int|
        0 <= a < before.config.allowed_mimes@.len() && unicode_lowercase(
            (#[trigger] before.config.allowed_mimes@[a])@,
        ) == unicode_lowercase(base_type(mimes[i]));
    assert(allowed[a] == bases[i]);
    assert(allowed.contains(bases[i]));
    let types = captured_types(before.config, mimes);
    let k = choose|k: int| 0 <= k < types.len() && (#[trigger] types[k]).1 == bases[i];
    match action {
        CaptureAction::Receive { id: asked, accepted } => {
            assert(accepted_pairs(accepted@)[k].1 == bases[i]);
        },
        _ => {},
    }
    k
}

/// Each type that is asked for is the exact text of an offered one, the first
/// of its base type, and is stored under that base type in lower case, which is
/// an allowed one in lower case.
pub proof fn law_types_are_asked_for_as_offered(
    before: CaptureView,
    id: u64,
    after: CaptureView,
    accepted: Vec<AcceptedMime>,
) -> (places: Seq<int>)
    requires
        before.offers.contains_key(id),
        steps_to(
            before,
            (CaptureEvent::Selection { offer: Some(id) }),
            after,
            (CaptureAction::Receive { id, accepted }),
        ),
    ensures
        places.len() == accepted@.len(),
        forall|k: int|
            0 <= k < places.len() ==> {
                &&& 0 <= #[trigger] places[k] < before.offers[id].len()
                &&& accepted@[k].offered@ == before.offers[id][places[k]]
                &&& accepted@[k].store_as@ == unicode_lowercase(
                    base_type(before.offers[id][places[k]]),
                )
                &&& forall|j: int|
                    0 <= j < places[k] ==> unicode_lowercase(
                        base_type(#[trigger] before.offers[id][j]),
                    ) != accepted@[k].store_as@
                &&& exists|a: int|
                    0 <= a < before.config.allowed_mimes@.len() && unicode_lowercase(
                        (#[trigger] before.config.allowed_mimes@[a])@,
                    ) == accepted@[k].store_as@
            },
        forall|k: int, l: int| 0 <= k < l < places.len() ==> places[k] < places[l],
{
    let mimes = before.offers[id];
    let allowed = lowered(texts(before.config.allowed_mimes@));
    let bases = lowered_bases(mimes);
    let places = law_first_offer_of_a_type_wins(allowed, mimes, bases);
    crate::filter::law_accepted(allowed, mimes, bases);
    let pairs = accepted_pairs(accepted@);
    assert(pairs == captured_types(before.config, mimes));
    assert forall|k: int| 0 <= k < places.len() implies {
        &&& 0 <= #[trigger] places[k] < mimes.len()
        &&& accepted@[k].offered@ == mimes[places[k]]
        &&& accepted@[k].store_as@ == unicode_lowercase(base_type(mimes[places[k]]))
        &&& forall|j: int|
            0 <= j < places[k] ==> unicode_lowercase(base_type(#[trigger] mimes[j]))
                != accepted@[k].store_as@
        &&& exists|a: int|
            0 <= a < before.config.allowed_mimes@.len() && unicode_lowercase(
                (#[trigger] before.config.allowed_mimes@[a])@,
            ) == accepted@[k].store_as@
    } by {
        assert(captured_types(before.config, mimes)[k] == pairs[k]);
        assert(allowed.contains(pairs[k].1));
        let a = choose|a: int| 0 <= a < allowed.len() && allowed[a] == pairs[k].1;
        assert(unicode_lowercase(before.config.allowed_mimes@[a]@) == allowed[a]);
        assert(pairs[k] == (accepted@[k].offered@, accepted@[k].store_as@));
        assert(bases[places[k]] == unicode_lowercase(base_type(mimes[places[k]])));
        assert forall|j: int| 0 <= j < places[k] implies unicode_lowercase(
            base_type(#[trigger] mimes[j]),
        ) != accepted@[k].store_as@ by {
            assert(bases[j] != bases[places[k]]);
        }
    }
    places
}

/// The types of an offer are those announced for it since it appeared, in their
/// order; other offers and the items captured are not touched.
pub proof fn law_types_are_collected_in_order(
    start: CaptureView,
    id: u64,
    first: String,
    second: String,
    opened: CaptureView,
    one: CaptureView,
    both: CaptureView,
    actions: (CaptureAction, CaptureAction, CaptureAction),
)
    requires
        steps_to(start, (CaptureEvent::DataOffer { id }), opened, actions.0),
        steps_to(opened, (CaptureEvent::Offer { id, mime_type: first }), one, actions.1),
        steps_to(one, (CaptureEvent::Offer { id, mime_type: second }), both, actions.2),
    ensures
        both.offers.contains_key(id),
        both.offers[id] == seq![first@, second@],
        forall|other: u64|
            other != id ==> (#[trigger] both.offers.contains_key(other)
                == start.offers.contains_key(other)) && both.offers[other] == start.offers[other],
        both.items == start.items,
        both.config == start.config,
{
    assert(both.offers[id] =~= seq![first@, second@]);
}

/// Only what was received becomes an item, and one at most: it holds what is
/// kept of it, behind the items that were there. A selection that is cleared, or
/// that was never offered, changes nothing.
pub proof fn law_only_received_formats_become_items(
    before: CaptureView,
    event: CaptureEvent,
    after: CaptureView,
    action: CaptureAction,
)
    requires
        steps_to(before, event, after, action),
    ensures
        !(event is Received) ==> after.items == before.items,
        action is Receive ==> event is Selection,
        event matches CaptureEvent::Selection { offer } && (offer is None
            || !before.offers.contains_key(offer->0)) ==> after == before && action is Wait,
        event matches CaptureEvent::Received { id, accepted, reads } ==> {
            let kept = drained(before.config, accepted_pairs(accepted@), read_contents(reads@), 0);
            &&& !after.offers.contains_key(id)
            &&& kept.len() == 0 ==> after.items == before.items
            &&& kept.len() > 0 ==> after.items.len() == before.items.len() + 1 && captured(
                after.items[before.items.len() as int].formats@,
            ) == kept && forall|i: int|
                0 <= i < before.items.len() ==> #[trigger] after.items[i] == before.items[i]
        },
{
    if event is Received && after.items.len() > before.items.len() {
        assert forall|i: int| 0 <= i < before.items.len() implies #[trigger] after.items[i]
            == before.items[i] by {
            assert(after.items.drop_last()[i] == after.items[i]);
        }
    }
}

/// Each captured format is what was read of a type that was asked for, byte for
/// byte, stored under the name of that type; the order is kept. The result
/// gives the place of each among the types.
pub proof fn law_captured_bytes_are_what_was_read(
    config: CaptureConfig,
    types: Seq<(Seq<char>, Seq<char>)>,
    reads: Seq<Option<Seq<u8>>>,
    total: usize,
) -> (places: Seq<int>)
    ensures
        places.len() == drained(config, types, reads, total).len(),
        forall|k: int|
            0 <= k < places.len() ==> {
                &&& 0 <= #[trigger] places[k] < types.len()
                &&& places[k] < reads.len()
                &&& drained(config, types, reads, total)[k].0 == types[places[k]].1
                &&& reads[places[k]] == Some(drained(config, types, reads, total)[k].1)
            },
        forall|k: int, l: int| 0 <= k < l < places.len() ==> places[k] < places[l],
    decreases types.len(),
{
    let all = drained(config, types, reads, total);
    if types.len() == 0 || reads.len() == 0 {
        Seq::empty()
    } else {
        let rest_types = types.drop_first();
        let rest = reads.drop_first();
        let passed_over = match reads[0] {
            None => true,
            Some(bytes) => bytes.len() > config.max_format_bytes,
        };
        if passed_over {
            let places = law_captured_bytes_are_what_was_read(config, rest_types, rest, total);
            let out = places.map_values(|p: int| p + 1);
            assert forall|k: int| 0 <= k < out.len() implies {
                &&& 0 <= #[trigger] out[k] < types.len()
                &&& out[k] < reads.len()
                &&& all[k].0 == types[out[k]].1
                &&& reads[out[k]] == Some(all[k].1)
            } by {
                assert(out[k] == places[k] + 1);
                assert(rest[places[k]] == reads[out[k]]);
            }
            out
        } else if fits(config, total, reads[0]->0.len() as usize) {
            let sum = saturated_sum(total, reads[0]->0.len() as usize) as usize;
            let places = law_captured_bytes_are_what_was_read(config, rest_types, rest, sum);
            let tail = drained(config, rest_types, rest, sum);
            assert(all == seq![(types[0].1, reads[0]->0)] + tail);
            let out = seq![0int] + places.map_values(|p: int| p + 1);
            assert forall|k: int| 0 <= k < out.len() implies {
                &&& 0 <= #[trigger] out[k] < types.len()
                &&& out[k] < reads.len()
                &&& all[k].0 == types[out[k]].1
                &&& reads[out[k]] == Some(all[k].1)
            } by {
                if k > 0 {
                    assert(out[k] == places[k - 1] + 1);
                    assert(all[k] == tail[k - 1]);
                    assert(rest[places[k - 1]] == reads[out[k]]);
                }
            }
            out
        } else {
            Seq::empty()
        }
    }
}

/// The first format that would take the item over its cap ends it: neither it
/// nor anything behind it is kept, however small.
pub proof fn law_item_cap_ends_the_item(
    config: CaptureConfig,
    types: Seq<(Seq<char>, Seq<char>)>,
    reads: Seq<Option<Seq<u8>>>,
    total: usize,
    next: (Seq<char>, Seq<char>),
    bytes: Seq<u8>,
    more_types: Seq<(Seq<char>, Seq<char>)>,
    more_reads: Seq<Option<Seq<u8>>>,
)
    requires
        types.len() == reads.len(),
        config.max_item_bytes < usize::MAX,
        total + acceptable_size(config, reads) <= config.max_item_bytes,
        bytes.len() <= config.max_format_bytes,
        total + acceptable_size(config, reads) + bytes.len() > config.max_item_bytes,
    ensures
        drained(
            config,
            types + seq![next] + more_types,
            reads + seq![Some(bytes)] + more_reads,
            total,
        ) == drained(config, types, reads, total),
    decreases types.len(),
{
    let all_types = types + seq![next] + more_types;
    let all_reads = reads + seq![Some(bytes)] + more_reads;
    if types.len() == 0 {
        assert(all_types[0] == next && all_reads[0] == Some(bytes));
    } else {
        let rest = reads.drop_first();
        lemma_acceptable_size(config, rest);
        assert(all_types.drop_first() =~= types.drop_first() + seq![next] + more_types);
        assert(all_reads.drop_first() =~= rest + seq![Some(bytes)] + more_reads);
        assert(all_types[0] == types[0] && all_reads[0] == reads[0]);
        let sum = match reads[0] {
            Some(b) if b.len() <= config.max_format_bytes => (total + b.len()) as usize,
            _ => total,
        };
        law_item_cap_ends_the_item(
            config,
            types.drop_first(),
            rest,
            sum,
            next,
            bytes,
            more_types,
            more_reads,
        );
    }
}

/// Every captured format has an allowed type, and no type twice.
pub proof fn law_captured_types(
    config: CaptureConfig,
    mimes: Seq<Seq<char>>,
    reads: Seq<Option<Seq<u8>>>,
)
    ensures
        ({
            let formats = drained(config, captured_types(config, mimes), reads, 0);
            &&& forall|i: int|
                0 <= i < formats.len() ==> lowered(texts(config.allowed_mimes@)).contains(
                    (#[trigger] formats[i]).0,
                )
            &&& crate::store::laws::distinct_mimes(formats)
        }),
{
    let types = captured_types(config, mimes);
    crate::filter::law_accepted(
        lowered(texts(config.allowed_mimes@)),
        mimes,
        lowered_bases(mimes),
    );
    lemma_drained_types(config, types, reads, 0);
    let formats = drained(config, types, reads, 0);
    assert forall|i: int| 0 <= i < formats.len() implies lowered(
        texts(config.allowed_mimes@),
    ).contains((#[trigger] formats[i]).0) by {
        let k = choose|k: int| 0 <= k < types.len() && (#[trigger] types[k]).1 == formats[i].0;
        assert(types[k].1 == formats[i].0);
    }
}

proof fn lemma_drained_types(
    config: CaptureConfig,
    types: Seq<(Seq<char>, Seq<char>)>,
    reads: Seq<Option<Seq<u8>>>,
    total: usize,
)
    requires
        forall|k: int, l: int|
            0 <= k < l < types.len() ==> (#[trigger] types[k]).1 != (#[trigger] types[l]).1,
    ensures
        forall|i: int|
            0 <= i < drained(config, types, reads, total).len() ==> exists|k: int|
                0 <= k < types.len() && (#[trigger] types[k]).1 == (#[trigger] drained(
                    config,
                    types,
                    reads,
                    total,
                )[i]).0,
        crate::store::laws::distinct_mimes(drained(config, types, reads, total)),
    decreases types.len(),
{
    if types.len() > 0 && reads.len() > 0 {
        let rest = types.drop_first();
        assert forall|k: int, l: int| 0 <= k < l < rest.len() implies (#[trigger] rest[k]).1 != (
        #[trigger] rest[l]).1 by {
            assert(types[k + 1].1 != types[l + 1].1);
        }
        let all = drained(config, types, reads, total);
        let passed_over = match reads[0] {
            None => true,
            Some(bytes) => bytes.len() > config.max_format_bytes,
        };
        let sum = if passed_over {
            total
        } else {
            saturated_sum(total, reads[0]->0.len() as usize) as usize
        };
        let tail = drained(config, rest, reads.drop_first(), sum);
        lemma_drained_types(config, rest, reads.drop_first(), sum);
        let taken = !passed_over && fits(config, total, reads[0]->0.len() as usize);
        assert(all == if passed_over {
            tail
        } else if taken {
            seq![(types[0].1, reads[0]->0)] + tail
        } else {
            Seq::empty()
        });
        assert forall|i: int| 0 <= i < all.len() implies exists|k: int|
            0 <= k < types.len() && (#[trigger] types[k]).1 == (#[trigger] all[i]).0 by {
            if taken && i == 0 {
                assert(types[0].1 == all[i].0);
            } else {
                let j = if taken { i - 1 } else { i };
                assert(all[i] == tail[j]);
                let k = choose|k: int|
                    0 <= k < rest.len() && (#[trigger] rest[k]).1 == tail[j].0;
                assert(types[k + 1].1 == all[i].0);
            }
        }
        assert forall|i: int, j: int| 0 <= i < j < all.len() implies (#[trigger] all[i]).0 != (
        #[trigger] all[j]).0 by {
            if taken {
                assert(all[j] == tail[j - 1]);
                if i == 0 {
                    let k = choose|k: int|
                        0 <= k < rest.len() && (#[trigger] rest[k]).1 == tail[j - 1].0;
                    assert(types[0].1 != types[k + 1].1);
                } else {
                    assert(all[i] == tail[i - 1]);
                    assert(tail[i - 1].0 != tail[j - 1].0);
                }
            } else {
                assert(all[i] == tail[i] && all[j] == tail[j]);
            }
        }
    }
}

} // verus!
