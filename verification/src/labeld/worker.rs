//! The labeller's loop, as a machine: what happened goes in, and what is to be
//! done next comes out.

use crate::error::Error;
use crate::ids::{hyphenated_text, ItemId};
use crate::ipc::{Response, UpdateItemParams, WatchEvent, WatchEventsParams};
use crate::labeld::config::Failure;
use crate::store::inputs;
use crate::text::{
    contains_text, decimal, decimal_text, join2, join3, quoted, quoted_text, texts, trim, trimmed,
};
use crate::thumbnail::{first_image_mime, image_mime_priority, image_mimes};
use vstd::prelude::*;
use vstd::utf8::encode_utf8;

verus! {

/// The first wait before connecting again, in seconds.
pub const INITIAL_RECONNECT_BACKOFF: u64 = 1;

/// The longest wait before connecting again, in seconds.
pub const MAX_RECONNECT_BACKOFF: u64 = 30;

/// The MIME type that labels are stored under.
pub open spec fn label_mime() -> Seq<char> {
    "application/x-richclip-label"@
}

/// The wait after a wait of `current` seconds: twice as long, up to the
/// longest.
pub open spec fn backoff_after(current: u64) -> int {
    if 2 * current > MAX_RECONNECT_BACKOFF {
        MAX_RECONNECT_BACKOFF as int
    } else {
        2 * current
    }
}

/// The wait after a wait of `current` seconds.
pub fn next_backoff(current: u64) -> (r: u64)
    ensures
        r == backoff_after(current),
{
    if current > MAX_RECONNECT_BACKOFF / 2 {
        MAX_RECONNECT_BACKOFF
    } else {
        2 * current
    }
}

/// The best image format among MIME types.
pub open spec fn chosen_mime(formats: Seq<Seq<char>>) -> Option<Seq<char>> {
    first_image_mime(|m: Seq<char>| formats.contains(m))
}

/// The best image format among MIME types, if there is one.
pub fn choose_image_mime(formats: &Vec<String>) -> (r: Option<&'static str>)
    ensures
        match r {
            Some(mime) => chosen_mime(texts(formats@)) == Some(mime@),
            None => chosen_mime(texts(formats@)) is None,
        },
{
    let mimes = image_mime_priority();
    let ghost all = texts(formats@);
    let ghost present = |m: Seq<char>| all.contains(m);
    assert(forall|i: int| 0 <= i < 4 ==> (#[trigger] mimes@[i])@ == image_mimes()[i]) by {
        assert forall|i: int| 0 <= i < 4 implies (#[trigger] mimes@[i])@ == image_mimes()[i] by {
            assert(mimes@.map_values(|s: &'static str| s@)[i] == image_mimes()[i]);
        }
    }
    let mut i: usize = 0;
    while i < mimes.len()
        invariant
            i <= 4,
            mimes@.len() == 4,
            all == texts(formats@),
            present == (|m: Seq<char>| all.contains(m)),
            forall|j: int| 0 <= j < 4 ==> (#[trigger] mimes@[j])@ == image_mimes()[j],
            forall|j: int| 0 <= j < i ==> !present(#[trigger] image_mimes()[j]),
        decreases 4 - i,
    {
        assert(mimes@[i as int]@ == image_mimes()[i as int]);
        if contains_text(formats.as_slice(), mimes[i]) {
            proof {
                assert(i > 0 ==> !present(image_mimes()[0]));
                assert(i > 1 ==> !present(image_mimes()[1]));
                assert(i > 2 ==> !present(image_mimes()[2]));
            }
            return Some(mimes[i]);
        }
        i += 1;
    }
    proof {
        assert(!present(image_mimes()[0]));
        assert(!present(image_mimes()[1]));
        assert(!present(image_mimes()[2]));
        assert(!present(image_mimes()[3]));
    }
    None
}

/// What a refused update says.
pub open spec fn refusal(resp: Response) -> Seq<char> {
    "daemon rejected update ("@ + match resp.code {
        Some(c) => c@,
        None => "error"@,
    } + "): "@ + match resp.error {
        Some(e) => e@,
        None => "unknown daemon error"@,
    }
}

/// Take an answer that is not a success for a failure.
pub fn ensure_response_ok(response: &Response) -> (r: std::result::Result<(), Failure>)
    ensures
        if response.ok {
            r is Ok
        } else {
            r matches Err(f) && f.says(refusal(*response))
        },
{
    if response.ok {
        return Ok(());
    }
    let code = match &response.code {
        Some(c) => c.clone(),
        None => "error".to_owned(),
    };
    let error = match &response.error {
        Some(e) => e.clone(),
        None => "unknown daemon error".to_owned(),
    };
    let head = join3("daemon rejected update (", code.as_str(), "): ");
    Err(Failure::new(join2(head.as_str(), error.as_str())))
}

// ---------------------------------------------------------------------------
// The machine
// ---------------------------------------------------------------------------

/// What the worker is waiting for.
#[derive(Debug)]
pub enum Phase {
    /// A connection to the daemon.
    Connecting,
    /// The start of the stream of events.
    Starting,
    /// The next event.
    Watching,
    /// The bytes of an image.
    Decoding { id: ItemId, mime: String },
    /// The label of an image.
    Labelling { id: ItemId, mime: String },
    /// The answer to an update.
    Updating { id: ItemId, mime: String },
}

/// What happened.
#[derive(Debug)]
pub enum WorkerEvent {
    /// A connection to the daemon stands.
    Connected,
    /// There is no daemon to connect to.
    ConnectFailed,
    /// The stream of events has started.
    WatchStarted,
    /// The stream of events could not be started.
    WatchFailed { error: String },
    /// An event arrived.
    Event { event: WatchEvent },
    /// The stream of events has ended.
    StreamEnded,
    /// The image was read from the store.
    Decoded { bytes: Vec<u8> },
    /// The image could not be read from the store.
    DecodeFailed { error: Error },
    /// The model gave a label.
    Labelled { text: String },
    /// The model gave none.
    LabelFailed { failure: Failure },
    /// The daemon answered the update.
    Answered { response: Response },
    /// There was no daemon to take the update.
    UpdateUnavailable,
    /// The exchange with the daemon failed.
    UpdateFailed { error: String },
}

/// What is to be done next.
#[derive(Debug)]
pub enum WorkerAction {
    /// Wait this many seconds, then connect.
    Retry { seconds: u64 },
    /// Start the stream of events that these parameters describe.
    Watch { params: WatchEventsParams },
    /// Wait for the next event.
    NextEvent,
    /// Read the bytes of an image from the store.
    Decode { id: ItemId, mime: String },
    /// Ask the model for the label of an image.
    Label { mime: String, bytes: Vec<u8> },
    /// Send an update to the daemon.
    Update { params: UpdateItemParams },
}

/// What is to be done next, and what is logged first.
#[derive(Debug)]
pub struct Step {
    pub log: Option<String>,
    pub action: WorkerAction,
}

/// The worker.
#[derive(Debug)]
pub struct Worker {
    pub overwrite: bool,
    /// The path of the daemon's socket, for the log.
    pub socket: String,
    /// The wait before the next attempt to connect, in seconds.
    pub backoff: u64,
    pub phase: Phase,
}

/// What happened can have happened in this phase.
pub open spec fn is_expected(phase: Phase, event: WorkerEvent) -> bool {
    match phase {
        Phase::Connecting => event is Connected || event is ConnectFailed,
        Phase::Starting => event is WatchStarted || event is WatchFailed,
        Phase::Watching => event is Event || event is StreamEnded,
        Phase::Decoding { .. } => event is Decoded || event is DecodeFailed,
        Phase::Labelling { .. } => event is Labelled || event is LabelFailed,
        Phase::Updating { .. } => event is Answered || event is UpdateUnavailable
            || event is UpdateFailed,
    }
}

/// The line is exactly this, behind the worker's name.
pub open spec fn logs(step: Step, text: Seq<char>) -> bool {
    step.log matches Some(line) && line@ == "richclip-labeld: "@ + text
}

/// What is logged of an item that failed.
pub open spec fn item_failed(id: ItemId, why: Seq<char>) -> Seq<char> {
    "item "@ + hyphenated_text(id.bits) + " failed: "@ + why
}

/// The worker goes back to connecting, after the wait that was due, and the
/// next wait is longer.
pub open spec fn retries(before: Worker, after: Worker, step: Step, why: Seq<char>) -> bool {
    &&& after.phase is Connecting
    &&& after.backoff == backoff_after(before.backoff)
    &&& step.action == (WorkerAction::Retry { seconds: before.backoff })
    &&& logs(step, why + "; retrying in "@ + decimal(before.backoff as nat) + "s"@)
}

/// The worker leaves an item and waits for the next event.
pub open spec fn moves_on(before: Worker, after: Worker, step: Step, why: Seq<char>) -> bool {
    &&& after.phase is Watching
    &&& after.backoff == before.backoff
    &&& step.action is NextEvent
    &&& logs(step, why)
}

/// The parameters ask for new items with an image format.
pub open spec fn watches_images(params: WatchEventsParams) -> bool {
    &&& params.event_filter matches Some(tag) && tag@ == "item-added"@
    &&& texts(params.mime_filters@) == image_mimes()
}

/// How the worker takes in a new item.
pub open spec fn takes_item(
    before: Worker,
    after: Worker,
    step: Step,
    id: ItemId,
    formats: Seq<Seq<char>>,
) -> bool {
    match chosen_mime(formats) {
        None => moves_on(
            before,
            after,
            step,
            "item "@ + hyphenated_text(id.bits) + " skipped; no supported image MIME"@,
        ),
        Some(mime) => if !before.overwrite && formats.contains(label_mime()) {
            moves_on(
                before,
                after,
                step,
                "item "@ + hyphenated_text(id.bits) + " skipped; label already present"@,
            )
        } else {
            &&& after.backoff == before.backoff
            &&& step.log is None
            &&& after.phase matches Phase::Decoding { id: i, mime: m } && i == id && m@ == mime
            &&& step.action matches WorkerAction::Decode { id: i, mime: m } && i == id && m@
                == mime
        },
    }
}

/// The update sets the label of the item, and nothing else.
pub open spec fn sets_label(params: UpdateItemParams, id: ItemId, label: Seq<char>) -> bool {
    &&& params.id == id
    &&& params.remove_mimes@.len() == 0
    &&& inputs(params.set_formats@) == seq![(label_mime(), encode_utf8(label))]
}

/// What the worker does about what happened.
pub open spec fn steps_to(before: Worker, event: WorkerEvent, after: Worker, step: Step) -> bool {
    &&& after.overwrite == before.overwrite
    &&& after.socket == before.socket
    &&& match (before.phase, event) {
        (Phase::Connecting, WorkerEvent::Connected) => {
            &&& after.phase is Starting
            &&& after.backoff == before.backoff
            &&& step.log is None
            &&& step.action matches WorkerAction::Watch { params } && watches_images(params)
        },
        (Phase::Connecting, WorkerEvent::ConnectFailed) => retries(
            before,
            after,
            step,
            "daemon unavailable at "@ + quoted_text(before.socket@),
        ),
        (Phase::Starting, WorkerEvent::WatchStarted) => {
            &&& after.phase is Watching
            &&& after.backoff == INITIAL_RECONNECT_BACKOFF
            &&& step.log is None
            &&& step.action is NextEvent
        },
        (Phase::Starting, WorkerEvent::WatchFailed { error }) => retries(
            before,
            after,
            step,
            "failed to start watch stream: "@ + error@,
        ),
        (Phase::Watching, WorkerEvent::StreamEnded) => retries(
            before,
            after,
            step,
            "watch stream disconnected"@,
        ),
        (Phase::Watching, WorkerEvent::Event { event: ev }) => match ev {
            WatchEvent::ItemAdded { id, formats, .. } => takes_item(
                before,
                after,
                step,
                id,
                texts(formats@),
            ),
            _ => {
                &&& after.phase is Watching
                &&& after.backoff == before.backoff
                &&& step.log is None
                &&& step.action is NextEvent
            },
        },
        (Phase::Decoding { id, mime }, WorkerEvent::Decoded { bytes }) => {
            &&& after.backoff == before.backoff
            &&& step.log is None
            &&& after.phase matches Phase::Labelling { id: i, mime: m } && i == id && m@ == mime@
            &&& step.action matches WorkerAction::Label { mime: m, bytes: b } && m@ == mime@ && b@
                == bytes@
        },
        (Phase::Decoding { id, mime }, WorkerEvent::DecodeFailed { error }) => moves_on(
            before,
            after,
            step,
            item_failed(
                id,
                "failed to decode "@ + mime@ + " for item "@ + hyphenated_text(id.bits) + ": "@
                    + error.shown(),
            ),
        ),
        (Phase::Labelling { id, mime }, WorkerEvent::Labelled { text }) => if trimmed(
            text@,
        ).len() == 0 {
            moves_on(before, after, step, item_failed(id, "model returned empty label text"@))
        } else {
            &&& after.backoff == before.backoff
            &&& step.log is None
            &&& after.phase matches Phase::Updating { id: i, mime: m } && i == id && m@ == mime@
            &&& step.action matches WorkerAction::Update { params } && sets_label(
                params,
                id,
                trimmed(text@),
            )
        },
        (Phase::Labelling { id, mime }, WorkerEvent::LabelFailed { failure }) => moves_on(
            before,
            after,
            step,
            item_failed(id, failure.shown()),
        ),
        (Phase::Updating { id, mime }, WorkerEvent::Answered { response }) => if response.ok {
            moves_on(
                before,
                after,
                step,
                "labelled item "@ + hyphenated_text(id.bits) + " from "@ + mime@,
            )
        } else {
            moves_on(
                before,
                after,
                step,
                item_failed(
                    id,
                    "failed to write "@ + label_mime() + " for item "@ + hyphenated_text(id.bits)
                        + ": "@ + refusal(response),
                ),
            )
        },
        (Phase::Updating { id, mime }, WorkerEvent::UpdateUnavailable) => moves_on(
            before,
            after,
            step,
            item_failed(id, "daemon unavailable at "@ + quoted_text(before.socket@)),
        ),
        (Phase::Updating { id, mime }, WorkerEvent::UpdateFailed { error }) => moves_on(
            before,
            after,
            step,
            item_failed(id, "IPC update failed: "@ + error@),
        ),
        _ => false,
    }
}

/// The line behind the worker's name.
fn log_line(text: &str) -> (r: Option<String>)
    ensures
        r matches Some(line) && line@ == "richclip-labeld: "@ + text@,
{
    Some(join2("richclip-labeld: ", text))
}

impl Worker {
    /// A worker that has not connected yet.
    pub fn new(overwrite: bool, socket: String) -> (r: Worker)
        ensures
            r.overwrite == overwrite,
            r.socket == socket,
            r.backoff == INITIAL_RECONNECT_BACKOFF,
            r.phase is Connecting,
    {
        Worker { overwrite, socket, backoff: INITIAL_RECONNECT_BACKOFF, phase: Phase::Connecting }
    }

    fn retry(&mut self, why: &str) -> (r: Step)
        ensures
            final(self).overwrite == old(self).overwrite,
            final(self).socket == old(self).socket,
            retries(*old(self), *final(self), r, why@),
    {
        let seconds = self.backoff;
        let count = decimal_text(seconds);
        let head = join3(why, "; retrying in ", count.as_str());
        let text = join2(head.as_str(), "s");
        self.backoff = next_backoff(seconds);
        self.phase = Phase::Connecting;
        Step { log: log_line(text.as_str()), action: WorkerAction::Retry { seconds } }
    }

    fn move_on(&mut self, why: &str) -> (r: Step)
        ensures
            final(self).overwrite == old(self).overwrite,
            final(self).socket == old(self).socket,
            moves_on(*old(self), *final(self), r, why@),
    {
        self.phase = Phase::Watching;
        Step { log: log_line(why), action: WorkerAction::NextEvent }
    }

    fn fail_item(&mut self, id: ItemId, why: &str) -> (r: Step)
        ensures
            final(self).overwrite == old(self).overwrite,
            final(self).socket == old(self).socket,
            moves_on(*old(self), *final(self), r, item_failed(id, why@)),
    {
        let text = id.to_text();
        let head = join3("item ", text.as_str(), " failed: ");
        let line = join2(head.as_str(), why);
        self.move_on(line.as_str())
    }

    fn skip_item(&mut self, id: ItemId, why: &str) -> (r: Step)
        ensures
            final(self).overwrite == old(self).overwrite,
            final(self).socket == old(self).socket,
            moves_on(
                *old(self),
                *final(self),
                r,
                "item "@ + hyphenated_text(id.bits) + why@,
            ),
    {
        let text = id.to_text();
        let line = join3("item ", text.as_str(), why);
        self.move_on(line.as_str())
    }

    fn take_item(&mut self, id: ItemId, formats: &Vec<String>) -> (r: Step)
        ensures
            final(self).overwrite == old(self).overwrite,
            final(self).socket == old(self).socket,
            takes_item(*old(self), *final(self), r, id, texts(formats@)),
    {
        let mime = match choose_image_mime(formats) {
            Some(mime) => mime,
            None => {
                return self.skip_item(id, " skipped; no supported image MIME");
            },
        };
        if !self.overwrite && contains_text(formats.as_slice(), "application/x-richclip-label") {
            return self.skip_item(id, " skipped; label already present");
        }
        self.phase = Phase::Decoding { id, mime: mime.to_owned() };
        Step { log: None, action: WorkerAction::Decode { id, mime: mime.to_owned() } }
    }

    /// Take in what happened, and say what is to be done next.
    pub fn step(&mut self, event: WorkerEvent) -> (r: Step)
        requires
            is_expected(old(self).phase, event),
        ensures
            steps_to(*old(self), event, *final(self), r),
    {
        let mut phase = Phase::Connecting;
        std::mem::swap(&mut phase, &mut self.phase);
        match (phase, event) {
            (Phase::Connecting, WorkerEvent::Connected) => {
                self.phase = Phase::Starting;
                Step { log: None, action: WorkerAction::Watch { params: image_watch() } }
            },
            (Phase::Connecting, WorkerEvent::ConnectFailed) => {
                let q = quoted(self.socket.as_str());
                let why = join2("daemon unavailable at ", q.as_str());
                self.retry(why.as_str())
            },
            (Phase::Starting, WorkerEvent::WatchStarted) => {
                self.phase = Phase::Watching;
                self.backoff = INITIAL_RECONNECT_BACKOFF;
                Step { log: None, action: WorkerAction::NextEvent }
            },
            (Phase::Starting, WorkerEvent::WatchFailed { error }) => {
                let why = join2("failed to start watch stream: ", error.as_str());
                self.retry(why.as_str())
            },
            (Phase::Watching, WorkerEvent::StreamEnded) => {
                self.retry("watch stream disconnected")
            },
            (Phase::Watching, WorkerEvent::Event { event: ev }) => match ev {
                WatchEvent::ItemAdded { id, formats, .. } => self.take_item(id, &formats),
                _ => {
                    self.phase = Phase::Watching;
                    Step { log: None, action: WorkerAction::NextEvent }
                },
            },
            (Phase::Decoding { id, mime }, WorkerEvent::Decoded { bytes }) => {
                let asked = mime.clone();
                self.phase = Phase::Labelling { id, mime };
                Step { log: None, action: WorkerAction::Label { mime: asked, bytes } }
            },
            (Phase::Decoding { id, mime }, WorkerEvent::DecodeFailed { error }) => {
                let text = id.to_text();
                let message = error.message();
                let head = join3("failed to decode ", mime.as_str(), " for item ");
                let body = join3(head.as_str(), text.as_str(), ": ");
                let why = join2(body.as_str(), message.as_str());
                self.fail_item(id, why.as_str())
            },
            (Phase::Labelling { id, mime }, WorkerEvent::Labelled { text }) => {
                let label = trim(text.as_str());
                if label.is_empty() {
                    return self.fail_item(id, "model returned empty label text");
                }
                self.phase = Phase::Updating { id, mime };
                Step {
                    log: None,
                    action: WorkerAction::Update { params: label_update(id, label) },
                }
            },
            (Phase::Labelling { id, mime }, WorkerEvent::LabelFailed { failure }) => {
                let why = failure.line();
                self.fail_item(id, why.as_str())
            },
            (Phase::Updating { id, mime }, WorkerEvent::Answered { response }) => {
                let text = id.to_text();
                match ensure_response_ok(&response) {
                    Ok(_) => {
                        let head = join3("labelled item ", text.as_str(), " from ");
                        let line = join2(head.as_str(), mime.as_str());
                        self.move_on(line.as_str())
                    },
                    Err(f) => {
                        let message = f.line();
                        let head = join2(
                            "failed to write ",
                            "application/x-richclip-label",
                        );
                        let body = join3(head.as_str(), " for item ", text.as_str());
                        let why = join3(body.as_str(), ": ", message.as_str());
                        self.fail_item(id, why.as_str())
                    },
                }
            },
            (Phase::Updating { id, mime }, WorkerEvent::UpdateUnavailable) => {
                let q = quoted(self.socket.as_str());
                let why = join2("daemon unavailable at ", q.as_str());
                self.fail_item(id, why.as_str())
            },
            (Phase::Updating { id, mime }, WorkerEvent::UpdateFailed { error }) => {
                let why = join2("IPC update failed: ", error.as_str());
                self.fail_item(id, why.as_str())
            },
            _ => {
                // No other event is expected in any phase.
                Step { log: None, action: WorkerAction::NextEvent }
            },
        }
    }
}

/// The parameters that ask for new items with an image format.
pub fn image_watch() -> (r: WatchEventsParams)
    ensures
        watches_images(r),
{
    let params = crate::cli::watch_params(Some("item-added".to_owned()), Vec::new(), true);
    assert(Seq::<Seq<char>>::empty() + image_mimes() =~= image_mimes());
    assert(texts(params.mime_filters@) =~= image_mimes());
    params
}

/// The update that sets the label of an item.
pub fn label_update(id: ItemId, label: &str) -> (r: UpdateItemParams)
    ensures
        sets_label(r, id, label@),
{
    let bytes = crate::text::clone_bytes(label.as_bytes());
    let mut set_formats: Vec<(String, Vec<u8>)> = Vec::new();
    set_formats.push(("application/x-richclip-label".to_owned(), bytes));
    assert(inputs(set_formats@) =~= seq![(label_mime(), encode_utf8(label@))]);
    UpdateItemParams { id, set_formats, remove_mimes: Vec::new() }
}

// ---------------------------------------------------------------------------
// What holds of the worker
// ---------------------------------------------------------------------------

/// The wait is never longer than the longest one, nor shorter than the first.
pub proof fn law_backoff_is_bounded(before: Worker, event: WorkerEvent, after: Worker, step: Step)
    requires
        steps_to(before, event, after, step),
        INITIAL_RECONNECT_BACKOFF <= before.backoff <= MAX_RECONNECT_BACKOFF,
    ensures
        INITIAL_RECONNECT_BACKOFF <= after.backoff <= MAX_RECONNECT_BACKOFF,
{
}

/// What goes wrong with one item never ends the watch: the worker waits for the
/// next event, as long a wait due as before.
pub proof fn law_item_failures_are_not_fatal(
    before: Worker,
    event: WorkerEvent,
    after: Worker,
    step: Step,
)
    requires
        steps_to(before, event, after, step),
        event is DecodeFailed || event is LabelFailed || event is UpdateUnavailable
            || event is UpdateFailed || event is Answered,
    ensures
        after.phase is Watching,
        step.action is NextEvent,
        after.backoff == before.backoff,
        step.log is Some,
{
}

/// The only thing that the worker ever writes is the label of an item: a text
/// that is not empty, under the internal label type. No format that a restore
/// advertises is ever changed.
pub proof fn law_worker_only_writes_labels(
    before: Worker,
    event: WorkerEvent,
    after: Worker,
    step: Step,
    params: UpdateItemParams,
)
    requires
        steps_to(before, event, after, step),
        step.action == (WorkerAction::Update { params }),
    ensures
        params.remove_mimes@.len() == 0,
        inputs(params.set_formats@).len() == 1,
        inputs(params.set_formats@)[0].0 == label_mime(),
        crate::restore::is_internal(inputs(params.set_formats@)[0].0),
{
    reveal_strlit("application/x-richclip-label");
    reveal_strlit("application/x-richclip-");
    assert("application/x-richclip-"@ =~= label_mime().subrange(0, 23));
}

/// An item that has a label keeps it, unless the worker was told to overwrite.
pub proof fn law_labels_are_kept(
    before: Worker,
    id: ItemId,
    created_at: crate::clock::Timestamp,
    formats: Vec<String>,
    after: Worker,
    step: Step,
)
    requires
        before.phase is Watching,
        !before.overwrite,
        texts(formats@).contains(label_mime()),
        steps_to(
            before,
            (WorkerEvent::Event { event: WatchEvent::ItemAdded { id, created_at, formats } }),
            after,
            step,
        ),
    ensures
        step.action is NextEvent,
        after.phase is Watching,
{
}

/// A wait of up to fifteen seconds is followed by one twice as long, a longer
/// one by thirty seconds; the wait that is carried out is the one that was due,
/// and a stream that starts brings it back to one second.
pub proof fn law_waits_double(before: Worker, event: WorkerEvent, after: Worker, step: Step)
    requires
        steps_to(before, event, after, step),
    ensures
        step.action is Retry ==> {
            &&& step.action->seconds == before.backoff
            &&& before.backoff <= 15 ==> after.backoff == 2 * before.backoff
            &&& before.backoff > 15 ==> after.backoff == 30
            &&& after.phase is Connecting
        },
        event is ConnectFailed || event is WatchFailed || event is StreamEnded
            ==> step.action is Retry,
        event is WatchStarted ==> after.backoff == 1,
{
}

/// The worker asks to be told of new items with a PNG, WebP, JPEG or BMP image,
/// and of nothing else.
pub proof fn law_worker_watches_images(before: Worker, after: Worker, step: Step, mime: Seq<char>)
    requires
        before.phase is Connecting,
        steps_to(before, WorkerEvent::Connected, after, step),
    ensures
        step.action matches WorkerAction::Watch { params } && {
            &&& params.event_filter matches Some(tag) && tag@ == "item-added"@
            &&& texts(params.mime_filters@).contains(mime) <==> mime == "image/png"@ || mime
                == "image/webp"@ || mime == "image/jpeg"@ || mime == "image/bmp"@
        },
{
    let list = image_mimes();
    assert(list[0] == "image/png"@ && list[1] == "image/webp"@);
    assert(list[2] == "image/jpeg"@ && list[3] == "image/bmp"@);
}

/// A new item that has no label, or any new item where labels are overwritten,
/// is read in its best image format: PNG where it has one, else WebP, else JPEG,
/// else BMP. One without such a format is left alone.
pub proof fn law_new_images_are_read(
    before: Worker,
    id: ItemId,
    created_at: crate::clock::Timestamp,
    formats: Vec<String>,
    after: Worker,
    step: Step,
)
    requires
        before.phase is Watching,
        before.overwrite || !texts(formats@).contains("application/x-richclip-label"@),
        steps_to(
            before,
            (WorkerEvent::Event { event: WatchEvent::ItemAdded { id, created_at, formats } }),
            after,
            step,
        ),
    ensures
        ({
            let all = texts(formats@);
            let best = if all.contains("image/png"@) {
                Some("image/png"@)
            } else if all.contains("image/webp"@) {
                Some("image/webp"@)
            } else if all.contains("image/jpeg"@) {
                Some("image/jpeg"@)
            } else if all.contains("image/bmp"@) {
                Some("image/bmp"@)
            } else {
                None
            };
            match best {
                Some(mime) => {
                    &&& step.action matches WorkerAction::Decode { id: i, mime: m } && i == id && m@
                        == mime
                    &&& after.phase matches Phase::Decoding { id: i, mime: m } && i == id && m@
                        == mime
                },
                None => step.action is NextEvent && after.phase is Watching,
            }
        }),
{
}

/// What was read of an image goes to the model as it is, under its type, and
/// what the model says goes to the daemon as the label of that item, without the
/// white space around it.
pub proof fn law_labels_reach_their_item(
    start: Worker,
    bytes: Vec<u8>,
    asked: Worker,
    first: Step,
    text: String,
    done: Worker,
    second: Step,
    lead: Seq<char>,
    core: Seq<char>,
    trail: Seq<char>,
)
    requires
        start.phase is Decoding,
        steps_to(start, (WorkerEvent::Decoded { bytes }), asked, first),
        steps_to(asked, (WorkerEvent::Labelled { text }), done, second),
        crate::text::is_blank(lead),
        crate::text::is_blank(trail),
        crate::text::has_no_margin(core),
        text@ == lead + core + trail,
    ensures
        start.phase matches Phase::Decoding { id, mime } && {
            &&& first.action matches WorkerAction::Label { mime: m, bytes: b } && m@ == mime@ && b@
                == bytes@
            &&& core.len() > 0 ==> (second.action matches WorkerAction::Update { params } && {
                &&& params.id == id
                &&& params.remove_mimes@.len() == 0
                &&& params.set_formats@.len() == 1
                &&& params.set_formats@[0].0@ == "application/x-richclip-label"@
                &&& params.set_formats@[0].1@ == encode_utf8(core)
            })
            &&& core.len() == 0 ==> second.action is NextEvent
        },
{
    crate::text::law_trimming_leaves_the_core(lead, core, trail);
    match second.action {
        WorkerAction::Update { params } => {
            let list = inputs(params.set_formats@);
            if core.len() > 0 {
                assert(list.len() == 1);
                assert(list[0] == (params.set_formats@[0].0@, params.set_formats@[0].1@));
                assert(list[0] == (label_mime(), encode_utf8(core)));
            }
        },
        _ => {},
    }
}

/// What is logged of an item names it: where something fails, that it failed,
/// and where its label was written, from which of its types.
pub proof fn law_items_are_named_in_the_log(
    before: Worker,
    event: WorkerEvent,
    after: Worker,
    step: Step,
)
    requires
        steps_to(before, event, after, step),
    ensures
        ({
            let id = match before.phase {
                Phase::Decoding { id, .. } => id,
                Phase::Labelling { id, .. } => id,
                Phase::Updating { id, .. } => id,
                _ => ItemId { bits: 0 },
            };
            let failed = "richclip-labeld: item "@ + hyphenated_text(id.bits) + " failed: "@;
            &&& event is DecodeFailed || event is LabelFailed || event is UpdateUnavailable
                || event is UpdateFailed || event is Answered && !event->response.ok ==> (
            step.log matches Some(line) && failed.is_prefix_of(line@))
            &&& event is Answered && event->response.ok ==> (step.log matches Some(line) && line@
                == "richclip-labeld: labelled item "@ + hyphenated_text(id.bits) + " from "@
                + before.phase->Updating_mime@)
        }),
{
    reveal_strlit("richclip-labeld: ");
    reveal_strlit("richclip-labeld: item ");
    reveal_strlit("item ");
    reveal_strlit("richclip-labeld: labelled item ");
    reveal_strlit("labelled item ");
    assert("richclip-labeld: item "@ =~= "richclip-labeld: "@ + "item "@);
    assert("richclip-labeld: labelled item "@ =~= "richclip-labeld: "@ + "labelled item "@);
    let id = match before.phase {
        Phase::Decoding { id, .. } => id,
        Phase::Labelling { id, .. } => id,
        Phase::Updating { id, .. } => id,
        _ => ItemId { bits: 0 },
    };
    let text = hyphenated_text(id.bits);
    let failed = "richclip-labeld: item "@ + text + " failed: "@;
    if step.log is Some {
        let line = step.log->0@;
        if event is DecodeFailed || event is LabelFailed || event is UpdateUnavailable
            || event is UpdateFailed || event is Answered && !event->response.ok {
            assert(failed =~= line.subrange(0, failed.len() as int));
        }
    }
}

/// A refused update is told with its code and its message.
pub proof fn law_refusals(resp: Response, code: Seq<char>, message: Seq<char>)
    requires
        resp.code is Some && resp.code->0@ == code,
        resp.error is Some && resp.error->0@ == message,
    ensures
        refusal(resp) == "daemon rejected update ("@ + code + "): "@ + message,
{
}

/// The worker passes over every event but the addition of an item.
pub proof fn law_other_events_are_passed_over(
    before: Worker,
    event: WatchEvent,
    after: Worker,
    step: Step,
)
    requires
        before.phase is Watching,
        !(event is ItemAdded),
        steps_to(before, (WorkerEvent::Event { event }), after, step),
    ensures
        step.action is NextEvent,
        after.phase is Watching,
        after.backoff == before.backoff,
        step.log is None,
{
}

} // verus!
