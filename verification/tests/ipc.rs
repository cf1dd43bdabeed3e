use richclip::backend::{CapturedFormat, CapturedItem};
use richclip::capture::echo;
use richclip::cli::{
    add_request, added_id, delete_request, list_entry, parse_set_mime, parse_uuid, plan_delete,
    plan_update, resolve_mime_srcs, response_to_result, update_request, watch_params,
    ListItemEntry,
};
use richclip::clock::Timestamp;
use richclip::daemon::{
    fingerprint, retention_days, same_pairs, watch_step, CaptureOutcome, DaemonState, Outcome,
    Reply, WatchAction, WatchInput, DEFAULT_RETENTION_DAYS, PRUNE_INTERVAL_SECS,
    WATCH_CHANNEL_CAPACITY,
};
use richclip::filter::CaptureConfig;
use richclip::ids::ItemId;
use richclip::ipc::{
    event_matches_mime, event_passes, event_tag, take_line, LineRead, LineStep,
    ListItemsParams, Payload, Request, WatchEvent, WatchEventsParams,
};
use richclip::restore::{
    advertised, is_internal_mime, restorable_formats, RestoreAction, RestoreEvent, RestoreState,
};
use richclip::store::Store;

fn start_daemon() -> DaemonState {
    DaemonState::new(Store::open(vec![], vec![], vec![]).unwrap())
}

fn strings(list: &[&str]) -> Vec<String> {
    list.iter().map(|s| s.to_string()).collect()
}

fn reply(daemon: &mut DaemonState, request: Request) -> Reply {
    match daemon.handle_request(request) {
        Outcome::Reply(reply) => reply,
        Outcome::Watch(_) => panic!("the request is no subscription"),
    }
}

/// A watcher, as `richclip watch` with these options.
fn watch(daemon: &mut DaemonState, event: &str, mimes: &[&str], image: bool) -> WatchEventsParams {
    let params = watch_params(Some(event.to_string()), strings(mimes), image);
    match daemon.handle_request(Request::WatchEvents(params)) {
        Outcome::Watch(params) => params,
        Outcome::Reply(_) => panic!("the request is a subscription"),
    }
}

/// The event of a reply, where the watcher sees it.
fn seen(params: &WatchEventsParams, reply: Reply) -> Option<WatchEvent> {
    reply.events.into_iter().find(|ev| event_passes(params, ev))
}

fn add_item(daemon: &mut DaemonState, mime: &str, body: &[u8]) -> (String, Reply) {
    let srcs = parse_set_mime(&[format!("{mime}=-")]).unwrap();
    let formats = resolve_mime_srcs(&srcs, &body.to_vec(), &vec![]);
    let mut reply = reply(daemon, add_request(formats));
    let response = reply.response;
    let response = response_to_result(response).expect("add failed");
    let id = added_id(&response);
    reply.response = response;
    (id, reply)
}

fn update_item(daemon: &mut DaemonState, id: &str, mime: &str, body: &[u8]) -> Reply {
    let plan = plan_update(id, &vec![format!("{mime}=-")], &vec![]).unwrap();
    let formats = resolve_mime_srcs(&plan.sources, &body.to_vec(), &vec![]);
    let reply = reply(daemon, update_request(plan.id, formats, plan.remove_mimes));
    assert!(reply.response.ok, "update failed");
    reply
}

fn list(daemon: &DaemonState) -> Vec<ListItemEntry> {
    let store = daemon.store();
    let items = store.list_items(None, None).unwrap();
    items.iter().map(|entry| list_entry(store, entry, None)).collect()
}

#[test]
fn test_ipc_full_flow() {
    let mut daemon = start_daemon();

    // add returns a UUID
    let (id, _) = add_item(&mut daemon, "text/plain", b"hello from ipc test");
    assert_eq!(id.len(), 36, "expected UUID-length id, got {:?}", id);

    // list shows the item
    let items = list(&daemon);
    assert_eq!(items.len(), 1, "expected 1 item after add");
    assert_eq!(items[0].id.to_text(), id);

    // update
    update_item(&mut daemon, &id, "application/x-richclip-label", b"test label");
    assert_eq!(list(&daemon)[0].label.as_deref(), Some("test label"));

    // watch + add: the item-added event arrives
    let watcher = watch(&mut daemon, "item-added", &[], false);
    let (id2, told) = add_item(&mut daemon, "text/plain", b"second item");
    let event = seen(&watcher, told).expect("did not receive item-added event");
    assert_eq!(event_tag(&event), "item-added", "expected item-added event");
    match event {
        WatchEvent::ItemAdded { id, .. } => {
            assert_eq!(id.to_text(), id2, "event id must match the added item")
        }
        other => panic!("unexpected event {:?}", other),
    }

    // delete; the list becomes empty
    for item in list(&daemon) {
        let plan = plan_delete(&Some(item.id.to_text()), &None, &None).unwrap();
        let reply = reply(&mut daemon, delete_request(&plan, Timestamp::now()));
        assert!(reply.response.ok, "delete {} failed", item.id.to_text());
        assert!(matches!(&reply.events[..], [WatchEvent::ItemDeleted { id }] if *id == item.id));
    }
    assert!(list(&daemon).is_empty(), "list must be empty after deleting all items");
}

#[test]
fn test_watch_repeated_mime_filters_match_png_and_jpeg_but_not_text_only_items() {
    let mut daemon = start_daemon();
    let watcher = watch(&mut daemon, "item-added", &["image/png", "image/jpeg"], false);

    for (mime, body) in
        [("image/png", b"png payload" as &[u8]), ("image/jpeg", b"jpeg payload" as &[u8])]
    {
        let (id, told) = add_item(&mut daemon, mime, body);
        let event = seen(&watcher, told).expect("expected item-added event");
        assert_eq!(event_tag(&event), "item-added");
        match event {
            WatchEvent::ItemAdded { id: of, formats, .. } => {
                assert_eq!(of.to_text(), id);
                assert_eq!(formats, [mime]);
            }
            other => panic!("unexpected event {:?}", other),
        }
    }

    let (_, told) = add_item(&mut daemon, "text/plain", b"text payload");
    assert!(
        seen(&watcher, told).is_none(),
        "text-only item should not match repeated MIME filters"
    );
}

#[test]
fn test_watch_image_flag_matches_supported_image_formats_and_not_text_only_items() {
    let mut daemon = start_daemon();
    for (mime, payload) in
        [("image/webp", b"webp payload" as &[u8]), ("image/bmp", b"bmp payload" as &[u8])]
    {
        let watcher = watch(&mut daemon, "item-added", &[], true);
        let (id, told) = add_item(&mut daemon, mime, payload);
        let event = seen(&watcher, told).expect("expected item-added event for image item");
        assert_eq!(event_tag(&event), "item-added");
        match event {
            WatchEvent::ItemAdded { id: of, formats, .. } => {
                assert_eq!(of.to_text(), id);
                assert_eq!(formats, [mime]);
            }
            other => panic!("unexpected event {:?}", other),
        }
    }
    let watcher = watch(&mut daemon, "item-added", &[], true);
    let (_, told) = add_item(&mut daemon, "text/plain", b"text payload");
    assert!(seen(&watcher, told).is_none(), "text-only item should not match --image");
}

#[test]
fn test_watch_single_mime_png_still_behaves_the_same() {
    let mut daemon = start_daemon();
    let watcher = watch(&mut daemon, "item-added", &["image/png"], false);
    let (id, told) = add_item(&mut daemon, "image/png", b"png payload");
    match seen(&watcher, told).expect("expected item-added event for image/png") {
        WatchEvent::ItemAdded { id: of, formats, .. } => {
            assert_eq!(of.to_text(), id);
            assert_eq!(formats, ["image/png"]);
        }
        other => panic!("unexpected event {:?}", other),
    }
    let (_, told) = add_item(&mut daemon, "image/jpeg", b"jpeg payload");
    assert!(
        seen(&watcher, told).is_none(),
        "single --mime image/png should not match image/jpeg"
    );
}

#[test]
fn test_watch_item_updated_filters_when_requested_mime_changes() {
    let mut daemon = start_daemon();
    let (id, _) = add_item(&mut daemon, "text/plain", b"text payload");
    let watcher = watch(&mut daemon, "item-updated", &["image/jpeg"], false);
    let told = update_item(&mut daemon, &id, "image/jpeg", b"jpeg payload");
    let event = seen(&watcher, told).expect("expected item-updated event for image/jpeg");
    assert_eq!(event_tag(&event), "item-updated");
    match event {
        WatchEvent::ItemUpdated { id: of, changed } => {
            assert_eq!(of.to_text(), id);
            assert_eq!(changed, ["image/jpeg"]);
        }
        other => panic!("unexpected event {:?}", other),
    }
}

// Events

#[test]
fn filters_are_alternatives_and_deletions_always_pass() {
    let id = ItemId { bits: 1 };
    let added = WatchEvent::ItemAdded {
        id,
        created_at: Timestamp { nanos: 0 },
        formats: strings(&["a/a", "b/b"]),
    };
    let deleted = WatchEvent::ItemDeleted { id };
    let params = |event: Option<&str>, mimes: &[&str]| WatchEventsParams {
        event_filter: event.map(|s| s.to_string()),
        mime_filters: strings(mimes),
    };
    assert!(event_passes(&params(None, &[]), &added));
    assert!(event_passes(&params(None, &["x/x", "b/b"]), &added));
    assert!(!event_passes(&params(None, &["x/x"]), &added));
    assert!(event_passes(&params(None, &["x/x"]), &deleted));
    assert!(!event_passes(&params(Some("item-added"), &[]), &deleted));
    assert!(event_passes(&params(Some("item-deleted"), &[]), &deleted));
    assert!(event_matches_mime(&added, "a/a"));
    assert!(!event_matches_mime(&added, "a/A"));
    assert!(event_matches_mime(&deleted, "a/a"));
    let updated = WatchEvent::ItemUpdated { id, changed: strings(&["c/c"]) };
    assert!(event_matches_mime(&updated, "c/c"));
    assert!(!event_matches_mime(&updated, "a/a"));
}

#[test]
fn a_stream_ends_with_its_events_or_its_watcher() {
    let params = WatchEventsParams { event_filter: None, mime_filters: strings(&["a/a"]) };
    let updated = |mime: &str| {
        let changed = strings(&[mime]);
        WatchInput::Event(WatchEvent::ItemUpdated { id: ItemId { bits: 1 }, changed })
    };
    match watch_step(&params, updated("a/a")) {
        WatchAction::Send(WatchEvent::ItemUpdated { changed, .. }) => {
            assert_eq!(changed, ["a/a"])
        }
        other => panic!("unexpected action {:?}", other),
    }
    assert!(matches!(watch_step(&params, updated("b/b")), WatchAction::Wait));
    assert!(matches!(watch_step(&params, WatchInput::Closed), WatchAction::Stop));
    assert!(matches!(
        watch_step(&params, WatchInput::Written { ok: true }),
        WatchAction::Wait
    ));
    assert!(matches!(
        watch_step(&params, WatchInput::Written { ok: false }),
        WatchAction::Stop
    ));
    match watch_step(&params, WatchInput::Lagged(12)) {
        WatchAction::Warn(text) => assert_eq!(text, "watch client lagged, 12 events dropped"),
        other => panic!("unexpected action {:?}", other),
    }
}

#[test]
fn blank_lines_of_a_stream_are_passed_over() {
    let line = |text: &str| take_line(LineRead::Line(text.to_string()));
    assert!(matches!(line(" \r\n"), LineStep::Skip));
    assert!(matches!(line(""), LineStep::Skip));
    match line(" {\"event\":1} \n") {
        LineStep::Parse(text) => assert_eq!(text, "{\"event\":1}"),
        other => panic!("unexpected step {:?}", other),
    }
    assert!(matches!(take_line(LineRead::Ended), LineStep::Stop));
    assert!(matches!(take_line(LineRead::Failed), LineStep::Stop));
}

// Requests

#[test]
fn unknown_items_are_reported_and_nobody_is_told() {
    let mut daemon = start_daemon();
    let (_, _) = add_item(&mut daemon, "text/plain", b"x");
    daemon.take_journal();
    let id = ItemId::nil();
    let requests = vec![
        Request::GetItem { id },
        Request::DeleteItem { id },
        Request::RestoreItem { id },
        update_request(id, vec![("a/a".to_string(), b"x".to_vec())], vec![]),
    ];
    for request in requests {
        let reply = reply(&mut daemon, request);
        assert!(!reply.response.ok);
        assert_eq!(reply.response.code.as_deref(), Some("not_found"));
        assert_eq!(reply.response.error.as_deref(), Some("not found"));
        assert!(reply.response.data.is_none());
        assert!(reply.events.is_empty());
        assert!(reply.restore.is_none());
    }
    let (changes, blobs) = daemon.take_journal();
    assert!(changes.is_empty() && blobs.is_empty());
}

#[test]
fn items_are_listed_and_fetched() {
    let mut daemon = start_daemon();
    let (first, _) = add_item(&mut daemon, "text/plain", b"one");
    let (second, _) = add_item(&mut daemon, "image/png", b"two");
    let params = ListItemsParams { limit: Some(1), mime_filter: None };
    match reply(&mut daemon, Request::ListItems(params)).response.data {
        Some(Payload::Items(items)) => {
            assert_eq!(items.len(), 1);
            assert_eq!(items[0].item.id.to_text(), second);
        }
        other => panic!("unexpected payload {:?}", other),
    }
    let params = ListItemsParams { limit: None, mime_filter: Some("text/plain".to_string()) };
    match reply(&mut daemon, Request::ListItems(params)).response.data {
        Some(Payload::Items(items)) => assert_eq!(items[0].item.id.to_text(), first),
        other => panic!("unexpected payload {:?}", other),
    }
    let id = parse_uuid(&first).unwrap();
    match reply(&mut daemon, Request::GetItem { id }).response.data {
        Some(Payload::Item(entry)) => assert_eq!(entry.formats[0].size, 3),
        other => panic!("unexpected payload {:?}", other),
    }
    assert!(reply(&mut daemon, Request::DeleteItem { id }).response.ok);
    let gone = reply(&mut daemon, Request::GetItem { id }).response;
    assert_eq!(gone.code.as_deref(), Some("not_found"));
}

#[test]
fn an_update_tells_removed_types_before_set_ones() {
    let mut daemon = start_daemon();
    let (id, _) = add_item(&mut daemon, "text/plain", b"one");
    let id = parse_uuid(&id).unwrap();
    let request = update_request(
        id,
        vec![("b/b".to_string(), b"x".to_vec()), ("a/a".to_string(), b"y".to_vec())],
        strings(&["text/plain"]),
    );
    match reply(&mut daemon, request).events.pop() {
        Some(WatchEvent::ItemUpdated { changed, .. }) => {
            assert_eq!(changed, ["text/plain", "b/b", "a/a"])
        }
        other => panic!("unexpected event {:?}", other),
    }
}

// Restoring and capturing

fn captured(formats: &[(&str, &[u8])]) -> CapturedItem {
    CapturedItem {
        formats: formats
            .iter()
            .map(|(m, b)| CapturedFormat { mime: m.to_string(), bytes: b.to_vec() })
            .collect(),
    }
}

#[test]
fn a_restored_selection_is_not_captured_again() {
    let mut daemon = start_daemon();
    let formats = vec![
        ("text/plain".to_string(), b"x".to_vec()),
        ("text/html".to_string(), b"<b>x</b>".to_vec()),
        ("application/x-richclip-label".to_string(), b"label".to_vec()),
    ];
    let added = reply(&mut daemon, add_request(formats));
    let id = match added.response.data {
        Some(Payload::Id(id)) => id,
        other => panic!("unexpected payload {:?}", other),
    };
    let restored = reply(&mut daemon, Request::RestoreItem { id });
    assert!(restored.response.ok);
    let served = restored.restore.expect("formats to serve");
    assert_eq!(advertised(&served).len(), 2);

    // The echo, in another order.
    let echo = captured(&[("text/html", b"<b>x</b>"), ("text/plain", b"x")]);
    assert!(matches!(daemon.handle_captured(echo), CaptureOutcome::Suppressed));
    // Something else is captured.
    let other = captured(&[("text/plain", b"y")]);
    match daemon.handle_captured(other) {
        CaptureOutcome::Stored { id, event } => {
            assert_eq!(daemon.store().decode(id, "text/plain").unwrap(), b"y");
            assert_eq!(event_tag(&event), "item-added");
        }
        other => panic!("unexpected outcome {:?}", other),
    }
    assert_eq!(list(&daemon).len(), 2);
}

#[test]
fn a_copy_after_the_ownership_ended_is_captured() {
    let mut daemon = start_daemon();
    let (id, _) = add_item(&mut daemon, "text/plain", b"x");
    let id = parse_uuid(&id).unwrap();
    assert!(reply(&mut daemon, Request::RestoreItem { id }).response.ok);
    let first = daemon.turn();
    assert!(reply(&mut daemon, Request::RestoreItem { id }).response.ok);
    let second = daemon.turn();
    assert_eq!((first, second), (1, 2));

    // The end of the first restore does not end the second.
    daemon.release(first);
    let echo = captured(&[("text/plain", b"x")]);
    assert!(matches!(daemon.handle_captured(echo), CaptureOutcome::Suppressed));
    daemon.release(second);
    let copy = captured(&[("text/plain", b"x")]);
    assert!(matches!(daemon.handle_captured(copy), CaptureOutcome::Stored { .. }));
}

#[test]
fn an_echo_is_known_by_what_a_capture_keeps_of_it() {
    let config = CaptureConfig { max_format_bytes: 4, ..CaptureConfig::default() };
    let store = Store::open(vec![], vec![], vec![]).unwrap();
    let mut daemon = DaemonState::with_config(store, config);
    let formats = vec![
        ("application/x-other".to_string(), b"o".to_vec()),
        ("text/html".to_string(), b"<b>x</b>".to_vec()),
        ("Text/Plain;charset=utf-8".to_string(), b"x".to_vec()),
    ];
    let added = reply(&mut daemon, add_request(formats));
    let id = match added.response.data {
        Some(Payload::Id(id)) => id,
        other => panic!("unexpected payload {:?}", other),
    };
    let served = reply(&mut daemon, Request::RestoreItem { id }).restore.unwrap();
    assert_eq!(served.len(), 3);
    let config = CaptureConfig { max_format_bytes: 4, ..CaptureConfig::default() };
    let kept = echo(&config, &served);
    assert_eq!(kept.len(), 1);
    assert_eq!((kept[0].mime.as_str(), &kept[0].bytes[..]), ("text/plain", b"x" as &[u8]));
    let outcome = daemon.handle_captured(CapturedItem { formats: kept });
    assert!(matches!(outcome, CaptureOutcome::Suppressed));
    let secret = vec![("x-kde-passwordManagerHint".to_string(), b"secret".to_vec())];
    assert!(echo(&config, &secret).is_empty());
}

#[test]
fn a_bulk_deletion_tells_of_every_item() {
    let mut daemon = start_daemon();
    let mut store = Store::open(vec![], vec![], vec![]).unwrap();
    for bits in [3_u128, 1, 2] {
        let at = Timestamp { nanos: bits as i128 * 1_000_000_000 };
        let formats = [("text/plain".to_string(), vec![bits as u8])];
        store.add_item_at(ItemId { bits }, at, &formats).unwrap();
    }
    daemon.reload(store);
    let plan = plan_delete(&None, &None, &Some("7s".to_string())).unwrap();
    let now = Timestamp { nanos: 10_000_000_000 };
    let done = reply(&mut daemon, delete_request(&plan, now));
    assert!(matches!(done.response.data, Some(Payload::Deleted(2))));
    let gone: Vec<u128> = done
        .events
        .iter()
        .map(|ev| match ev {
            WatchEvent::ItemDeleted { id } => id.bits,
            other => panic!("unexpected event {:?}", other),
        })
        .collect();
    assert_eq!(gone, [1, 2]);
    assert_eq!(list(&daemon).len(), 1);
    let again = reply(&mut daemon, delete_request(&plan, now));
    assert!(matches!(again.response.data, Some(Payload::Deleted(0))));
    assert!(again.events.is_empty());
}

#[test]
fn fingerprints_ignore_the_order() {
    let a = vec![("a/a".to_string(), b"1".to_vec()), ("b/b".to_string(), b"2".to_vec())];
    let b = vec![("b/b".to_string(), b"2".to_vec()), ("a/a".to_string(), b"1".to_vec())];
    let c = vec![("a/a".to_string(), b"1".to_vec()), ("b/b".to_string(), b"3".to_vec())];
    assert!(same_pairs(&fingerprint(&a), &fingerprint(&b)));
    assert!(!same_pairs(&fingerprint(&a), &fingerprint(&c)));
    assert_eq!(fingerprint(&a)[0].1, richclip::blob_hash(b"1"));
}

#[test]
fn internal_types_are_not_served() {
    assert!(is_internal_mime("application/x-richclip-label"));
    assert!(!is_internal_mime("application/x-richclip"));
    assert!(!is_internal_mime("text/plain"));
    let mut store = Store::open(vec![], vec![], vec![]).unwrap();
    let id = store
        .add_item(&[
            ("text/plain".to_string(), b"x".to_vec()),
            ("application/x-richclip-label".to_string(), b"l".to_vec()),
        ])
        .unwrap();
    let list = restorable_formats(&store, id).unwrap();
    assert_eq!(list, vec![("text/plain".to_string(), b"x".to_vec())]);
    assert!(restorable_formats(&store, ItemId::nil()).is_err());
}

#[test]
fn a_restore_serves_until_it_is_replaced() {
    let mut state = RestoreState::new(vec![("text/plain".to_string(), b"x".to_vec())]);
    let ask = |mime: &str| RestoreEvent::Send { mime_type: mime.to_string() };
    match state.event(ask("text/plain")) {
        RestoreAction::Write { bytes } => assert_eq!(bytes.as_deref(), Some(b"x" as &[u8])),
        other => panic!("unexpected action {:?}", other),
    }
    match state.event(ask("text/html")) {
        RestoreAction::Write { bytes } => assert!(bytes.is_none()),
        other => panic!("unexpected action {:?}", other),
    }
    assert!(!state.done());
    assert!(matches!(state.event(RestoreEvent::Cancelled), RestoreAction::DestroySource));
    assert!(state.done());
    let mut state = RestoreState::new(vec![]);
    assert!(matches!(state.event(RestoreEvent::Finished), RestoreAction::Wait));
    assert!(state.done());
}

// Retention

#[test]
fn old_items_are_pruned() {
    let mut daemon = start_daemon();
    let day: i128 = 86_400_000_000_000;
    let mut store = Store::open(vec![], vec![], vec![]).unwrap();
    for (bits, days) in [(1_u128, 0_i128), (2, 10), (3, 20)] {
        store
            .add_item_at(
                ItemId { bits },
                Timestamp { nanos: days * day },
                &[("text/plain".to_string(), vec![bits as u8])],
            )
            .unwrap();
    }
    daemon.reload(store);
    let now = Timestamp { nanos: 30 * day };
    let told = daemon.prune_old_items(now, 20);
    assert!(matches!(&told[..], [WatchEvent::ItemDeleted { id }] if id.bits == 1));
    assert!(daemon.prune_old_items(now, 20).is_empty());
    assert!(daemon.prune_old_items(now, 100_000_000).is_empty());
    assert!(daemon.prune_old_items(now, u64::MAX).is_empty());
    assert_eq!(list(&daemon).len(), 2);
}

#[test]
fn retention_falls_back_to_the_default() {
    assert_eq!(DEFAULT_RETENTION_DAYS, 30);
    assert_eq!(PRUNE_INTERVAL_SECS, 3600);
    assert_eq!(WATCH_CHANNEL_CAPACITY, 256);
    assert_eq!(retention_days(Some("7")), 7);
    assert_eq!(retention_days(Some("+7")), 7);
    assert_eq!(retention_days(Some("x")), 30);
    assert_eq!(retention_days(Some("")), 30);
    assert_eq!(retention_days(Some("18446744073709551616")), 30);
    assert_eq!(retention_days(None), 30);
}
