use richclip::backend::{CaptureSink, CapturedFormat, CapturedItem};
use richclip::capture::{drain, CaptureAction, CaptureEvent, State, WlrDataControlBackend};
use richclip::filter::{AcceptedMime, CaptureConfig};

fn config(max_item_bytes: usize, max_format_bytes: usize) -> CaptureConfig {
    CaptureConfig { max_item_bytes, max_format_bytes, ..CaptureConfig::default() }
}

fn accepted(list: &[(&str, &str)]) -> Vec<AcceptedMime> {
    list.iter()
        .map(|(offered, store_as)| AcceptedMime {
            offered: offered.to_string(),
            store_as: store_as.to_string(),
        })
        .collect()
}

fn offer(state: &mut State, id: u64, mimes: &[&str]) -> CaptureAction {
    state.event(CaptureEvent::DataOffer { id });
    for mime in mimes {
        state.event(CaptureEvent::Offer { id, mime_type: mime.to_string() });
    }
    state.event(CaptureEvent::Selection { offer: Some(id) })
}

fn pairs(formats: &[CapturedFormat]) -> Vec<(String, Vec<u8>)> {
    formats.iter().map(|f| (f.mime.clone(), f.bytes.clone())).collect()
}

#[test]
fn a_selection_is_captured() {
    let mut state = State::new(CaptureConfig::default());
    let asked = match offer(
        &mut state,
        7,
        &["TARGETS", "text/plain;charset=utf-8", "image/png", "UTF8_STRING"],
    ) {
        CaptureAction::Receive { id, accepted } => {
            assert_eq!(id, 7);
            accepted
        }
        other => panic!("unexpected action {:?}", other),
    };
    assert_eq!(asked.len(), 2);
    assert_eq!(asked[0].offered, "text/plain;charset=utf-8");
    assert_eq!(asked[0].store_as, "text/plain");
    let reads = vec![Some(b"text".to_vec()), None];
    let next = state.event(CaptureEvent::Received { id: 7, accepted: asked, reads });
    assert!(matches!(next, CaptureAction::Wait));
    let items = state.take_items();
    assert_eq!(items.len(), 1);
    assert_eq!(pairs(&items[0].formats), [("text/plain".to_string(), b"text".to_vec())]);
    assert!(state.take_items().is_empty());
    // The offer is spent.
    let again = state.event(CaptureEvent::Selection { offer: Some(7) });
    assert!(matches!(again, CaptureAction::Wait));
}

#[test]
fn a_secret_selection_is_not_captured() {
    let mut state = State::new(CaptureConfig::default());
    let action =
        offer(&mut state, 1, &["text/plain", "application/x-kde-passwordManagerHint"]);
    assert!(matches!(action, CaptureAction::Wait));
    assert!(state.take_items().is_empty());
}

#[test]
fn nothing_is_asked_of_other_offers() {
    let mut state = State::new(CaptureConfig::default());
    assert!(matches!(offer(&mut state, 1, &["video/mp4"]), CaptureAction::Wait));
    let unknown = state.event(CaptureEvent::Selection { offer: Some(9) });
    assert!(matches!(unknown, CaptureAction::Wait));
    let cleared = state.event(CaptureEvent::Selection { offer: None });
    assert!(matches!(cleared, CaptureAction::Wait));
    let early =
        state.event(CaptureEvent::Offer { id: 5, mime_type: "text/plain".to_string() });
    assert!(matches!(early, CaptureAction::Wait));
    assert!(matches!(
        state.event(CaptureEvent::Selection { offer: Some(5) }),
        CaptureAction::Wait
    ));
}

#[test]
fn a_new_offer_forgets_the_types_of_the_old_one() {
    let mut state = State::new(CaptureConfig::default());
    offer(&mut state, 1, &["text/plain"]);
    match offer(&mut state, 1, &["text/html"]) {
        CaptureAction::Receive { accepted, .. } => {
            assert_eq!(accepted.len(), 1);
            assert_eq!(accepted[0].store_as, "text/html");
        }
        other => panic!("unexpected action {:?}", other),
    }
}

#[test]
fn an_empty_capture_is_no_item() {
    let mut state = State::new(config(10, 10));
    state.event(CaptureEvent::Received {
        id: 1,
        accepted: accepted(&[("a/a", "a/a"), ("b/b", "b/b")]),
        reads: vec![None, Some(vec![0; 11])],
    });
    assert!(state.take_items().is_empty());
}

#[test]
fn the_first_format_over_the_cap_of_the_item_ends_it() {
    let types = accepted(&[("a/a", "a/a"), ("b/b", "b/b"), ("c/c", "c/c"), ("d/d", "d/d")]);
    let reads = vec![Some(vec![1; 4]), None, Some(vec![3; 7]), Some(vec![4; 1])];
    let kept = drain(&config(10, 8), &types, &reads);
    assert_eq!(pairs(&kept), [("a/a".to_string(), vec![1; 4])]);
    let kept = drain(&config(12, 8), &types, &reads);
    assert_eq!(kept.len(), 3);
    assert_eq!(kept.iter().map(|f| f.bytes.len()).sum::<usize>(), 12);
}

#[test]
fn a_format_over_the_cap_of_one_is_passed_over() {
    let types = accepted(&[("a/a", "a/a"), ("b/b", "b/b"), ("c/c", "c/c"), ("d/d", "d/d")]);
    let reads = vec![Some(vec![1; 4]), None, Some(vec![3; 7]), Some(vec![4; 1])];
    let kept = drain(&config(12, 6), &types, &reads);
    assert_eq!(pairs(&kept), [("a/a".to_string(), vec![1; 4]), ("d/d".to_string(), vec![4; 1])]);
    let kept = drain(&config(12, 3), &types, &reads);
    assert_eq!(pairs(&kept), [("d/d".to_string(), vec![4; 1])]);
}

#[test]
fn a_sink_hands_items_out_in_order() {
    let mut sink = CaptureSink::new();
    for n in 0..3_u8 {
        let formats = vec![CapturedFormat { mime: "a/a".to_string(), bytes: vec![n] }];
        sink.push(CapturedItem { formats });
    }
    let bytes: Vec<u8> = sink.take().iter().map(|item| item.formats[0].bytes[0]).collect();
    assert_eq!(bytes, [0, 1, 2]);
    assert!(sink.take().is_empty());
}

#[test]
fn backends_hold_their_configuration() {
    assert_eq!(WlrDataControlBackend::new().config.max_item_bytes, 8 * 1024 * 1024);
    assert_eq!(WlrDataControlBackend::new().config.max_format_bytes, 4 * 1024 * 1024);
    assert_eq!(WlrDataControlBackend::with_config(config(1, 2)).config.max_format_bytes, 2);
}
