use richclip::cli::{
    add_request, added_id, ago_text, daemon_not_running, delete_request, deleted_by, deleted_line,
    derive_label, error_line, event_line, format_line, inspect_output, ipc_error,
    is_label_source, label_from, list_entries, list_entry, list_line, list_lines, needs_stdin,
    parse_older_than, parse_set_mime, parse_uuid,
    plan_delete, plan_update, relative_time, resolve_mime_srcs, response_to_result, run_delete,
    run_update, thumbnail_field, update_request, watch_params, AppError, DeletePlan, Deleted,
    ListItemEntry, MimeSrc,
};
use richclip::clock::Timestamp;
use richclip::ids::ItemId;
use richclip::ipc::{Payload, Request, Response, WatchEvent};
use richclip::{Error, Store};

const LABEL: &str = "application/x-richclip-label";

fn new_store() -> Store {
    Store::open(vec![], vec![], vec![]).unwrap()
}

fn strings(list: &[&str]) -> Vec<String> {
    list.iter().map(|s| s.to_string()).collect()
}

/// `richclip add`: the arguments, what stdin holds and what each file holds.
fn add(store: &mut Store, args: &[&str], stdin: &[u8], files: &[&[u8]]) -> String {
    let srcs = parse_set_mime(&strings(args)).expect("arguments");
    let files: Vec<Vec<u8>> = files.iter().map(|f| f.to_vec()).collect();
    let formats = resolve_mime_srcs(&srcs, &stdin.to_vec(), &files);
    store.add_item(&formats).expect("add").to_text()
}

fn add_text_plain(store: &mut Store, content: &str) -> String {
    add(store, &["text/plain=-"], content.as_bytes(), &[])
}

/// `richclip update`.
fn update(
    store: &mut Store,
    id: &str,
    set: &[&str],
    remove: &[&str],
    stdin: &[u8],
) -> Result<(), AppError> {
    let plan = plan_update(id, &strings(set), &strings(remove))?;
    let formats = resolve_mime_srcs(&plan.sources, &stdin.to_vec(), &vec![]);
    run_update(store, plan.id, &formats, &plan.remove_mimes)
}

/// `richclip delete`.
fn delete(
    store: &mut Store,
    id: Option<&str>,
    mime: Option<&str>,
    older_than: Option<&str>,
    now: Timestamp,
) -> Result<Deleted, AppError> {
    let plan = plan_delete(
        &id.map(|s| s.to_string()),
        &mime.map(|s| s.to_string()),
        &older_than.map(|s| s.to_string()),
    )?;
    run_delete(store, &plan, now)
}

/// `richclip decode`.
fn decode(store: &Store, id: &str, mime: &str) -> Result<Vec<u8>, AppError> {
    store.decode(parse_uuid(id)?, mime).map_err(AppError::Lib)
}

/// `richclip list --json`, without thumbnails.
fn list(store: &Store) -> Vec<ListItemEntry> {
    let items = store.list_items(None, None).expect("list");
    items.iter().map(|entry| list_entry(store, entry, None)).collect()
}

/// `richclip formats`.
fn formats(store: &Store, id: &str) -> String {
    let id = parse_uuid(id).unwrap();
    let lines: Vec<String> = store.formats(id).unwrap().iter().map(format_line).collect();
    lines.join("\n")
}

#[test]
fn test_add_stdin_then_list() {
    let mut store = new_store();
    let content = "hello richclip";
    let id = add(&mut store, &["text/plain=-"], content.as_bytes(), &[]);
    assert!(!id.is_empty(), "id must be non-empty");
    assert_eq!(id.len(), 36, "id should be UUID length (36)");

    let items = list(&store);
    assert_eq!(items.len(), 1, "must be exactly one item");
    assert_eq!(items[0].id.to_text(), id);
    let tp = items[0]
        .formats
        .iter()
        .find(|f| f.mime == "text/plain")
        .expect("must have text/plain format");
    assert_eq!(tp.size, content.len() as u64, "size must match content length");
}

#[test]
fn test_add_file_decode_roundtrip() {
    let mut store = new_store();
    let binary_content: Vec<u8> = vec![
        0x89, b'P', b'N', b'G', b'\r', b'\n', 0x1a, b'\n', // PNG magic
        0x00, 0x01, 0x02, 0xFF, 0xFE, 0x80, 0x7F, 0x00, // misc binary bytes
    ];
    let id = add(&mut store, &["image/png=@/tmp/fake.png"], b"", &[&binary_content]);
    let decoded = decode(&store, &id, "image/png").unwrap();
    assert_eq!(decoded, binary_content, "decoded bytes must match file bytes exactly");
}

#[test]
fn test_add_json_output() {
    let mut store = new_store();
    let id_str = add(&mut store, &["text/plain=-"], b"test content", &[]);
    id_str.parse::<uuid::Uuid>().expect("id must be a valid UUID");
}

#[test]
fn test_formats_lists_all_mimes() {
    let mut store = new_store();
    let png_bytes: Vec<u8> = vec![0x89, b'P', b'N', b'G', 0x00, 0x01, 0x02, 0x03];
    let id = add(
        &mut store,
        &["text/plain=-", "image/png=@img.png"],
        b"alt text",
        &[&png_bytes],
    );
    let out = formats(&store, &id);
    assert!(out.contains("text/plain"));
    assert!(out.contains("image/png"));
    assert_eq!(out.lines().count(), 2);
}

#[test]
fn test_update_set_mime_replace() {
    let mut store = new_store();
    let id = add_text_plain(&mut store, "v1");
    update(&mut store, &id, &["text/plain=-"], &[], b"v2").unwrap();
    let decoded = decode(&store, &id, "text/plain").unwrap();
    assert_eq!(decoded, b"v2", "decode must return updated content");
}

#[test]
fn test_update_remove_mime() {
    let mut store = new_store();
    let png_bytes: Vec<u8> = vec![0x89, b'P', b'N', b'G'];
    let id = add(
        &mut store,
        &["text/plain=-", "image/png=@img.png"],
        b"has two formats",
        &[&png_bytes],
    );
    update(&mut store, &id, &[], &["image/png"], b"").unwrap();

    let out = formats(&store, &id);
    assert!(out.contains("text/plain"));
    assert!(!out.contains("image/png"));
    assert_eq!(decode(&store, &id, "image/png").unwrap_err().exit_code(), 2);
}

#[test]
fn test_blob_dedup() {
    let mut store = new_store();
    let shared = "identical content for dedup test";
    let id1 = add_text_plain(&mut store, shared);
    let id2 = add_text_plain(&mut store, shared);
    let v1 = inspect_output(&store.get_item(parse_uuid(&id1).unwrap()).unwrap());
    let v2 = inspect_output(&store.get_item(parse_uuid(&id2).unwrap()).unwrap());
    let hash1 = &v1.formats[0].blob_hash;
    let hash2 = &v2.formats[0].blob_hash;
    assert_eq!(hash1, hash2, "identical content must share the same blob_hash");
    assert!(!hash1.is_empty(), "blob_hash must not be empty");
}

#[test]
fn test_delete_item_cleanup() {
    let mut store = new_store();
    let id = add_text_plain(&mut store, "to be deleted");
    delete(&mut store, Some(&id), None, None, Timestamp::now()).unwrap();
    assert_eq!(decode(&store, &id, "text/plain").unwrap_err().exit_code(), 2);
    let inspected = store.get_item(parse_uuid(&id).unwrap()).map_err(AppError::Lib);
    assert_eq!(inspected.unwrap_err().exit_code(), 2);
    assert!(list(&store).is_empty(), "list must be empty after delete");
}

#[test]
fn test_delete_mime() {
    let mut store = new_store();
    let png_bytes: Vec<u8> = vec![0x89, b'P', b'N', b'G', 0x00, 0x01];
    let id = add(
        &mut store,
        &["text/plain=-", "image/png=@img.png"],
        b"two format item",
        &[&png_bytes],
    );
    delete(&mut store, Some(&id), Some("image/png"), None, Timestamp::now()).unwrap();
    assert_eq!(decode(&store, &id, "text/plain").unwrap(), "two format item".as_bytes());
    assert_eq!(decode(&store, &id, "image/png").unwrap_err().exit_code(), 2);
}

#[test]
fn test_delete_older_than() {
    let mut store = new_store();
    let id1 = add_text_plain(&mut store, "item one");
    let id2 = add_text_plain(&mut store, "item two");
    let _ = (id1, id2);

    // The command runs a moment after the items were added.
    let now = Timestamp { nanos: Timestamp::now().nanos + 5_000_000 };
    match delete(&mut store, None, None, Some("0s"), now).unwrap() {
        Deleted::Items(deleted) => {
            assert!(deleted >= 2, "must have deleted at least the 2 items we added, got {deleted}")
        }
        other => panic!("unexpected outcome {:?}", other),
    }
    assert!(list(&store).is_empty(), "list must be empty after delete --older-than");
}

#[test]
fn test_derived_label_richclip_label() {
    let mut store = new_store();
    let id = add_text_plain(&mut store, "background text");
    let set = format!("{}=-", LABEL);
    update(&mut store, &id, &[&set], &[], b"screenshot of rust panic").unwrap();
    let items = list(&store);
    let label = items[0].label.as_deref().expect("label must be a string");
    assert_eq!(label, "screenshot of rust panic");
}

#[test]
fn test_label_fallback_text_plain() {
    let mut store = new_store();
    let id = add_text_plain(&mut store, "some copied text");
    let items = list(&store);
    let item = items.iter().find(|i| i.id.to_text() == id).unwrap();
    let label = item.label.as_deref().expect("label must be non-null");
    assert!(!label.is_empty(), "label must be non-empty");
    assert!(
        "some copied text".starts_with(label) || label.starts_with("some copied text"),
        "label '{label}' must be a snippet of the text/plain content"
    );
}

#[test]
fn test_error_contract_human_not_found() {
    let store = new_store();
    let err =
        decode(&store, "00000000-0000-0000-0000-000000000000", "text/plain").unwrap_err();
    assert_eq!(err.exit_code(), 2);
    assert!(error_line(&err).contains("not found"));
    assert_eq!(error_line(&err), "error: not found");
}

#[test]
fn test_error_contract_json_not_found() {
    let mut store = new_store();
    let err = update(
        &mut store,
        "00000000-0000-0000-0000-000000000000",
        &["text/plain=-"],
        &[],
        b"some stdin",
    )
    .unwrap_err();
    assert_eq!(err.exit_code(), 2);
    assert_eq!(err.json_code(), "not_found", "code must be 'not_found'");
    assert!(!err.message().is_empty(), "must have an 'error' message field");
}

#[test]
fn test_inspect_shape() {
    let mut store = new_store();
    let id = add_text_plain(&mut store, "inspect me");
    let v = inspect_output(&store.get_item(parse_uuid(&id).unwrap()).unwrap());
    assert_eq!(v.id.to_text(), id, "id must match");
    assert_eq!(v.created_at, v.updated_at);
    assert!(!v.formats.is_empty(), "formats must be non-empty");
    let fmt = &v.formats[0];
    assert_eq!(fmt.mime, "text/plain");
    assert_eq!(fmt.size, 10);
    assert!(!fmt.blob_hash.is_empty(), "blob_hash must not be empty");
}

#[test]
fn test_derive_label_multibyte_no_panic() {
    let mut store = new_store();
    let long_multibyte: String = "€".repeat(70);
    assert!(long_multibyte.len() > 60, "must be >60 bytes");
    assert_eq!(long_multibyte.chars().count(), 70, "must be 70 chars");

    let id = add_text_plain(&mut store, &long_multibyte);
    let items = list(&store);
    let item = items.iter().find(|i| i.id.to_text() == id).unwrap();
    let label = item.label.as_deref().expect("label must be non-null");
    assert_eq!(
        label.chars().count(),
        60,
        "label must be truncated to exactly 60 characters"
    );
    assert_eq!(label, "€".repeat(60));
}

// Errors

#[test]
fn every_error_has_its_codes_and_text() {
    let cases = [
        (Error::NotFound, 2, "not_found", "not found"),
        (Error::Database("locked".to_string()), 1, "error", "database error: locked"),
        (Error::Io("denied".to_string()), 1, "error", "io error: denied"),
        (Error::Json("eof".to_string()), 1, "error", "json error: eof"),
        (Error::InvalidId("short".to_string()), 1, "error", "invalid id: short"),
        (Error::Other("odd".to_string()), 1, "error", "odd"),
    ];
    for (error, code, name, text) in cases {
        assert_eq!(error.code(), code);
        assert_eq!(error.json_code(), name);
        assert_eq!(error.message(), text);
        let app = AppError::Lib(error);
        assert_eq!(app.exit_code(), code);
        assert_eq!(app.json_code(), name);
        assert_eq!(app.message(), text);
    }
    let usage = AppError::Usage("bad flag".to_string());
    assert_eq!(usage.exit_code(), 1);
    assert_eq!(usage.json_code(), "error");
    assert_eq!(error_line(&usage), "error: bad flag");
}

#[test]
fn ipc_failures_are_usage_errors() {
    assert_eq!(
        daemon_not_running().message(),
        "richclipd is not running; start the daemon first"
    );
    assert_eq!(ipc_error("broken pipe").message(), "IPC error: broken pipe");
}

#[test]
fn a_refused_response_keeps_its_exit_code() {
    let ok = response_to_result(Response::ok(None));
    assert!(ok.is_ok());
    let missing = response_to_result(Response::of_error(&Error::NotFound)).unwrap_err();
    assert_eq!(missing.exit_code(), 2);
    assert_eq!(missing.message(), "not found");
    let other = response_to_result(Response::err("boom".to_string(), "io")).unwrap_err();
    assert_eq!(other.exit_code(), 1);
    assert_eq!(other.message(), "boom");
    let silent = Response { ok: false, error: None, code: None, data: None };
    let err = response_to_result(silent).unwrap_err();
    assert_eq!(err.exit_code(), 1);
    assert_eq!(err.message(), "unknown error");
}

// Arguments

#[test]
fn set_mime_arguments_are_parsed() {
    let srcs = parse_set_mime(&strings(&["a/a=-", "b/b=@x=y", "c/c=@-"])).unwrap();
    assert!(matches!(&srcs[0], MimeSrc::Stdin(m) if m == "a/a"));
    assert!(matches!(&srcs[1], MimeSrc::File(m, p) if m == "b/b" && p == "x=y"));
    assert!(matches!(&srcs[2], MimeSrc::File(m, p) if m == "c/c" && p == "-"));
    assert_eq!(srcs.len(), 3);
    assert!(needs_stdin(&srcs));
    let files = parse_set_mime(&strings(&["b/b=@x"])).unwrap();
    assert!(!needs_stdin(&files));
    assert!(parse_set_mime(&[]).unwrap().is_empty());
}

#[test]
fn set_mime_arguments_are_refused() {
    for (bad, text) in [
        ("text/plain", "--set-mime value must be MIME=SRC (no '=' found in \"text/plain\")"),
        ("=-", "--set-mime value has empty MIME type: \"=-\""),
        ("text/plain=file", "--set-mime source must be '-' or '@path', got \"file\""),
        ("text/plain=", "--set-mime source must be '-' or '@path', got \"\""),
    ] {
        let err = parse_set_mime(&strings(&[bad])).unwrap_err();
        assert_eq!(err.exit_code(), 1);
        assert_eq!(err.message(), text);
    }
    let err = parse_set_mime(&strings(&["a/a=-", "b/b=-"])).unwrap_err();
    assert_eq!(
        err.message(),
        "at most one --set-mime source may be '-' (stdin can only be read once)"
    );
}

#[test]
fn stdin_and_files_are_put_where_they_belong() {
    let srcs = parse_set_mime(&strings(&["a/a=@1", "b/b=-", "c/c=@2"])).unwrap();
    let got = resolve_mime_srcs(&srcs, &b"in".to_vec(), &vec![b"one".to_vec(), b"two".to_vec()]);
    assert_eq!(
        got,
        vec![
            ("a/a".to_string(), b"one".to_vec()),
            ("b/b".to_string(), b"in".to_vec()),
            ("c/c".to_string(), b"two".to_vec()),
        ]
    );
}

#[test]
fn ids_are_parsed_in_every_notation() {
    let id = ItemId { bits: 0x0190a1b2_0000_7000_8000_00000000000a };
    for text in [
        "0190a1b2-0000-7000-8000-00000000000a",
        "0190A1B2-0000-7000-8000-00000000000A",
        "0190a1b200007000800000000000000a",
        "urn:uuid:0190a1b2-0000-7000-8000-00000000000a",
    ] {
        assert_eq!(parse_uuid(text).unwrap(), id);
    }
    let err = parse_uuid("nope").unwrap_err();
    assert_eq!(err.json_code(), "error");
    assert_eq!(err.message(), "invalid id: \"nope\"");
}

#[test]
fn durations_are_parsed() {
    assert_eq!(parse_older_than("0s").unwrap(), (0, 0));
    assert_eq!(parse_older_than("7d").unwrap(), (604_800, 0));
    assert_eq!(parse_older_than("1h 30m").unwrap(), (5_400, 0));
    assert_eq!(parse_older_than("1500ms").unwrap(), (1, 500_000_000));
    let err = parse_older_than("soon").unwrap_err();
    assert_eq!(err.exit_code(), 1);
    assert!(err.message().starts_with("invalid duration \"soon\": "), "{}", err.message());
    assert!(parse_older_than("99999999999999999999s").is_err());
}

#[test]
fn long_texts_of_durations_are_parsed() {
    // Many digits are no harm by themselves.
    assert_eq!(parse_older_than("1000000000000000ns").unwrap(), (1_000_000, 0));
    assert_eq!(parse_older_than("12345678901234567us").unwrap(), (12_345_678_901, 234_567_000));
    assert_eq!(parse_older_than("00000000000000000001.5s").unwrap(), (1, 500_000_000));
    let many = format!("{}1.5s", "1s ".repeat(15));
    assert_eq!(parse_older_than(&many).unwrap(), (16, 500_000_000));
    let spaced = "0001 000 000 000 000s 1.5ms";
    assert_eq!(parse_older_than(spaced).unwrap(), (1_000_000_000_000, 1_500_000));
    assert_eq!(parse_older_than("00000000000000001month 5ms").unwrap(), (2_630_016, 5_000_000));
    // Longer than all dates, with a part below the second.
    let max = u64::MAX;
    assert_eq!(parse_older_than(&format!("{}s 1ms", max - 5)).unwrap(), (max - 5, 1_000_000));
    assert_eq!(
        parse_older_than(&format!("{max}s 999999999ns")).unwrap(),
        (max, 999_999_999)
    );
    assert_eq!(parse_older_than(&format!("{}s 1000ms", max - 1)).unwrap(), (max, 0));
    let padded = format!("1.5s{}", " ".repeat(1_000));
    assert_eq!(parse_older_than(&padded).unwrap(), (1, 500_000_000));
    // One nanosecond more than the longest.
    let large = "number is too large or cannot be represented without a lack of precision \
                 (values below 1ns are not supported)";
    for text in [
        format!("{max}s 1000ms"),
        format!("{max}s 999999999ns 1ns"),
        format!("{}s 1s 0.5s 0.5s", max - 1),
        format!("{}s 1m 1000000us", max - 60),
        format!("{max}s 1s"),
        "18446744073709551616s".to_string(),
    ] {
        let err = parse_older_than(&text).unwrap_err();
        assert_eq!(err.message(), format!("invalid duration {text:?}: {large}"));
    }
    // Without one.
    assert_eq!(parse_older_than("18446744073709551615s").unwrap(), (u64::MAX, 0));
}

#[test]
fn an_update_needs_something_to_do() {
    let err = plan_update("00000000-0000-0000-0000-000000000000", &vec![], &vec![]).unwrap_err();
    assert_eq!(err.exit_code(), 1);
    assert_eq!(
        err.message(),
        "update requires at least one of --set-mime or --remove-mime"
    );
    let plan = plan_update(
        "00000000-0000-0000-0000-000000000007",
        &strings(&["a/a=-"]),
        &strings(&["b/b"]),
    )
    .unwrap();
    assert_eq!(plan.id, ItemId { bits: 7 });
    assert_eq!(plan.remove_mimes, ["b/b"]);
    match update_request(plan.id, vec![("a/a".to_string(), b"x".to_vec())], plan.remove_mimes) {
        Request::UpdateItem(p) => {
            assert_eq!(p.id, ItemId { bits: 7 });
            assert_eq!(p.set_formats[0].0, "a/a");
            assert_eq!(p.remove_mimes, ["b/b"]);
        }
        other => panic!("unexpected request {:?}", other),
    }
}

#[test]
fn deletions_are_planned() {
    let id = "00000000-0000-0000-0000-000000000007".to_string();
    match plan_delete(&None, &None, &Some("2h".to_string())).unwrap() {
        DeletePlan::OlderThan { secs, nanos } => assert_eq!((secs, nanos), (7_200, 0)),
        other => panic!("unexpected plan {:?}", other),
    }
    let format = plan_delete(&Some(id.clone()), &Some("a/a".to_string()), &None).unwrap();
    assert!(matches!(&format, DeletePlan::Format { id, mime } if id.bits == 7 && mime == "a/a"));
    let now = Timestamp { nanos: 9_000_000_000 };
    match delete_request(&format, now) {
        Request::UpdateItem(p) => {
            assert_eq!(p.remove_mimes, ["a/a"]);
            assert!(p.set_formats.is_empty());
        }
        other => panic!("unexpected request {:?}", other),
    }
    let item = plan_delete(&Some(id), &None, &None).unwrap();
    assert!(matches!(&item, DeletePlan::Item { id } if id.bits == 7));
    assert!(matches!(delete_request(&item, now), Request::DeleteItem { id } if id.bits == 7));
    match delete_request(&DeletePlan::OlderThan { secs: 1, nanos: 5 }, now) {
        Request::DeleteOlderThan { cutoff } => assert_eq!(cutoff.nanos, 7_999_999_995),
        other => panic!("unexpected request {:?}", other),
    }
    let some = |s: &str| Some(s.to_string());
    assert_eq!(
        plan_delete(&None, &None, &None).unwrap_err().message(),
        "must specify either <id> or --older-than"
    );
    assert_eq!(
        plan_delete(&some("x"), &None, &some("1s")).unwrap_err().message(),
        "cannot use both <id> and --older-than"
    );
    assert_eq!(
        plan_delete(&None, &some("a/a"), &some("1s")).unwrap_err().message(),
        "--mime requires an item <id>"
    );
    assert_eq!(
        plan_delete(&some("x"), &None, &None).unwrap_err().message(),
        "invalid id: \"x\""
    );
}

#[test]
fn nothing_is_older_than_all_dates() {
    let mut store = new_store();
    add_text_plain(&mut store, "kept");
    for secs in [1_000_000_000_000, i64::MAX as u64, u64::MAX] {
        let plan = DeletePlan::OlderThan { secs, nanos: 0 };
        let deleted = run_delete(&mut store, &plan, Timestamp::now()).unwrap();
        assert!(matches!(deleted, Deleted::Items(0)));
    }
    assert_eq!(list(&store).len(), 1);
}

#[test]
fn deletions_are_reported() {
    assert_eq!(deleted_line(&Deleted::Items(3)).unwrap(), "deleted 3 items");
    assert!(deleted_line(&Deleted::Named).is_none());
    let told = deleted_by(&Response::ok(Some(Payload::Deleted(3))));
    assert!(matches!(told, Deleted::Items(3)));
    assert!(matches!(deleted_by(&Response::ok(None)), Deleted::Named));
}

#[test]
fn requests_and_answers_of_add() {
    match add_request(vec![("a/a".to_string(), b"x".to_vec())]) {
        Request::AddItem(p) => assert_eq!(p.formats[0].1, b"x"),
        other => panic!("unexpected request {:?}", other),
    }
    let id = ItemId { bits: 1 };
    assert_eq!(
        added_id(&Response::ok(Some(Payload::Id(id)))),
        "00000000-0000-0000-0000-000000000001"
    );
    assert_eq!(added_id(&Response::ok(None)), "");
}

// Labels and lines

#[test]
fn labels_are_first_lines_cut_short() {
    let bytes = |s: &str| Some(s.as_bytes().to_vec());
    assert_eq!(label_from(&bytes("  a label \n"), &bytes("text")).unwrap(), "a label");
    assert_eq!(label_from(&bytes("  "), &bytes("first\nsecond")).unwrap(), "first");
    assert!(label_from(&None, &bytes("\nsecond")).is_none());
    assert_eq!(label_from(&None, &bytes(&"x".repeat(80))).unwrap(), "x".repeat(60));
    assert!(label_from(&None, &None).is_none());
    assert!(label_from(&None, &Some(vec![0xff, 0xfe])).is_none());
    let mut store = new_store();
    let id = add(&mut store, &["image/png=-"], b"png", &[]);
    assert!(derive_label(&store, parse_uuid(&id).unwrap()).is_none());
}

#[test]
fn labels_come_from_two_types() {
    assert!(is_label_source("application/x-richclip-label"));
    assert!(is_label_source("text/plain"));
    assert!(!is_label_source("text/plain;charset=utf-8"));
    assert!(!is_label_source("text/html"));
}

#[test]
fn ages_are_told_in_words() {
    let now = Timestamp { nanos: 1_000_000_000_000 };
    let at = |secs: i128| Timestamp { nanos: (1000 - secs) * 1_000_000_000 };
    assert_eq!(relative_time(now, at(0)), "0s ago");
    assert_eq!(relative_time(now, at(-5)), "0s ago");
    assert_eq!(relative_time(now, at(59)), "59s ago");
    assert_eq!(relative_time(now, at(90)), "1m ago");
    assert_eq!(ago_text(5, "ignored"), "5s ago");
    assert_eq!(ago_text(90_061, "1day 1h 1m 1s"), "1day ago");
    assert_eq!(ago_text(60, " "), "? ago");
}

#[test]
fn listings_are_aligned() {
    let mut store = new_store();
    let id = ItemId { bits: 0xabc };
    let at = Timestamp { nanos: 1_000_000_000_000 };
    store
        .add_item_at(
            id,
            at,
            &[("text/plain".to_string(), b"hi".to_vec()), ("text/html".to_string(), vec![0; 12])],
        )
        .unwrap();
    let entry = store.get_item(id).unwrap();
    let later = Timestamp { nanos: at.nanos + 90_000_000_000 };
    let line = list_line(&store, &entry, later);
    assert_eq!(line, format!("{}\t1m ago\ttext/plain, text/html\thi", id.to_text()));
    assert_eq!(list_lines(&store, None, None, later).unwrap(), [line]);
    assert_eq!(list_lines(&store, Some(0), None, later).unwrap().len(), 0);
    assert_eq!(list_lines(&store, None, Some("image/png"), later).unwrap().len(), 0);
    let plain = entry.formats.iter().find(|f| f.mime == "text/html").unwrap();
    assert_eq!(format_line(plain), format!("{:<40} {:>10}", "text/html", 12));
}

#[test]
fn a_thumbnail_field_needs_the_file() {
    let id = ItemId { bits: 1 };
    assert_eq!(
        thumbnail_field(Some("/c"), id, true).unwrap(),
        "/c/thumbs/00000000-0000-0000-0000-000000000001.png"
    );
    assert!(thumbnail_field(Some("/c"), id, false).is_none());
}

#[test]
fn entries_report_the_thumbnails_that_exist() {
    let mut store = new_store();
    let now = Timestamp { nanos: 0 };
    for bits in [1_u128, 2] {
        let formats = [("image/png".to_string(), vec![bits as u8])];
        store.add_item_at(ItemId { bits }, now, &formats).unwrap();
    }
    let items = store.list_items(None, None).unwrap();
    let entries = list_entries(&store, &items, Some("/c"), &vec![true, false]);
    assert_eq!(entries.len(), 2);
    assert_eq!(entries[0].id, ItemId { bits: 2 });
    assert_eq!(
        entries[0].thumbnail.as_deref(),
        Some("/c/thumbs/00000000-0000-0000-0000-000000000002.png")
    );
    assert!(entries[1].thumbnail.is_none());
    let entries = list_entries(&store, &items, None, &vec![true, true]);
    assert!(entries.iter().all(|e| e.thumbnail.is_none()));
}

#[test]
fn a_listing_that_fails_names_the_error() {
    let row = richclip::store::db::ItemRow {
        id: "nonsense".to_string(),
        created_at: 0,
        updated_at: 0,
    };
    let store = Store::open(vec![row], vec![], vec![]).unwrap();
    let err = list_lines(&store, None, None, Timestamp { nanos: 0 }).unwrap_err();
    assert_eq!(err.exit_code(), 1);
    assert!(err.message().starts_with("invalid id: "), "{}", err.message());
}

#[test]
fn watch_lines_name_the_event() {
    let id = ItemId { bits: 1 };
    let text = id.to_text();
    let added = WatchEvent::ItemAdded {
        id,
        created_at: Timestamp { nanos: 0 },
        formats: strings(&["a/a", "b/b"]),
    };
    assert_eq!(event_line(&added), format!("item-added {} a/a, b/b", text));
    let updated = WatchEvent::ItemUpdated { id, changed: strings(&["c/c"]) };
    assert_eq!(event_line(&updated), format!("item-updated {} changed: c/c", text));
    assert_eq!(event_line(&WatchEvent::ItemDeleted { id }), format!("item-deleted {}", text));
}

#[test]
fn the_image_flag_adds_the_image_types() {
    let p = watch_params(Some("item-added".to_string()), strings(&["text/plain"]), true);
    assert_eq!(p.event_filter.as_deref(), Some("item-added"));
    assert_eq!(
        p.mime_filters,
        ["text/plain", "image/png", "image/webp", "image/jpeg", "image/bmp"]
    );
    assert!(watch_params(None, vec![], false).mime_filters.is_empty());
}
