use richclip::filter::{
    accepted_mimes, is_sensitive, mime_base_type, within_size_limits, AcceptedMime, CaptureConfig,
};

fn cfg() -> CaptureConfig {
    CaptureConfig::default()
}

// mime_base_type

#[test]
fn base_type_plain() {
    assert_eq!(mime_base_type("text/plain"), "text/plain");
}

#[test]
fn base_type_with_charset() {
    assert_eq!(mime_base_type("text/plain;charset=utf-8"), "text/plain");
}

#[test]
fn base_type_with_space_before_param() {
    // Some apps include a space after ';'.
    assert_eq!(mime_base_type("text/html; charset=utf-8"), "text/html");
}

// accepted_mimes

/// Helper: the `store_as` (normalized) types, in order.
fn store_as(offered: &[String]) -> Vec<String> {
    accepted_mimes(&cfg(), offered)
        .into_iter()
        .map(|a| a.store_as)
        .collect()
}

#[test]
fn accept_allowed_plain() {
    let offered = vec!["text/plain".into()];
    let result = accepted_mimes(&cfg(), &offered);
    assert_eq!(
        result,
        vec![AcceptedMime {
            offered: "text/plain".into(),
            store_as: "text/plain".into(),
        }]
    );
}

#[test]
fn accept_charset_variant() {
    // text/plain;charset=utf-8 -> received verbatim, stored as text/plain.
    let offered = vec!["text/plain;charset=utf-8".into()];
    let result = accepted_mimes(&cfg(), &offered);
    assert_eq!(
        result,
        vec![AcceptedMime {
            offered: "text/plain;charset=utf-8".into(),
            store_as: "text/plain".into(),
        }]
    );
}

#[test]
fn deny_unlisted_mime() {
    let offered = vec!["application/octet-stream".into()];
    assert!(accepted_mimes(&cfg(), &offered).is_empty());
}

#[test]
fn deny_x_richclip_internal() {
    let offered = vec!["application/x-richclip-label".into()];
    assert!(accepted_mimes(&cfg(), &offered).is_empty());
}

#[test]
fn accept_image_png() {
    assert_eq!(store_as(&["image/png".into()]), vec!["image/png"]);
}

#[test]
fn accept_preserves_offer_order() {
    let offered = vec!["image/png".into(), "text/html".into(), "text/plain".into()];
    assert_eq!(
        store_as(&offered),
        vec!["image/png", "text/html", "text/plain"]
    );
}

#[test]
fn deduplicates_same_base_type() {
    // Two MIMEs with the same base type: first occurrence wins (and the
    // first one's advertised string is the one we'd receive).
    let offered = vec!["text/plain".into(), "text/plain;charset=utf-8".into()];
    let result = accepted_mimes(&cfg(), &offered);
    assert_eq!(
        result,
        vec![AcceptedMime {
            offered: "text/plain".into(),
            store_as: "text/plain".into(),
        }]
    );
}

#[test]
fn accept_case_insensitive() {
    // MIME types are case-insensitive; offered string preserved, stored lowercase.
    let result = accepted_mimes(&cfg(), &["TEXT/PLAIN".into()]);
    assert_eq!(
        result,
        vec![AcceptedMime {
            offered: "TEXT/PLAIN".into(),
            store_as: "text/plain".into(),
        }]
    );
}

#[test]
fn deny_mixed_bag_only_some_allowed() {
    let offered = vec![
        "text/plain".into(),
        "application/octet-stream".into(),
        "image/jpeg".into(),
        "application/x-kde-klipper".into(),
    ];
    assert_eq!(store_as(&offered), vec!["text/plain", "image/jpeg"]);
}

// is_sensitive

#[test]
fn sensitive_kde_hint_exact() {
    let mimes = vec!["application/x-kde-passwordManagerHint".into()];
    assert!(is_sensitive(&mimes));
}

#[test]
fn sensitive_kde_hint_case_insensitive() {
    let mimes = vec!["APPLICATION/X-KDE-PASSWORDMANAGERHINT".into()];
    assert!(is_sensitive(&mimes));
}

#[test]
fn sensitive_secret_service_mime() {
    let mimes = vec!["application/x-secret-data".into()];
    assert!(is_sensitive(&mimes));
}

#[test]
fn not_sensitive_normal_text() {
    let mimes = vec!["text/plain".into(), "image/png".into()];
    assert!(!is_sensitive(&mimes));
}

#[test]
fn not_sensitive_nautilus_clipboard() {
    // application/x-nautilus-clipboard must NOT be flagged as sensitive.
    let mimes = vec![
        "application/x-nautilus-clipboard".into(),
        "text/plain".into(),
    ];
    assert!(!is_sensitive(&mimes));
}

#[test]
fn sensitive_when_mixed_with_normal_mimes() {
    // Sensitive hint present alongside normal MIMEs -> still skip everything.
    let mimes = vec![
        "text/plain".into(),
        "image/png".into(),
        "application/x-kde-passwordManagerHint".into(),
    ];
    assert!(is_sensitive(&mimes));
}

#[test]
fn not_sensitive_empty_offer() {
    assert!(!is_sensitive(&[]));
}

// within_size_limits

#[test]
fn size_ok_zero_total() {
    assert!(within_size_limits(&cfg(), 0, 1024));
}

#[test]
fn size_format_at_cap() {
    // Exactly at the per-format cap -> accepted.
    let c = cfg();
    assert!(within_size_limits(&c, 0, c.max_format_bytes));
}

#[test]
fn size_format_over_cap() {
    let c = cfg();
    assert!(!within_size_limits(&c, 0, c.max_format_bytes + 1));
}

#[test]
fn size_item_total_would_exceed() {
    let c = cfg();
    // Already used all item budget; next format (even tiny) is rejected.
    assert!(!within_size_limits(&c, c.max_item_bytes, 1));
}

#[test]
fn size_item_total_exactly_fits() {
    let c = cfg();
    // A format of exactly max_format_bytes with zero running total:
    // the per-format cap is not exceeded (== is allowed) and 0 +
    // max_format_bytes <= max_item_bytes -> accepted.
    // (Using max_item_bytes directly would exceed max_format_bytes,
    // which is half of max_item_bytes, and get rejected by the
    // per-format cap first.)
    assert!(within_size_limits(&c, 0, c.max_format_bytes));
}

#[test]
fn size_small_remaining_budget_rejects_large_format() {
    let c = cfg();
    // 7 MiB used; format is 2 MiB -> total 9 MiB > 8 MiB cap -> rejected.
    let used = 7 * 1024 * 1024;
    let fmt_size = 2 * 1024 * 1024;
    assert!(!within_size_limits(&c, used, fmt_size));
}

#[test]
fn size_small_remaining_budget_accepts_small_format() {
    let c = cfg();
    // 7 MiB used; format is 512 KiB -> total 7.5 MiB < 8 MiB -> accepted.
    let used = 7 * 1024 * 1024;
    let fmt_size = 512 * 1024;
    assert!(within_size_limits(&c, used, fmt_size));
}
