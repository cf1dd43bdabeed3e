use richclip::clock::{from_epoch_ms, to_epoch_ms, Timestamp, MAX_NANOS, MIN_NANOS};
use richclip::ids::ItemId;
use richclip::paths::{
    choose_dir, default_cache_dir, default_data_dir, default_socket_path, join_path, socket_path,
    thumb_path,
};
use richclip::text;

#[test]
fn ids_are_written_with_hyphens() {
    let id = ItemId { bits: 0x0123_4567_89ab_cdef_0123_4567_89ab_cdef };
    assert_eq!(id.to_text(), "01234567-89ab-cdef-0123-456789abcdef");
    assert_eq!(id.to_text(), uuid::Uuid::from_u128(id.bits).to_string());
    assert_eq!(ItemId::nil().to_text(), "00000000-0000-0000-0000-000000000000");
}

#[test]
fn texts_of_ids_sort_as_the_ids_do() {
    let mut bits = vec![0, 1, 9, 10, 15, 16, u128::MAX, 1 << 127, 0xffff, 0x10000, 1 << 64];
    bits.sort();
    let texts: Vec<String> = bits.iter().map(|&bits| ItemId { bits }.to_text()).collect();
    let mut sorted = texts.clone();
    sorted.sort();
    assert_eq!(texts, sorted);
}

#[test]
fn instants_are_stored_in_whole_milliseconds() {
    let t = |nanos: i128| Timestamp { nanos };
    assert_eq!(to_epoch_ms(t(1_999_999)), 1);
    assert_eq!(to_epoch_ms(t(-999_999)), 0);
    assert_eq!(to_epoch_ms(t(-1_000_000)), -1);
    assert_eq!(from_epoch_ms(1_700_000_000_123), t(1_700_000_000_123_000_000));
    assert_eq!(from_epoch_ms(to_epoch_ms(t(5_000_000))), t(5_000_000));
    assert_eq!(from_epoch_ms(i64::MAX), t(0));
    assert_eq!(from_epoch_ms(i64::MIN), t(0));
    assert_eq!(to_epoch_ms(t(MAX_NANOS)), 253_402_300_799_999);
    assert_eq!(from_epoch_ms(253_402_300_799_999).nanos, MAX_NANOS - 999_999);
    assert_eq!(from_epoch_ms(253_402_300_800_000), t(0));
}

#[test]
fn instants_can_be_moved_back() {
    let t = |nanos: i128| Timestamp { nanos };
    let second: i128 = 1_000_000_000;
    assert_eq!(t(5 * second).earlier_by(2, 500_000_000), t(2_500_000_000));
    assert_eq!(t(0).earlier_by(u64::MAX, 0), t(MIN_NANOS));
    assert_eq!(t(MIN_NANOS).earlier_by(0, 1), t(MIN_NANOS));
    assert_eq!(t(MAX_NANOS).earlier_by(631_107_417_599, 999_999_999), t(MIN_NANOS));
    assert_eq!(t(MAX_NANOS).earlier_by(631_107_417_599, 0), t(MIN_NANOS + 999_999_999));
    assert_eq!(t(0).earlier_by_days(1), t(-86_400 * second));
    assert_eq!(t(0).earlier_by_days(1 << 40), t(MIN_NANOS));
    assert_eq!(t(0).earlier_by_days(u64::MAX), t(MIN_NANOS));
    assert_eq!(t(90 * second + 1).since(t(0)), 90);
    assert_eq!(t(0).since(t(1)), 0);
    assert!(Timestamp::now().nanos > 1_600_000_000 * second);
}

#[test]
fn paths_are_joined() {
    assert_eq!(join_path("a", "b"), "a/b");
    assert_eq!(join_path("a/", "b"), "a/b");
    assert_eq!(join_path("", "b"), "b");
    assert_eq!(join_path("a", "/b"), "/b");
    assert_eq!(thumb_path("/c", ItemId::nil()), format!("/c/thumbs/{}.png", ItemId::nil().to_text()));
    assert_eq!(socket_path(Some("/run".to_string()), "/c".to_string()), "/run/richclip.sock");
    assert_eq!(socket_path(None, "/c".to_string()), "/c/richclip.sock");
}

#[test]
fn a_directory_is_chosen() {
    let some = |s: &str| Some(s.to_string());
    assert_eq!(choose_dir(some("a"), some("b"), some("c")).unwrap(), "a");
    assert_eq!(choose_dir(None, some("b"), some("c")).unwrap(), "b");
    assert_eq!(choose_dir(None, None, some("c")).unwrap(), "c");
    assert_eq!(
        choose_dir(None, None, None).unwrap_err().message(),
        "could not determine home directory"
    );
    for dir in [default_data_dir(), default_cache_dir()] {
        match dir {
            Ok(path) => assert!(path.ends_with("/richclip"), "{}", path),
            Err(e) => assert_eq!(e.message(), "could not determine home directory"),
        }
    }
    match default_socket_path(some("/run")) {
        Ok(path) => assert_eq!(path, "/run/richclip.sock"),
        Err(e) => assert_eq!(e.message(), "could not determine home directory"),
    }
}

#[test]
fn numbers_are_written_and_read() {
    for n in [0, 9, 10, 99, 100, u64::MAX] {
        assert_eq!(text::decimal_text(n), n.to_string());
        assert_eq!(text::parse_u64(&n.to_string()), Some(n));
    }
    assert_eq!(text::parse_u64("-1"), None);
    assert_eq!(text::parse_u64(" 1"), None);
    assert_eq!(text::parse_u64("+"), None);
    assert_eq!(text::parse_u64("0000000000000000000000000000001"), Some(1));
}

#[test]
fn texts_are_trimmed_and_padded() {
    assert_eq!(text::trim(" \t\u{a0}x y\u{2003}\n"), "x y");
    assert_eq!(text::trim(""), "");
    assert_eq!(text::pad_right("é", 3), "é  ");
    assert_eq!(text::pad_left("12", 4), "  12");
    assert_eq!(text::pad_left("12345", 4), "12345");
    assert_eq!(text::first_line("a\r\nb"), "a");
    assert_eq!(text::take_chars("€€€", 2), "€€");
}
