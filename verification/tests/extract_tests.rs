use gacha_urls::extract::parse_wishes_urls;
use gacha_urls::game::Game;
use gacha_urls::url::build_data_url;

#[test]
fn scenario_single_record_and_backend_url() {
    let buffer =
        b"...gacha-v2/abc\0garbage\x001/0/https://host/index.html?a=1&init_type=301&b=2\0tail\n";
    let urls = parse_wishes_urls(buffer);
    assert_eq!(urls, vec!["https://host/index.html?a=1&init_type=301&b=2".to_string()]);

    let backend = build_data_url(&urls[0], Game::Genshin);
    assert_eq!(
        backend,
        Some(
            "https://hk4e-api-os.hoyoverse.com/event/gacha_info/api/getGachaLog?a=1&init_type=301&b=2&gacha_type=301"
                .to_string()
        )
    );
}

#[test]
fn three_records_come_back_newest_first() {
    let buffer = b"xx gacha-v2/a\x001/0/u1\nyy gacha-v2/b\x001/0/u2\nzz gacha-v2/c\x001/0/u3";
    let urls = parse_wishes_urls(buffer);
    assert_eq!(urls, vec!["u3".to_string(), "u2".to_string(), "u1".to_string()]);
}

#[test]
fn buffer_without_marker_yields_nothing() {
    let buffer = b"plain\0lines\nwithout\0the\0magic\nsubstring 1/0/https://host\n";
    let urls = parse_wishes_urls(buffer);
    assert!(urls.is_empty());
}

#[test]
fn empty_buffer_yields_nothing() {
    let urls = parse_wishes_urls(b"");
    assert!(urls.is_empty());
}

#[test]
fn record_without_prefixed_field_is_skipped() {
    let buffer = b"gacha-v2/x\0nope\0still nope\ngacha-v2/y\x001/0/kept\n";
    let urls = parse_wishes_urls(buffer);
    assert_eq!(urls, vec!["kept".to_string()]);
}

#[test]
fn identical_buffers_give_identical_results() {
    let buffer = b"gacha-v2/a\x001/0/u1\nnoise\ngacha-v2/b\x001/0/u2";
    let first = parse_wishes_urls(buffer);
    let second = parse_wishes_urls(buffer);
    assert_eq!(first, second);
}

#[test]
fn duplicate_urls_are_kept() {
    let buffer = b"gacha-v2/a\x001/0/same\ngacha-v2/b\x001/0/same";
    let urls = parse_wishes_urls(buffer);
    assert_eq!(urls, vec!["same".to_string(), "same".to_string()]);
}

#[test]
fn invalid_bytes_are_replaced_during_decoding() {
    let buffer = b"gacha-v2/a\x001/0/ab\xffcd";
    let urls = parse_wishes_urls(buffer);
    assert_eq!(urls, vec!["ab\u{fffd}cd".to_string()]);
}

#[test]
fn first_prefixed_field_wins_within_a_record() {
    let buffer = b"gacha-v2/a\x001/0/first\x001/0/second";
    let urls = parse_wishes_urls(buffer);
    assert_eq!(urls, vec!["first".to_string()]);
}
