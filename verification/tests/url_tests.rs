use gacha_urls::game::Game;
use gacha_urls::history::HistoryArgs;
use gacha_urls::url::build_data_url;

#[test]
fn genshin_query_with_init_type_resolves() {
    let url = "https://host/some/path/index.html?a=1&init_type=301&b=2";
    let backend = build_data_url(url, Game::Genshin);
    assert_eq!(
        backend,
        Some(
            "https://hk4e-api-os.hoyoverse.com/event/gacha_info/api/getGachaLog?a=1&init_type=301&b=2&gacha_type=301"
                .to_string()
        )
    );
}

#[test]
fn hsr_query_with_default_gacha_type_resolves() {
    let url = "https://host/page/index.html?x=9&default_gacha_type=11";
    let backend = build_data_url(url, Game::HSR);
    assert_eq!(
        backend,
        Some(
            "https://api-os-takumi.mihoyo.com/common/gacha_record/api/getGachaLog?x=9&default_gacha_type=11&gacha_type=11"
                .to_string()
        )
    );
}

#[test]
fn missing_key_yields_nothing() {
    let url = "https://host/index.html?a=1&b=2";
    assert_eq!(build_data_url(url, Game::Genshin), None);
    assert_eq!(build_data_url(url, Game::HSR), None);
}

#[test]
fn genshin_key_does_not_satisfy_hsr() {
    let url = "https://host/index.html?init_type=301";
    assert_eq!(build_data_url(url, Game::HSR), None);
}

#[test]
fn whole_string_is_the_query_without_the_marker() {
    let backend = build_data_url("init_type=5", Game::Genshin);
    assert_eq!(
        backend,
        Some(
            "https://hk4e-api-os.hoyoverse.com/event/gacha_info/api/getGachaLog?init_type=5&gacha_type=5"
                .to_string()
        )
    );
}

#[test]
fn last_index_marker_wins() {
    let url = "a/index.html?ignored=1/index.html?init_type=2";
    let backend = build_data_url(url, Game::Genshin);
    assert_eq!(
        backend,
        Some(
            "https://hk4e-api-os.hoyoverse.com/event/gacha_info/api/getGachaLog?init_type=2&gacha_type=2"
                .to_string()
        )
    );
}

#[test]
fn value_stops_at_the_next_ampersand() {
    let url = "https://host/index.html?init_type=200&rest=9";
    let backend = build_data_url(url, Game::Genshin).unwrap();
    assert!(backend.ends_with("&gacha_type=200"));
}

#[test]
fn value_after_first_key_occurrence_is_taken() {
    let url = "https://host/index.html?a=1&init_type=7&init_type=9";
    let backend = build_data_url(url, Game::Genshin).unwrap();
    assert!(backend.ends_with("&gacha_type=7"));
}

#[test]
fn value_runs_to_the_end_when_no_ampersand_follows() {
    let url = "https://host/index.html?init_type=7init_type=9";
    let backend = build_data_url(url, Game::Genshin).unwrap();
    assert!(backend.ends_with("&gacha_type=7init_type=9"));
}

#[test]
fn value_at_end_of_query_runs_to_the_end() {
    let url = "https://host/index.html?a=1&init_type=42";
    let backend = build_data_url(url, Game::Genshin).unwrap();
    assert!(backend.ends_with("&init_type=42&gacha_type=42"));
}

#[test]
fn history_args_carry_the_command_options() {
    let args = HistoryArgs {
        game_path: String::from("/games/genshin"),
        reverse_order: true,
        open_first_url: false,
        max_return_num: 3,
    };
    assert_eq!(args.game_path, "/games/genshin");
    assert!(args.reverse_order);
    assert!(!args.open_first_url);
    assert_eq!(args.max_return_num, 3);
}
