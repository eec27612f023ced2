use simple_pastebin::config::{parse_duration, resolve_config, try_parse_duration, Config};

fn s(text: &str) -> Option<String> {
    Some(text.to_string())
}

fn empty() -> Config {
    Config {
        address: None,
        port: None,
        expiration: None,
        log_name: None,
        void_mode: None,
        history: None,
        history_log: None,
        log_level: None,
    }
}

#[test]
fn documented_example_expiration() {
    assert_eq!(parse_duration(&s("20d5h2m1s")), 20 * 86400 + 5 * 3600 + 2 * 60 + 1);
    assert_eq!(parse_duration(&s("20d5h2m1s")), 1746121);
}

#[test]
fn default_expiration_is_ten_minutes() {
    assert_eq!(parse_duration(&s("10m")), 600);
}

#[test]
fn each_unit() {
    assert_eq!(parse_duration(&s("1d")), 86400);
    assert_eq!(parse_duration(&s("1h")), 3600);
    assert_eq!(parse_duration(&s("1m")), 60);
    assert_eq!(parse_duration(&s("1s")), 1);
}

#[test]
fn missing_expiration_is_zero() {
    assert_eq!(parse_duration(&None), 0);
    assert_eq!(parse_duration(&s("")), 0);
}

#[test]
fn trailing_number_counts_as_seconds() {
    assert_eq!(parse_duration(&s("90")), 90);
    assert_eq!(parse_duration(&s("5m30")), 330);
}

#[test]
fn unreadable_numbers_count_for_nothing() {
    assert_eq!(parse_duration(&s("abc")), 0);
    assert_eq!(parse_duration(&s("1x2d")), 0);
    assert_eq!(parse_duration(&s("d")), 0);
    assert_eq!(parse_duration(&s("-5m")), 0);
    assert_eq!(parse_duration(&s(" 5m")), 0);
    assert_eq!(parse_duration(&s("x3h2m")), 120);
}

#[test]
fn plus_sign_is_accepted_like_str_parse() {
    assert_eq!(parse_duration(&s("+5m")), 300);
    assert_eq!(parse_duration(&s("+m")), 0);
}

#[test]
fn number_too_large_for_u64_counts_for_nothing() {
    assert_eq!(parse_duration(&s("18446744073709551616s")), 0);
    assert_eq!(parse_duration(&s("18446744073709551615")), u64::MAX);
}

#[test]
fn overflowing_total_is_refused() {
    assert_eq!(try_parse_duration(&s("18446744073709551615d")), None);
    assert_eq!(try_parse_duration(&s("18446744073709551615s1s")), None);
    assert_eq!(try_parse_duration(&s("2m")), Some(120));
}

#[test]
fn pieces_add_up() {
    let whole = parse_duration(&s("1d2h"));
    assert_eq!(whole, parse_duration(&s("1d")) + parse_duration(&s("2h")));
    let whole = parse_duration(&s("3m45"));
    assert_eq!(whole, parse_duration(&s("3m")) + parse_duration(&s("45")));
}

#[test]
fn default_config_has_flags_off() {
    let c = Config::default();
    assert_eq!(c.address, None);
    assert_eq!(c.port, None);
    assert_eq!(c.expiration, None);
    assert_eq!(c.log_name, None);
    assert_eq!(c.void_mode, Some(false));
    assert_eq!(c.history, Some(false));
    assert_eq!(c.history_log, None);
    assert_eq!(c.log_level, None);
}

#[test]
fn defaults_fill_an_unreadable_file() {
    let c = resolve_config(None, empty());
    assert_eq!(c.address, s("0.0.0.0"));
    assert_eq!(c.port, Some(6060));
    assert_eq!(c.expiration, s("10m"));
    assert_eq!(c.log_name, s("input.log"));
    assert_eq!(c.log_level, s("info"));
    assert_eq!(c.void_mode, Some(false));
    assert_eq!(c.history, Some(false));
    assert_eq!(c.history_log, None);
}

#[test]
fn empty_file_keeps_flags_unset() {
    let c = resolve_config(Some(empty()), empty());
    assert_eq!(c.void_mode, None);
    assert_eq!(c.history, None);
    assert_eq!(c.port, Some(6060));
}

#[test]
fn command_line_wins_over_file() {
    let mut file = empty();
    file.port = Some(9876);
    file.address = s("10.0.0.1");
    file.history = Some(true);
    file.history_log = s("h.log");
    let mut cli = empty();
    cli.port = Some(1234);
    cli.history = Some(false);
    let c = resolve_config(Some(file), cli);
    assert_eq!(c.port, Some(1234));
    assert_eq!(c.address, s("10.0.0.1"));
    assert_eq!(c.history, Some(false));
    assert_eq!(c.history_log, s("h.log"));
    assert_eq!(c.expiration, s("10m"));
}

#[test]
fn command_line_values_all_taken() {
    let cli = Config {
        address: s("127.0.0.1"),
        port: Some(8080),
        expiration: s("1h"),
        log_name: s("logs/x.log"),
        void_mode: Some(true),
        history: Some(true),
        history_log: s("hist.log"),
        log_level: s("error"),
    };
    let c = resolve_config(None, cli);
    assert_eq!(c.address, s("127.0.0.1"));
    assert_eq!(c.port, Some(8080));
    assert_eq!(c.expiration, s("1h"));
    assert_eq!(c.log_name, s("logs/x.log"));
    assert_eq!(c.void_mode, Some(true));
    assert_eq!(c.history, Some(true));
    assert_eq!(c.history_log, s("hist.log"));
    assert_eq!(c.log_level, s("error"));
}
