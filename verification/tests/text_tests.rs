use simple_pastebin::helpers::{config_page, size_limit_rewrite, MAX_SIZE};
use simple_pastebin::server::{history_line, listen_address, log_line, records_history, serves_log};
use simple_pastebin::config::Config;
use simple_pastebin::text::{
    i64_to_decimal, parse_u64_chars, to_chars, trim_white_space,
    u64_to_decimal,
};

fn config() -> Config {
    Config {
        address: Some("  0.0.0.0 \n".to_string()),
        port: Some(6060),
        expiration: Some("10m".to_string()),
        log_name: Some("input.log".to_string()),
        void_mode: None,
        history: None,
        history_log: None,
        log_level: None,
    }
}

#[test]
fn decimal_writing() {
    assert_eq!(u64_to_decimal(0), "0");
    assert_eq!(u64_to_decimal(6060), "6060");
    assert_eq!(u64_to_decimal(u64::MAX), u64::MAX.to_string());
    assert_eq!(i64_to_decimal(-42), "-42");
    assert_eq!(i64_to_decimal(i64::MIN), i64::MIN.to_string());
    assert_eq!(i64_to_decimal(7), "7");
}

#[test]
fn decimal_reads_back() {
    for n in [0u64, 9, 10, 12345, u64::MAX] {
        let text = u64_to_decimal(n);
        assert_eq!(parse_u64_chars(&to_chars(&text)), Some(n));
    }
}

#[test]
fn parse_like_str_parse() {
    for text in ["", "+", "+7", "07", "12a", "-1", "18446744073709551615", "18446744073709551616", "٣"] {
        assert_eq!(parse_u64_chars(&to_chars(text)), text.parse::<u64>().ok(), "{}", text);
    }
}

#[test]
fn trim_like_str_trim() {
    for text in ["", "  ", " a b ", "\t\nx\u{3000}", "\u{85}y\u{a0}", "z"] {
        assert_eq!(trim_white_space(text), text.trim());
    }
}

#[test]
fn chars_in_order() {
    let text = "héllo → wörld";
    assert_eq!(to_chars(text), text.chars().collect::<Vec<char>>());
}

#[test]
fn oversized_files_are_cleared() {
    assert_eq!(MAX_SIZE, 10 * 1024 * 1024);
    assert_eq!(size_limit_rewrite(None), Some(String::new()));
    assert_eq!(
        size_limit_rewrite(Some(MAX_SIZE + 1)),
        Some("File cleared due to size limit exceeded.".to_string())
    );
    assert_eq!(size_limit_rewrite(Some(MAX_SIZE)), None);
    assert_eq!(size_limit_rewrite(Some(0)), None);
}

#[test]
fn config_page_lists_expiration_and_log() {
    assert_eq!(config_page(&config()), "10m\ninput.log");
}

#[test]
fn listen_address_trims() {
    assert_eq!(listen_address(&config()), "0.0.0.0:6060");
}

#[test]
fn flags() {
    let mut c = config();
    assert!(serves_log(&c));
    assert!(!records_history(&c));
    c.void_mode = Some(true);
    c.history = Some(true);
    assert!(!serves_log(&c));
    assert!(records_history(&c));
    c.void_mode = Some(false);
    c.history = Some(false);
    assert!(serves_log(&c));
    assert!(!records_history(&c));
}

#[test]
fn log_lines() {
    assert_eq!(log_line("01/02/24 03:04:05 PM", "hi"), "01/02/24 03:04:05 PM |: hi");
    assert_eq!(history_line("T", "Shutdown"), "Event at T |: Shutdown");
}
