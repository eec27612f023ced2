use vstd::prelude::*;
use crate::config::Config;
use crate::text::{decimal, trim_white_space, trimmed, u64_to_decimal};

verus! {

/// Whether the server keeps a log at all: the `/log` page and posting to
/// `/` exist unless void mode is on.
pub fn serves_log(config: &Config) -> (b: bool)
    ensures
        b == !(config.void_mode == Some(true)),
{
    match config.void_mode {
        Some(v) => !v,
        None => true,
    }
}

/// Whether events are written to the history log.
pub fn records_history(config: &Config) -> (b: bool)
    ensures
        b == (config.history == Some(true)),
{
    match config.history {
        Some(h) => h,
        None => false,
    }
}

/// The `address:port` the server listens on, the address trimmed.
pub fn listen_address(config: &Config) -> (r: String)
    requires
        config.address is Some,
        config.port is Some,
    ensures
        r@ == trimmed(config.address.unwrap()@) + ":"@ + decimal(config.port.unwrap() as nat),
{
    let mut r = String::new();
    match &config.address {
        Some(a) => {
            let t = trim_white_space(a.as_str());
            r.append(t.as_str());
        },
        None => {},
    }
    r.append(":");
    match config.port {
        Some(p) => {
            let digits = u64_to_decimal(p as u64);
            r.append(digits.as_str());
        },
        None => {},
    }
    r
}

/// A line of the pastebin's log: when it was posted, then the text.
pub fn log_line(timestamp: &str, body: &str) -> (r: String)
    ensures
        r@ == timestamp@ + " |: "@ + body@,
{
    let mut r = String::new();
    r.append(timestamp);
    r.append(" |: ");
    r.append(body);
    r
}

/// A line of the history log: when the event happened, then what it was.
pub fn history_line(timestamp: &str, event: &str) -> (r: String)
    ensures
        r@ == "Event at "@ + timestamp@ + " |: "@ + event@,
{
    let mut r = "Event at ".to_owned();
    r.append(timestamp);
    r.append(" |: ");
    r.append(event);
    r
}

} // verus!
