use vstd::prelude::*;
use crate::text::{
    all_digits, decimal, digits_value, is_ascii_digit, lemma_decimal_round_trip,
    lemma_parse_reads_decimal, lemma_parse_reads_digits, parse_u64, parse_u64_chars, to_chars,
};

verus! {

/// Server settings. Every field may be absent; `resolve_config` fills in
/// the documented defaults.
#[derive(Debug)]
pub struct Config {
    pub address: Option<String>,
    pub port: Option<u16>,
    pub expiration: Option<String>,
    pub log_name: Option<String>,
    pub void_mode: Option<bool>,
    pub history: Option<bool>,
    pub history_log: Option<String>,
    pub log_level: Option<String>,
}

/// The contents of a `Config`, strings taken as character sequences.
pub struct ConfigView {
    pub address: Option<Seq<char>>,
    pub port: Option<u16>,
    pub expiration: Option<Seq<char>>,
    pub log_name: Option<Seq<char>>,
    pub void_mode: Option<bool>,
    pub history: Option<bool>,
    pub history_log: Option<Seq<char>>,
    pub log_level: Option<Seq<char>>,
}

impl View for Config {
    type V = ConfigView;

    open spec fn view(&self) -> ConfigView {
        ConfigView {
            address: self.address.deep_view(),
            port: self.port,
            expiration: self.expiration.deep_view(),
            log_name: self.log_name.deep_view(),
            void_mode: self.void_mode,
            history: self.history,
            history_log: self.history_log.deep_view(),
            log_level: self.log_level.deep_view(),
        }
    }
}

/// The configuration used when `config.toml` cannot be read as one:
/// nothing set but the two flags, which are off.
pub open spec fn default_config() -> ConfigView {
    ConfigView {
        address: None,
        port: None,
        expiration: None,
        log_name: None,
        void_mode: Some(false),
        history: Some(false),
        history_log: None,
        log_level: None,
    }
}

impl Default for Config {
    fn default() -> (c: Self)
        ensures
            c@ == default_config(),
    {
        Config {
            address: None,
            port: None,
            expiration: None,
            log_name: None,
            void_mode: Some(false),
            history: Some(false),
            history_log: None,
            log_level: None,
        }
    }
}

/// `first` if it is set, else `second`.
pub open spec fn prefer<T>(first: Option<T>, second: Option<T>) -> Option<T> {
    if first is Some {
        first
    } else {
        second
    }
}

/// `value` if it is set, else `Some(default)`.
pub open spec fn or_default<T>(value: Option<T>, default: T) -> Option<T> {
    if value is Some {
        value
    } else {
        Some(default)
    }
}

/// The effective configuration: a command-line value wins over the file's,
/// and address, port, expiration, log name and log level fall back to
/// `0.0.0.0`, `6060`, `10m`, `input.log` and `info`.
pub open spec fn resolved(file: ConfigView, cli: ConfigView) -> ConfigView {
    ConfigView {
        address: or_default(prefer(cli.address, file.address), "0.0.0.0"@),
        port: or_default(prefer(cli.port, file.port), 6060u16),
        expiration: or_default(prefer(cli.expiration, file.expiration), "10m"@),
        log_name: or_default(prefer(cli.log_name, file.log_name), "input.log"@),
        void_mode: prefer(cli.void_mode, file.void_mode),
        history: prefer(cli.history, file.history),
        history_log: prefer(cli.history_log, file.history_log),
        log_level: or_default(prefer(cli.log_level, file.log_level), "info"@),
    }
}

/// What the file contributes: its settings when it was read as a
/// configuration, the default configuration when it was not.
pub open spec fn file_settings(parsed: Option<ConfigView>) -> ConfigView {
    match parsed {
        Some(c) => c,
        None => default_config(),
    }
}

pub open spec fn parsed_view(parsed: Option<Config>) -> Option<ConfigView> {
    match parsed {
        Some(c) => Some(c@),
        None => None,
    }
}

fn prefer_string(first: Option<String>, second: Option<String>) -> (r: Option<String>)
    ensures
        r.deep_view() == prefer(first.deep_view(), second.deep_view()),
{
    match first {
        Some(s) => Some(s),
        None => second,
    }
}

fn string_or(value: Option<String>, default: &str) -> (r: Option<String>)
    ensures
        r.deep_view() == or_default(value.deep_view(), default@),
{
    match value {
        Some(s) => Some(s),
        None => Some(default.to_owned()),
    }
}

/// Combines the settings read from `config.toml` (`None` when the file
/// could not be parsed) with those given on the command line.
pub fn resolve_config(parsed: Option<Config>, cli: Config) -> (c: Config)
    ensures
        c@ == resolved(file_settings(parsed_view(parsed)), cli@),
{
    let file = match parsed {
        Some(f) => f,
        None => Config::default(),
    };
    let address = string_or(prefer_string(cli.address, file.address), "0.0.0.0");
    let port = match cli.port {
        Some(p) => p,
        None => match file.port {
            Some(p) => p,
            None => 6060,
        },
    };
    let expiration = string_or(prefer_string(cli.expiration, file.expiration), "10m");
    let log_name = string_or(prefer_string(cli.log_name, file.log_name), "input.log");
    let void_mode = match cli.void_mode {
        Some(b) => Some(b),
        None => file.void_mode,
    };
    let history = match cli.history {
        Some(b) => Some(b),
        None => file.history,
    };
    let history_log = prefer_string(cli.history_log, file.history_log);
    let log_level = string_or(prefer_string(cli.log_level, file.log_level), "info");
    Config {
        address,
        port: Some(port),
        expiration,
        log_name,
        void_mode,
        history,
        history_log,
        log_level,
    }
}


/// A value given on the command line takes priority over the one in
/// `config.toml`: `--port 1234` overrides `port = 9876`.
pub proof fn lemma_command_line_wins(file: ConfigView, cli: ConfigView)
    ensures
        cli.address is Some ==> resolved(file, cli).address == cli.address,
        cli.port is Some ==> resolved(file, cli).port == cli.port,
        cli.expiration is Some ==> resolved(file, cli).expiration == cli.expiration,
        cli.log_name is Some ==> resolved(file, cli).log_name == cli.log_name,
        cli.void_mode is Some ==> resolved(file, cli).void_mode == cli.void_mode,
        cli.history is Some ==> resolved(file, cli).history == cli.history,
        cli.history_log is Some ==> resolved(file, cli).history_log == cli.history_log,
        cli.log_level is Some ==> resolved(file, cli).log_level == cli.log_level,
{
}

/// Where neither the command line nor the file sets a field, the file's
/// value is kept, and the fields with a documented default always end up
/// set.
pub proof fn lemma_defaults_fill_gaps(file: ConfigView, cli: ConfigView)
    ensures
        cli.void_mode is None ==> resolved(file, cli).void_mode == file.void_mode,
        cli.history is None ==> resolved(file, cli).history == file.history,
        cli.history_log is None ==> resolved(file, cli).history_log == file.history_log,
        cli.address is None && file.address is None ==> resolved(file, cli).address == Some(
            "0.0.0.0"@,
        ),
        cli.port is None && file.port is None ==> resolved(file, cli).port == Some(6060u16),
        cli.expiration is None && file.expiration is None ==> resolved(file, cli).expiration
            == Some("10m"@),
        cli.log_name is None && file.log_name is None ==> resolved(file, cli).log_name == Some(
            "input.log"@,
        ),
        cli.log_level is None && file.log_level is None ==> resolved(file, cli).log_level
            == Some("info"@),
        resolved(file, cli).address is Some,
        resolved(file, cli).port is Some,
        resolved(file, cli).expiration is Some,
        resolved(file, cli).log_name is Some,
        resolved(file, cli).log_level is Some,
{
}

/// When the command line leaves a field unset, the value from
/// `config.toml` is the one used, for every field: a `port = 9876` in the
/// file is used when no `--port` is given.
pub proof fn lemma_file_used_when_command_line_silent(file: ConfigView, cli: ConfigView)
    ensures
        cli.address is None && file.address is Some ==> resolved(file, cli).address
            == file.address,
        cli.port is None && file.port is Some ==> resolved(file, cli).port == file.port,
        cli.expiration is None && file.expiration is Some ==> resolved(file, cli).expiration
            == file.expiration,
        cli.log_name is None && file.log_name is Some ==> resolved(file, cli).log_name
            == file.log_name,
        cli.void_mode is None ==> resolved(file, cli).void_mode == file.void_mode,
        cli.history is None ==> resolved(file, cli).history == file.history,
        cli.history_log is None ==> resolved(file, cli).history_log == file.history_log,
        cli.log_level is None && file.log_level is Some ==> resolved(file, cli).log_level
            == file.log_level,
{
}

/// Seconds in one of the expiration units `d`, `h`, `m` and `s`.
pub open spec fn unit_seconds(c: char) -> Option<nat> {
    if c == 'd' {
        Some(86400)
    } else if c == 'h' {
        Some(3600)
    } else if c == 'm' {
        Some(60)
    } else if c == 's' {
        Some(1)
    } else {
        None
    }
}

/// What the text `number` contributes in units of `unit` seconds: nothing
/// unless it reads as a `u64`.
pub open spec fn amount(number: Seq<char>, unit: nat) -> nat {
    match parse_u64(number) {
        Some(v) => v * unit,
        None => 0,
    }
}

/// Reading an expiration left to right: the seconds counted so far, and the
/// characters collected since the last unit letter.
pub open spec fn scan_duration(s: Seq<char>) -> (nat, Seq<char>)
    decreases s.len(),
{
    if s.len() == 0 {
        (0, Seq::empty())
    } else {
        let prev = scan_duration(s.drop_last());
        let c = s.last();
        match unit_seconds(c) {
            Some(u) => (prev.0 + amount(prev.1, u), Seq::empty()),
            None => (prev.0, prev.1.push(c)),
        }
    }
}

/// The seconds an expiration such as `20d5h2m1s` stands for: each number
/// followed by `d`, `h`, `m` or `s` counts in that unit, a number left at the
/// end counts as seconds, and text that is not a number counts for nothing.
pub open spec fn duration_of(s: Seq<char>) -> nat {
    let st = scan_duration(s);
    st.0 + amount(st.1, 1)
}

/// The seconds of an optional expiration; none when it is absent.
pub open spec fn expiration_seconds(expiration: Option<Seq<char>>) -> nat {
    match expiration {
        Some(s) => duration_of(s),
        None => 0,
    }
}

/// The running total never falls as more text is read, and the final
/// duration is at least the running total.
proof fn lemma_scan_total_grows(s: Seq<char>, k: int)
    requires
        0 <= k <= s.len(),
    ensures
        scan_duration(s.take(k)).0 <= scan_duration(s).0,
        scan_duration(s).0 <= duration_of(s),
    decreases s.len(),
{
    if k < s.len() {
        assert(s.drop_last().take(k) =~= s.take(k));
        lemma_scan_total_grows(s.drop_last(), k);
    } else {
        assert(s.take(k) =~= s);
    }
}

/// The seconds `expiration` stands for, or `None` when they exceed `u64`.
pub fn try_parse_duration(expiration: &Option<String>) -> (r: Option<u64>)
    ensures
        match r {
            Some(x) => x as nat == expiration_seconds(expiration.deep_view()),
            None => expiration_seconds(expiration.deep_view()) > u64::MAX,
        },
{
    let mut total: u64 = 0;
    let mut number: Vec<char> = Vec::new();
    match expiration {
        Some(text) => {
            let chars = to_chars(text.as_str());
            let n = chars.len();
            let mut i: usize = 0;
            while i < n
                invariant
                    i <= n,
                    n == chars.len(),
                    chars@ == text@,
                    expiration.deep_view() == Some(text@),
                    (total as nat, number@) == scan_duration(chars@.take(i as int)),
                decreases n - i,
            {
                let c = chars[i];
                let ghost prefix = chars@.take(i as int);
                assert(chars@.take(i + 1).drop_last() =~= prefix);
                assert(chars@.take(i + 1).last() == c);
                let unit: u64 = if c == 'd' {
                    86400
                } else if c == 'h' {
                    3600
                } else if c == 'm' {
                    60
                } else if c == 's' {
                    1
                } else {
                    0
                };
                if unit > 0 {
                    match parse_u64_chars(&number) {
                        Some(v) => {
                            match v.checked_mul(unit) {
                                Some(p) => {
                                    match total.checked_add(p) {
                                        Some(t) => {
                                            total = t;
                                        },
                                        None => {
                                            proof {
                                                lemma_scan_total_grows(chars@, i + 1);
                                            }
                                            return None;
                                        },
                                    }
                                },
                                None => {
                                    proof {
                                        lemma_scan_total_grows(chars@, i + 1);
                                    }
                                    return None;
                                },
                            }
                        },
                        None => {},
                    }
                    number = Vec::new();
                } else {
                    number.push(c);
                }
                i = i + 1;
            }
            assert(chars@.take(n as int) =~= chars@);
        },
        None => {},
    }
    match parse_u64_chars(&number) {
        Some(v) => total.checked_add(v),
        None => Some(total),
    }
}

/// The seconds `expiration` stands for. The total must fit in a `u64`:
/// the sum is computed in `u64` arithmetic, which has no value for a larger
/// total (`try_parse_duration` reports such totals as `None`).
pub fn parse_duration(expiration: &Option<String>) -> (r: u64)
    requires
        expiration_seconds(expiration.deep_view()) <= u64::MAX,
    ensures
        r as nat == expiration_seconds(expiration.deep_view()),
{
    match try_parse_duration(expiration) {
        Some(x) => x,
        None => 0,
    }
}


/// Reading `b` after text that ended on a unit letter adds to what was
/// counted and leaves `b`'s pending number as it is.
proof fn lemma_scan_after_unit(a: Seq<char>, b: Seq<char>)
    requires
        scan_duration(a).1.len() == 0,
    ensures
        scan_duration(a + b).0 == scan_duration(a).0 + scan_duration(b).0,
        scan_duration(a + b).1 == scan_duration(b).1,
    decreases b.len(),
{
    if b.len() == 0 {
        assert(a + b =~= a);
    } else {
        assert((a + b).drop_last() =~= a + b.drop_last());
        assert((a + b).last() == b.last());
        lemma_scan_after_unit(a, b.drop_last());
    }
}

/// An expiration written as two pieces, the first ending in a unit letter,
/// lasts as long as the two pieces together: `1d2h` lasts `1d` plus `2h`.
pub proof fn lemma_expiration_pieces_add(a: Seq<char>, b: Seq<char>)
    requires
        a.len() > 0,
        unit_seconds(a.last()) is Some,
    ensures
        duration_of(a + b) == duration_of(a) + duration_of(b),
{
    assert(parse_u64(Seq::<char>::empty()) is None);
    lemma_scan_after_unit(a, b);
}


/// Text without unit letters is only collected, never counted.
proof fn lemma_scan_without_units(s: Seq<char>)
    requires
        forall|i: int| 0 <= i < s.len() ==> unit_seconds(#[trigger] s[i]) is None,
    ensures
        scan_duration(s).0 == 0,
        scan_duration(s).1 == s,
    decreases s.len(),
{
    if s.len() > 0 {
        assert(unit_seconds(s[s.len() - 1]) is None);
        lemma_scan_without_units(s.drop_last());
        assert(s.drop_last().push(s.last()) =~= s);
    }
}

proof fn lemma_digits_are_not_units(s: Seq<char>)
    requires
        all_digits(s),
    ensures
        forall|i: int| 0 <= i < s.len() ==> unit_seconds(#[trigger] s[i]) is None,
{
    assert forall|i: int| 0 <= i < s.len() implies unit_seconds(#[trigger] s[i]) is None by {
        assert(is_ascii_digit(s[i]));
    }
}

/// A bare number is read as that many seconds: `90` lasts 90 seconds.
pub proof fn lemma_bare_number_is_seconds(n: nat)
    requires
        n <= u64::MAX,
    ensures
        duration_of(decimal(n)) == n,
{
    lemma_decimal_round_trip(n);
    lemma_parse_reads_decimal(n);
    lemma_digits_are_not_units(decimal(n));
    lemma_scan_without_units(decimal(n));
}

/// A number followed by a unit letter lasts that many units: `5h` lasts
/// five hours, `20d` twenty days.
pub proof fn lemma_number_in_unit(n: nat, unit: char)
    requires
        n <= u64::MAX,
        unit_seconds(unit) is Some,
    ensures
        duration_of(decimal(n).push(unit)) == n * unit_seconds(unit).unwrap(),
{
    lemma_decimal_round_trip(n);
    lemma_parse_reads_decimal(n);
    lemma_digits_are_not_units(decimal(n));
    lemma_scan_without_units(decimal(n));
    assert(decimal(n).push(unit).drop_last() =~= decimal(n));
    assert(parse_u64(Seq::<char>::empty()) is None);
}


/// Every number before a unit letter counts by its value however it is
/// written: for a run of digits `d` that reads as `v`, `d` followed by a
/// unit letter lasts `v` of that unit (`05m` lasts 300 seconds).
pub proof fn lemma_digits_in_unit(d: Seq<char>, unit: char)
    requires
        d.len() > 0,
        all_digits(d),
        digits_value(d) <= u64::MAX,
        unit_seconds(unit) is Some,
    ensures
        duration_of(d.push(unit)) == digits_value(d) * unit_seconds(unit).unwrap(),
{
    lemma_parse_reads_digits(d);
    lemma_digits_are_not_units(d);
    lemma_scan_without_units(d);
    assert(d.push(unit).drop_last() =~= d);
    assert(parse_u64(Seq::<char>::empty()) is None);
}

/// A run of digits with nothing after it counts as that many seconds,
/// however it is written (`007` lasts 7 seconds).
pub proof fn lemma_bare_digits_are_seconds(d: Seq<char>)
    requires
        d.len() > 0,
        all_digits(d),
        digits_value(d) <= u64::MAX,
    ensures
        duration_of(d) == digits_value(d),
{
    lemma_parse_reads_digits(d);
    lemma_digits_are_not_units(d);
    lemma_scan_without_units(d);
}

} // verus!
