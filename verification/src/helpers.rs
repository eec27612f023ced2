use vstd::prelude::*;
use crate::config::Config;

verus! {

/// The size above which the pastebin's log file is cleared: 10 MiB.
pub const MAX_SIZE: u64 = 10485760;

/// What a log file is rewritten with, given its size in bytes (`None` when
/// it does not exist): a missing file is created empty, a file over
/// `MAX_SIZE` is replaced by a short notice, any other file is left alone
/// (`None`).
pub fn size_limit_rewrite(size: Option<u64>) -> (r: Option<String>)
    ensures
        match size {
            None => r.deep_view() == Some(Seq::<char>::empty()),
            Some(n) => if n > MAX_SIZE {
                r.deep_view() == Some("File cleared due to size limit exceeded."@)
            } else {
                r is None
            },
        },
{
    match size {
        None => Some(String::new()),
        Some(n) => {
            if n > MAX_SIZE {
                Some("File cleared due to size limit exceeded.".to_owned())
            } else {
                None
            }
        },
    }
}

/// The body served for `/config`: the expiration and the log name, one
/// per line.
pub fn config_page(config: &Config) -> (r: String)
    requires
        config.expiration is Some,
        config.log_name is Some,
    ensures
        r@ == config.expiration.unwrap()@ + "\n"@ + config.log_name.unwrap()@,
{
    let mut r = String::new();
    match &config.expiration {
        Some(e) => r.append(e.as_str()),
        None => {},
    }
    r.append("\n");
    match &config.log_name {
        Some(l) => r.append(l.as_str()),
        None => {},
    }
    r
}

} // verus!
