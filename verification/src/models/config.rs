//! User settings: the envelope sender and the delay between probes.
use vstd::prelude::*;

use crate::text::{chars_of, owned};

verus! {

/// The envelope sender address and the delay, in milliseconds, between
/// SMTP probes.
#[derive(Debug)]
pub struct Config {
    pub email: String,
    pub delay: i64,
}

impl Default for Config {
    fn default() -> (r: Self)
        ensures
            r.email@ == "default@gmail.com"@,
            r.delay == 0,
    {
        Config { email: owned("default@gmail.com"), delay: 0 }
    }
}

/// Whether a sender address is acceptable: it holds an `@` that is neither
/// its first nor its last character.
pub open spec fn plausible_sender(e: Seq<char>) -> bool {
    e.contains('@') && e[0] != '@' && e.last() != '@'
}

/// Checks a sender address as [`plausible_sender`] describes.
pub fn is_plausible_sender(email: &str) -> (r: bool)
    ensures
        r == plausible_sender(email@),
{
    let v = chars_of(email);
    crate::text::has_char(&v, '@') && v[0] != '@' && v[v.len() - 1] != '@'
}

/// The delay to wait between probes: a negative setting counts as none.
pub fn probe_delay(delay: i64) -> (r: u64)
    ensures
        r == if delay < 0 { 0 } else { delay },
{
    if delay < 0 {
        0
    } else {
        delay as u64
    }
}

} // verus!
