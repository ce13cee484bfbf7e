//! Rows read from and written to batch files.
use vstd::prelude::*;

use crate::text::{decimal, decimal_string};

verus! {

/// One person to look up: the company domain and the person's names.
#[derive(Debug)]
pub struct InputRecord {
    pub domain: String,
    pub first: String,
    pub last: String,
}

/// The outcome for one candidate address.
#[derive(Debug)]
pub struct OutputRecord {
    pub domain: String,
    pub first_name: String,
    pub last_name: String,
    pub email: String,
    /// Confidence of the company pattern that produced the address, if any.
    pub confidence: Option<u8>,
    /// Where that pattern came from ("community", "local"), or empty.
    pub pattern_source: String,
    /// SMTP status: confirmed, rejected, opaque, unverifiable or unknown.
    pub status: String,
    pub passed: bool,
    pub reason: String,
}

/// The value of an [`OutputRecord`].
pub struct OutputView {
    pub domain: Seq<char>,
    pub first_name: Seq<char>,
    pub last_name: Seq<char>,
    pub email: Seq<char>,
    pub confidence: Option<u8>,
    pub pattern_source: Seq<char>,
    pub status: Seq<char>,
    pub passed: bool,
    pub reason: Seq<char>,
}

impl View for OutputRecord {
    type V = OutputView;

    open spec fn view(&self) -> OutputView {
        OutputView {
            domain: self.domain@,
            first_name: self.first_name@,
            last_name: self.last_name@,
            email: self.email@,
            confidence: self.confidence,
            pattern_source: self.pattern_source@,
            status: self.status@,
            passed: self.passed,
            reason: self.reason@,
        }
    }
}

/// How a row's pattern confidence is shown: the number with a percent sign,
/// or a dash when there is none.
pub open spec fn confidence_view(c: Option<u8>) -> Seq<char> {
    match c {
        Some(v) => decimal(v as nat) + "%"@,
        None => "-"@,
    }
}

/// Shows a row's pattern confidence as [`confidence_view`] describes.
pub fn confidence_text(c: Option<u8>) -> (r: String)
    ensures
        r@ == confidence_view(c),
{
    match c {
        Some(v) => {
            let mut r = decimal_string(v as u128);
            r.append("%");
            r
        },
        None => crate::text::owned("-"),
    }
}

} // verus!
