//! Error messages, wall-clock timing and memory measurement used by the
//! contraction reports.
use vstd::prelude::*;

verus! {

/// An error message with the given text.
pub fn message(text: &str) -> (s: String)
    ensures
        s@ == text@,
{
    text.to_owned()
}

/// The ASCII digit for `d < 10`.
pub open spec fn digit_char(d: nat) -> char {
    (48 + d) as char
}

/// The decimal digits of `n`, most significant first, without leading zeros.
pub open spec fn decimal(n: nat) -> Seq<char>
    decreases n,
{
    if n < 10 {
        seq![digit_char(n)]
    } else {
        decimal(n / 10).push(digit_char(n % 10))
    }
}

/// `prefix`, a space, and `value` in decimal.
pub open spec fn number_text(prefix: Seq<char>, value: nat) -> Seq<char> {
    prefix.push(' ') + decimal(value)
}

/// `prefix`, a space, `value` in decimal, " during " and `operation`.
pub open spec fn promotion_text(prefix: Seq<char>, value: nat, operation: Seq<char>) -> Seq<char> {
    number_text(prefix, value) + seq![' ', 'd', 'u', 'r', 'i', 'n', 'g', ' '] + operation
}

/// Formats `prefix`, a space and `value` with `std::format!`. `Display` of an
/// unsigned integer writes its decimal digits without leading zeros, so the
/// text is `number_text` of the arguments.
#[verifier::external_body]
pub fn message_with_number(prefix: &str, value: u128) -> (text: String)
    ensures
        text@ == number_text(prefix@, value as nat),
{
    format!("{prefix} {value}")
}

/// Formats `prefix`, a space, `value`, " during " and `operation` with
/// `std::format!`: the text is `promotion_text` of the arguments.
#[verifier::external_body]
pub fn promotion_message(prefix: &str, value: u128, operation: &str) -> (text: String)
    ensures
        text@ == promotion_text(prefix@, value as nat, operation@),
{
    format!("{prefix} {value} during {operation}")
}

/// Formats `error`, "; compact64 fallback: " and `reason` with
/// `std::format!`: the text is the three pieces one after another.
#[verifier::external_body]
pub fn fallback_message(error: &str, reason: &str) -> (text: String)
    ensures
        text@ == error@ + "; compact64 fallback: "@ + reason@,
{
    format!("{error}; compact64 fallback: {reason}")
}

/// `std::time::Instant`, a reading of the monotonic clock.
#[verifier::external_type_specification]
#[verifier::external_body]
pub struct ExInstant(std::time::Instant);

/// Reads the monotonic clock with `std::time::Instant::now`. Nothing is
/// stated of the reading.
#[verifier::external_body]
pub fn now() -> std::time::Instant {
    std::time::Instant::now()
}

/// The time elapsed since `start`, by `std::time::Instant::elapsed`. Nothing is
/// stated of the duration: it depends on the clock.
#[verifier::external_body]
pub fn elapsed(start: &std::time::Instant) -> std::time::Duration {
    start.elapsed()
}

/// `std::time::Duration::ZERO`. Nothing is stated of it beyond its type.
#[verifier::external_body]
pub fn zero_duration() -> std::time::Duration {
    std::time::Duration::ZERO
}

/// `a + b` by `std::time::Duration::saturating_add`. Nothing is stated of the
/// sum: `Duration` is opaque here.
#[verifier::external_body]
pub fn add_durations(a: std::time::Duration, b: std::time::Duration) -> std::time::Duration {
    a.saturating_add(b)
}

/// Peak resident memory of the process. The library measures none and reports
/// zero; a front end may measure it with the operating system's interface.
pub fn peak_rss_bytes() -> (bytes: u64)
    ensures
        bytes == 0,
{
    0
}

} // verus!
