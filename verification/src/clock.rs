//! Elapsed-time values: how long an Exercise took, the session's running
//! total, and the `m:ss` rendering shown in the header.

use std::time::{Duration, Instant};
use vstd::prelude::*;

verus! {

#[verifier::external_type_specification]
#[verifier::external_body]
pub struct ExInstant(Instant);

/// The length of `d` in whole nanoseconds, as `Duration::as_nanos` returns it.
pub uninterp spec fn duration_nanos(d: Duration) -> nat;

/// Nanoseconds in a second.
pub open spec fn nanos_per_second() -> nat {
    1_000_000_000
}

/// The length of `Duration::MAX` (`u64::MAX` seconds and 999 999 999
/// nanoseconds), in nanoseconds.
pub open spec fn max_duration_nanos() -> nat {
    0xffff_ffff_ffff_ffffnat * 1_000_000_000 + 999_999_999
}

/// `Duration::as_secs`: the number of whole seconds in `d`.
#[verifier::external_body]
pub(crate) fn whole_seconds(d: &Duration) -> (r: u64)
    ensures
        r == duration_nanos(*d) / nanos_per_second(),
{
    d.as_secs()
}

/// `Duration::ZERO`: a duration of no time at all.
#[verifier::external_body]
pub(crate) fn zero_duration() -> (r: Duration)
    ensures
        duration_nanos(r) == 0,
{
    Duration::ZERO
}

/// `Duration + Duration` (`Add::add`), which panics when the sum exceeds
/// `Duration::MAX`; the `requires` leaves those sums out.
#[verifier::external_body]
pub(crate) fn add_durations(a: Duration, b: Duration) -> (r: Duration)
    requires
        duration_nanos(a) + duration_nanos(b) <= max_duration_nanos(),
    ensures
        duration_nanos(r) == duration_nanos(a) + duration_nanos(b),
{
    a + b
}

/// `Duration::checked_add`: the sum, or `None` when it would exceed
/// `Duration::MAX`.
#[verifier::external_body]
pub(crate) fn checked_add_durations(a: Duration, b: Duration) -> (r: Option<Duration>)
    ensures
        r is Some <==> duration_nanos(a) + duration_nanos(b) <= max_duration_nanos(),
        r matches Some(d) ==> duration_nanos(d) == duration_nanos(a) + duration_nanos(b),
{
    a.checked_add(b)
}

/// `Instant::now`: the current reading of the monotonic clock. Nothing is
/// stated of it.
#[verifier::external_body]
pub(crate) fn instant_now() -> (r: Instant) {
    Instant::now()
}

/// `Instant::elapsed`: the time since `t`, read from the system clock. What
/// comes back depends on the clock, so nothing is stated of it.
#[verifier::external_body]
fn elapsed_since(t: &Instant) -> (r: Duration) {
    t.elapsed()
}

/// Elapsed wall-clock time of a maybe-started timer. `None` (nothing typed
/// yet) reads as zero, so the header shows `0:00` before the first
/// keystroke.
pub fn elapsed_or_zero(started: Option<Instant>) -> (r: Duration)
    ensures
        started is None ==> duration_nanos(r) == 0,
{
    match started {
        Some(t) => elapsed_since(&t),
        None => zero_duration(),
    }
}

/// The ASCII digit for `d` (0 to 9).
pub open spec fn digit_char(d: nat) -> char {
    ((48 + d) as u32) as char
}

/// The decimal representation of `n`, without leading zeros.
pub open spec fn decimal(n: nat) -> Seq<char>
    decreases n,
{
    if n < 10 {
        seq![digit_char(n)]
    } else {
        decimal(n / 10).push(digit_char(n % 10))
    }
}

/// `n` in decimal, padded with leading zeros to at least two digits.
pub open spec fn two_digits(n: nat) -> Seq<char> {
    if n < 10 {
        seq!['0', digit_char(n)]
    } else {
        decimal(n)
    }
}

/// `m:ss` for a whole number of seconds.
pub open spec fn elapsed_text(total_seconds: nat) -> Seq<char> {
    decimal(total_seconds / 60) + seq![':'] + two_digits(total_seconds % 60)
}

fn digit(d: u64) -> (r: char)
    requires
        d < 10,
    ensures
        r == digit_char(d as nat),
{
    ((d as u8) + 48) as char
}

/// Append the decimal digits of `n` to `out`.
pub fn push_decimal(n: u64, out: &mut Vec<char>)
    ensures
        final(out)@ == old(out)@ + decimal(n as nat),
    decreases n,
{
    if n >= 10 {
        push_decimal(n / 10, out);
    }
    let d = digit(n % 10);
    out.push(d);
    proof {
        if n < 10 {
            assert(old(out)@ + decimal(n as nat) =~= old(out)@.push(d));
        } else {
            assert(old(out)@ + decimal(n as nat) =~= old(out)@ + decimal((n / 10) as nat) + seq![d]);
        }
    }
}

/// The elapsed time as `m:ss`: whole minutes, then whole seconds padded to
/// two digits.
pub fn format_elapsed(d: Duration) -> (r: String)
    ensures
        r@ == elapsed_text(duration_nanos(d) / nanos_per_second()),
{
    let total = whole_seconds(&d);
    let mins = total / 60;
    let secs = total % 60;
    let mut out: Vec<char> = Vec::new();
    push_decimal(mins, &mut out);
    out.push(':');
    if secs < 10 {
        out.push('0');
    }
    push_decimal(secs, &mut out);
    proof {
        assert(out@ =~= elapsed_text(total as nat));
    }
    crate::text::string_of(out.as_slice())
}

} // verus!
