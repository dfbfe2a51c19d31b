//! The game clock: readings of the system's monotonic clock, and times
//! shown as `MM:SS`.
use std::time::{Duration, Instant};
use vstd::prelude::*;

use crate::text::{decimal, push_char, push_decimal_u64};

verus! {

#[verifier::external_type_specification]
#[verifier::external_body]
pub struct ExInstant(std::time::Instant);

/// Calls `Instant::now`: the current reading of the monotonic clock.  It is
/// the time, so nothing is stated of it.
#[verifier::external_body]
pub(crate) fn clock_now() -> Instant {
    Instant::now()
}

/// Calls `Instant::elapsed`: the time since `start`.  It is the time, so
/// nothing is stated of it.
#[verifier::external_body]
pub(crate) fn time_since(start: &Instant) -> Duration {
    start.elapsed()
}

/// Calls `Instant::duration_since`: the time from `earlier` to `later`, zero
/// where `earlier` is later.  `Instant` is opaque here, so nothing is stated
/// of the result.
#[verifier::external_body]
pub(crate) fn time_between(later: &Instant, earlier: &Instant) -> Duration {
    later.duration_since(*earlier)
}

/// The whole milliseconds of a duration, as `Duration::as_millis` gives
/// them.
pub uninterp spec fn millis_of(d: Duration) -> u128;

/// Calls `Duration::as_millis`: the whole milliseconds of `d`, which depend
/// on `d` alone.  `Duration` is opaque here, so the result is named, not
/// spelled out.
#[verifier::external_body]
pub(crate) fn whole_millis(d: &Duration) -> (r: u128)
    ensures
        r == millis_of(*d),
{
    d.as_millis()
}

/// The whole seconds of a duration, as `Duration::as_secs` gives them.
pub uninterp spec fn secs_of(d: Duration) -> u64;

/// Calls `Duration::as_secs`: the whole seconds of `d`, which depend on `d`
/// alone.  `Duration` is opaque here, so the result is named; what is
/// stated besides is that a duration made of `s` whole seconds (`seconds(s)`,
/// see `duration_of_secs`) has `s` whole seconds.
#[verifier::external_body]
pub(crate) fn whole_secs(d: &Duration) -> (r: u64)
    ensures
        r == secs_of(*d),
        forall|s: u64| *d == seconds(s) ==> r == s,
{
    d.as_secs()
}

/// The duration of `secs` whole seconds, as `Duration::from_secs` makes it.
pub uninterp spec fn seconds(secs: u64) -> Duration;

/// Calls `Duration::from_secs`: a duration of `secs` whole seconds.
/// `Duration` is opaque here, so its result is named, not spelled out; the
/// name says only that the same number of seconds gives the same duration.
#[verifier::external_body]
pub(crate) fn duration_of_secs(secs: u64) -> (d: Duration)
    ensures
        d == seconds(secs),
{
    Duration::from_secs(secs)
}

/// A leading zero before a one-digit number: the `{:02}` form of `n`.
pub open spec fn two_digits(n: nat) -> Seq<char> {
    if n < 10 {
        seq!['0'] + decimal(n)
    } else {
        decimal(n)
    }
}

/// A time of `total` seconds as `MM:SS`: the whole minutes, at least two
/// digits of them, a colon and the seconds past them.
pub open spec fn clock_text(total: nat) -> Seq<char> {
    two_digits(total / 60) + seq![':'] + two_digits(total % 60)
}

fn push_two_digits(s: &mut String, n: u64)
    ensures
        final(s)@ == old(s)@ + two_digits(n as nat),
{
    let ghost s0 = s@;
    if n < 10 {
        push_char(s, '0');
    }
    push_decimal_u64(s, n);
    proof {
        assert(s@ =~= s0 + two_digits(n as nat));
    }
}

/// A time of `total_secs` seconds as `MM:SS`.
pub fn format_clock(total_secs: u64) -> (text: String)
    ensures
        text@ == clock_text(total_secs as nat),
{
    let mut text = String::new();
    push_two_digits(&mut text, total_secs / 60);
    push_char(&mut text, ':');
    push_two_digits(&mut text, total_secs % 60);
    proof {
        assert(text@ =~= clock_text(total_secs as nat));
    }
    text
}

/// A duration as `MM:SS`, from its whole seconds (those of a duration of `s`
/// whole seconds being `s`).
pub fn format_time(d: Duration) -> (text: String)
    ensures
        text@ == clock_text(secs_of(d) as nat),
        forall|s: u64| d == seconds(s) ==> text@ == clock_text(s as nat),
{
    let secs = whole_secs(&d);
    format_clock(secs)
}

} // verus!
