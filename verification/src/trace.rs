//! Optional phase traces on stderr (`RTK_INDEX_TRACE=1`): timed spans that
//! say where a call spends its time, at no cost in tokens.

use vstd::prelude::*;
use crate::text::{chars_of, decimal, is_lit, pad_left, pad_right, push_all, push_padded_left, push_padded_right, push_str, string_of};

verus! {

/// Whether the value of `RTK_INDEX_TRACE` turns traces on.
pub open spec fn trace_on(value: Option<Seq<char>>) -> bool {
    match value {
        Some(v) => v == "1"@ || v == "on"@ || v == "true"@ || v == "yes"@,
        None => false,
    }
}

/// Whether traces are on, given the value of `RTK_INDEX_TRACE`.
pub fn enabled_by(value: Option<&str>) -> (r: bool)
    ensures
        r == trace_on(crate::telemetry::opt_view(value)),
{
    match value {
        Some(v) => {
            let c = chars_of(v);
            is_lit(&c, "1") || is_lit(&c, "on") || is_lit(&c, "true") || is_lit(&c, "yes")
        },
        None => false,
    }
}

/// std's monotonic clock reading, declared so that a span can hold one;
/// its contents are opaque to the proofs.
#[verifier::external_type_specification]
#[verifier::external_body]
pub struct ExInstant(std::time::Instant);

/// Trusted: `Instant::now`. Nothing is claimed of the reading.
#[verifier::external_body]
fn now() -> std::time::Instant {
    std::time::Instant::now()
}

/// Trusted: `Instant::elapsed`. Nothing is claimed of the reading.
#[verifier::external_body]
fn elapsed_since(t0: &std::time::Instant) -> std::time::Duration {
    t0.elapsed()
}

/// Trusted: `Duration::as_millis`, the whole milliseconds of a duration.
/// Nothing is claimed of the number.
#[verifier::external_body]
fn whole_millis(d: &std::time::Duration) -> u128 {
    d.as_millis()
}

/// A timed span: its label and when it opened.
pub struct Span {
    label: String,
    started: std::time::Instant,
}

impl Span {
    /// The label the span was opened with.
    pub closed spec fn label_view(&self) -> Seq<char> {
        self.label@
    }

    /// The label of the span.
    pub fn label(&self) -> (r: String)
        ensures
            r@ == self.label_view(),
    {
        string_of(&chars_of(self.label.as_str()))
    }

    /// Milliseconds since the span opened.
    pub fn elapsed_ms(&self) -> u128 {
        whole_millis(&elapsed_since(&self.started))
    }
}

/// Opens a timed span when traces are on; `None` (no cost) when off.
pub fn span(label: &str, enabled: bool) -> (r: Option<Span>)
    ensures
        r is Some == enabled,
        r matches Some(s) ==> s.label_view() == label@,
{
    if enabled {
        Some(Span { label: string_of(&chars_of(label)), started: now() })
    } else {
        None
    }
}

/// Appends the decimal rendering of a 128-bit count.
fn push_decimal_wide(out: &mut Vec<char>, n: u128)
    ensures
        final(out)@ == old(out)@ + decimal(n as nat),
    decreases n,
{
    if n >= 10 {
        push_decimal_wide(out, n / 10);
    }
    let d: u8 = (n % 10) as u8;
    let c: char = (d + 48u8) as char;
    assert(c == crate::text::digit_char((n % 10) as nat));
    out.push(c);
    proof {
        if n >= 10 {
            assert(decimal(n as nat) == decimal((n / 10) as nat).push(crate::text::digit_char((n % 10) as nat)));
        } else {
            assert(decimal(n as nat) =~= seq![crate::text::digit_char(n as nat)]);
        }
    }
}

/// The trace line of a closed span: its label in 28 columns, the
/// milliseconds right-aligned in 7.
pub open spec fn trace_text(label: Seq<char>, ms: nat) -> Seq<char> {
    "[trace] "@ + pad_right(label, 28) + " "@ + pad_left(decimal(ms), 7) + " ms"@
}

/// The line printed when a span closes after `ms` milliseconds.
pub fn trace_line(label: &str, ms: u128) -> (r: String)
    ensures
        r@ == trace_text(label@, ms as nat),
{
    let mut t: Vec<char> = Vec::new();
    push_str(&mut t, "[trace] ");
    push_padded_right(&mut t, &chars_of(label), 28);
    push_str(&mut t, " ");
    let mut n: Vec<char> = Vec::new();
    push_decimal_wide(&mut n, ms);
    push_padded_left(&mut t, &n, 7);
    push_str(&mut t, " ms");
    assert(t@ =~= trace_text(label@, ms as nat));
    string_of(&t)
}

} // verus!
