//! Transient toast notifications.
use vstd::prelude::*;
use std::time::Instant;

verus! {

/// The time a toast expires at (`std::time::Instant`), carried opaque.
#[verifier::external_type_specification]
#[verifier::external_body]
pub struct ExInstant(Instant);

/// Severity drives the leading glyph + accent.
#[derive(Clone, Copy, PartialEq, Eq, Structural)]
pub enum ToastKind {
    Info,
    Success,
    Error,
}

/// A toast: its text, kind and expiry time.
pub struct Toast {
    pub text: String,
    pub kind: ToastKind,
    pub expires: Instant,
}

/// `Instant::now()`: the current reading of the monotonic clock. Nothing is
/// stated of the reading.
#[verifier::external_body]
fn instant_now() -> (t: Instant) {
    Instant::now()
}

/// `Instant + Duration` (std's `Add`), the duration given in whole seconds.
/// The sum panics only when it cannot be represented; `secs` is bounded so
/// that it can. Nothing is stated of the resulting reading.
#[verifier::external_body]
fn instant_after(t: Instant, secs: u64) -> (r: Instant)
    requires
        secs <= u32::MAX,
{
    t + std::time::Duration::from_secs(secs)
}

impl Clone for Toast {
    fn clone(&self) -> (r: Self)
        ensures
            r.text@ == self.text@,
            r.kind == self.kind,
            r.expires == self.expires,
    {
        Toast { text: self.text.clone(), kind: self.kind, expires: self.expires }
    }
}

impl Toast {
    /// A toast of `kind` showing `text`, expiring `secs` seconds from now.
    pub fn new(text: String, kind: ToastKind, secs: u64) -> (r: Self)
        requires
            secs <= u32::MAX,
        ensures
            r.text@ == text@,
            r.kind == kind,
    {
        Toast { text, kind, expires: instant_after(instant_now(), secs) }
    }
}

} // verus!
