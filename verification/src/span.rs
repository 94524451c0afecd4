//! Lengths of time (timeouts, measured run times), held as whole seconds plus
//! a sub-second count of nanoseconds, and their display text.

use vstd::prelude::*;

verus! {

/// Text of the length of time `secs` seconds plus `nanos` nanoseconds in the
/// `Debug` notation of `std::time::Duration` (for example `15s`, `30ms`,
/// `1.5s`, `12.3µs`).
pub uninterp spec fn duration_text(secs: u64, nanos: u32) -> Seq<char>;

/// `format!("{:?}", Duration::new(secs, nanos))`. `Duration::new` only panics
/// when carrying whole seconds out of `nanos` overflows `secs`; with
/// `nanos` below one second there is nothing to carry.
#[verifier::external_body]
fn format_duration(secs: u64, nanos: u32) -> (s: String)
    requires
        nanos < 1_000_000_000,
    ensures
        s@ == duration_text(secs, nanos),
{
    format!("{:?}", std::time::Duration::new(secs, nanos))
}

/// One second in nanoseconds.
pub const NANOS_PER_SEC: u32 = 1_000_000_000;

/// A length of time: whole seconds plus the nanoseconds of a part second.
#[derive(Clone, Copy, Debug, PartialEq, Eq, Structural)]
pub struct Span {
    secs: u64,
    nanos: u32,
}

impl Span {
    #[verifier::type_invariant]
    spec fn part_second(self) -> bool {
        self.nanos < NANOS_PER_SEC
    }

    /// Whole seconds.
    pub closed spec fn secs_spec(self) -> u64 {
        self.secs
    }

    /// Nanoseconds of the part second.
    pub closed spec fn nanos_spec(self) -> u32 {
        self.nanos
    }

    /// The length in nanoseconds.
    pub open spec fn total_nanos(self) -> int {
        self.secs_spec() * 1_000_000_000 + self.nanos_spec()
    }

    /// The display text of this length.
    pub open spec fn text_spec(self) -> Seq<char> {
        duration_text(self.secs_spec(), self.nanos_spec())
    }

    /// `secs` seconds and `nanos` nanoseconds.
    pub fn new(secs: u64, nanos: u32) -> (s: Self)
        requires
            nanos < NANOS_PER_SEC,
        ensures
            s.secs_spec() == secs,
            s.nanos_spec() == nanos,
    {
        Span { secs, nanos }
    }

    /// `ms` milliseconds.
    pub fn from_millis(ms: u64) -> (s: Self)
        ensures
            s.total_nanos() == ms * 1_000_000,
            s.nanos_spec() < NANOS_PER_SEC,
    {
        let secs = ms / 1000;
        let rest = ms % 1000;
        let nanos: u32 = (rest * 1_000_000) as u32;
        assert(ms == secs * 1000 + rest);
        Span { secs, nanos }
    }

    /// `n` nanoseconds.
    pub fn from_nanos(n: u64) -> (s: Self)
        ensures
            s.total_nanos() == n,
    {
        let secs = n / 1_000_000_000;
        let nanos: u32 = (n % 1_000_000_000) as u32;
        Span { secs, nanos }
    }

    /// Whole seconds.
    pub fn secs(&self) -> (r: u64)
        ensures
            r == self.secs_spec(),
    {
        self.secs
    }

    /// Nanoseconds of the part second, always below one second.
    pub fn subsec_nanos(&self) -> (r: u32)
        ensures
            r == self.nanos_spec(),
            r < NANOS_PER_SEC,
    {
        proof {
            use_type_invariant(self);
        }
        self.nanos
    }

    /// The length in whole milliseconds, or `u64::MAX` when that does not
    /// fit.
    pub fn millis_saturating(&self) -> (r: u64)
        ensures
            self.total_nanos() / 1_000_000 <= u64::MAX ==> r == self.total_nanos() / 1_000_000,
            self.total_nanos() / 1_000_000 > u64::MAX ==> r == u64::MAX,
    {
        proof {
            use_type_invariant(self);
        }
        let sub: u64 = (self.nanos / 1_000_000) as u64;
        assert(self.total_nanos() / 1_000_000 == self.secs * 1000 + sub) by (nonlinear_arith)
            requires
                self.nanos < 1_000_000_000,
                sub == self.nanos / 1_000_000,
                self.total_nanos() == self.secs * 1_000_000_000 + self.nanos,
        ;
        if self.secs > (u64::MAX - sub) / 1000 {
            assert(self.secs * 1000 + sub > u64::MAX) by (nonlinear_arith)
                requires
                    self.secs > (u64::MAX - sub) / 1000,
                    sub < 1000,
            ;
            u64::MAX
        } else {
            assert(self.secs * 1000 + sub <= u64::MAX) by (nonlinear_arith)
                requires
                    self.secs <= (u64::MAX - sub) / 1000,
                    sub < 1000,
            ;
            self.secs * 1000 + sub
        }
    }

    /// The display text, in the notation of `std::time::Duration`'s `Debug`.
    pub fn text(&self) -> (s: String)
        ensures
            s@ == self.text_spec(),
    {
        proof {
            use_type_invariant(self);
        }
        format_duration(self.secs, self.nanos)
    }
}

} // verus!
