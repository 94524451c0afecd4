//! The decisions around the application's phases: builder settings (banner
//! and time budgets), what a timed phase reports, how an interrupted or
//! failed run is answered, and what the startup banner prints.

use vstd::prelude::*;
use vstd::string::*;

use crate::error::{combine_results, Error};
use crate::span::{Span, NANOS_PER_SEC};
use crate::trace::{hooks_abandoned, rollback_failed, rolled_back, stop_failed, stopped};

verus! {

/// Entry point for configuring an application; its builder starts from
/// [`Settings::new`].
#[derive(Debug)]
pub struct Modrun;

/// Default ASCII banner printed at startup unless the banner is turned off.
pub const DEFAULT_BANNER: &'static str = r"
  __  __           _                  
 |  \/  | ___   __| |_ __ _   _ _ __  
 | |\/| |/ _ \ / _` | '__| | | | '_ \ 
 | |  | | (_) | (_| | |  | |_| | | | |
 |_|  |_|\___/ \__,_|_|   \__,_|_| |_|
";

/// Default build/start/stop budget, in seconds.
pub const DEFAULT_TIMEOUT_SECS: u64 = 15;

/// The default build/start/stop budget (15s).
pub fn default_timeout() -> (t: Span)
    ensures
        t.secs_spec() == DEFAULT_TIMEOUT_SECS,
        t.nanos_spec() == 0,
{
    Span::new(DEFAULT_TIMEOUT_SECS, 0)
}

/// What is printed at startup.
#[derive(Debug)]
pub enum Banner {
    /// The modrun banner with the version line.
    Default,
    /// Custom text.
    Custom(String),
    /// Nothing.
    Off,
}

/// Builder settings: the banner and the three phase budgets (`None`: no
/// budget).
#[derive(Debug)]
pub struct Settings {
    pub banner: Banner,
    pub build_timeout: Option<Span>,
    pub start_timeout: Option<Span>,
    pub stop_timeout: Option<Span>,
}

/// The default budget as a value.
pub open spec fn default_span(t: Span) -> bool {
    t.secs_spec() == DEFAULT_TIMEOUT_SECS && t.nanos_spec() == 0
}

impl Settings {
    /// The default banner and a 15s budget for every phase.
    pub fn new() -> (s: Self)
        ensures
            s.banner is Default,
            s.build_timeout matches Some(t) && default_span(t),
            s.start_timeout matches Some(t) && default_span(t),
            s.stop_timeout matches Some(t) && default_span(t),
    {
        Settings {
            banner: Banner::Default,
            build_timeout: Some(default_timeout()),
            start_timeout: Some(default_timeout()),
            stop_timeout: Some(default_timeout()),
        }
    }

    /// Total budget for graph construction; the last value set wins.
    pub fn build_timeout(self, duration: Span) -> (s: Self)
        ensures
            s == (Settings { build_timeout: Some(duration), ..self }),
    {
        Settings { build_timeout: Some(duration), ..self }
    }

    /// [`Settings::build_timeout`] in place.
    pub fn build_timeout_mut(&mut self, duration: Span)
        ensures
            *final(self) == (Settings { build_timeout: Some(duration), ..*old(self) }),
    {
        self.build_timeout = Some(duration);
    }

    /// No budget for graph construction.
    pub fn no_build_timeout(self) -> (s: Self)
        ensures
            s == (Settings { build_timeout: None, ..self }),
    {
        Settings { build_timeout: None, ..self }
    }

    /// [`Settings::no_build_timeout`] in place.
    pub fn no_build_timeout_mut(&mut self)
        ensures
            *final(self) == (Settings { build_timeout: None, ..*old(self) }),
    {
        self.build_timeout = None;
    }

    /// Total budget for OnStart hooks; the last value set wins.
    pub fn start_timeout(self, duration: Span) -> (s: Self)
        ensures
            s == (Settings { start_timeout: Some(duration), ..self }),
    {
        Settings { start_timeout: Some(duration), ..self }
    }

    /// [`Settings::start_timeout`] in place.
    pub fn start_timeout_mut(&mut self, duration: Span)
        ensures
            *final(self) == (Settings { start_timeout: Some(duration), ..*old(self) }),
    {
        self.start_timeout = Some(duration);
    }

    /// No budget for OnStart hooks.
    pub fn no_start_timeout(self) -> (s: Self)
        ensures
            s == (Settings { start_timeout: None, ..self }),
    {
        Settings { start_timeout: None, ..self }
    }

    /// [`Settings::no_start_timeout`] in place.
    pub fn no_start_timeout_mut(&mut self)
        ensures
            *final(self) == (Settings { start_timeout: None, ..*old(self) }),
    {
        self.start_timeout = None;
    }

    /// Total budget for OnStop hooks (and for unwinding); the last value set
    /// wins.
    pub fn stop_timeout(self, duration: Span) -> (s: Self)
        ensures
            s == (Settings { stop_timeout: Some(duration), ..self }),
    {
        Settings { stop_timeout: Some(duration), ..self }
    }

    /// [`Settings::stop_timeout`] in place.
    pub fn stop_timeout_mut(&mut self, duration: Span)
        ensures
            *final(self) == (Settings { stop_timeout: Some(duration), ..*old(self) }),
    {
        self.stop_timeout = Some(duration);
    }

    /// No budget for OnStop hooks.
    pub fn no_stop_timeout(self) -> (s: Self)
        ensures
            s == (Settings { stop_timeout: None, ..self }),
    {
        Settings { stop_timeout: None, ..self }
    }

    /// [`Settings::no_stop_timeout`] in place.
    pub fn no_stop_timeout_mut(&mut self)
        ensures
            *final(self) == (Settings { stop_timeout: None, ..*old(self) }),
    {
        self.stop_timeout = None;
    }

    /// Replace the default banner with custom text.
    pub fn banner(self, text: String) -> (s: Self)
        ensures
            s == (Settings { banner: Banner::Custom(text), ..self }),
    {
        Settings { banner: Banner::Custom(text), ..self }
    }

    /// [`Settings::banner`] in place.
    pub fn banner_mut(&mut self, text: String)
        ensures
            *final(self) == (Settings { banner: Banner::Custom(text), ..*old(self) }),
    {
        self.banner = Banner::Custom(text);
    }

    /// Print no banner.
    pub fn no_banner(self) -> (s: Self)
        ensures
            s == (Settings { banner: Banner::Off, ..self }),
    {
        Settings { banner: Banner::Off, ..self }
    }

    /// [`Settings::no_banner`] in place.
    pub fn no_banner_mut(&mut self)
        ensures
            *final(self) == (Settings { banner: Banner::Off, ..*old(self) }),
    {
        self.banner = Banner::Off;
    }
}

/// Setting a budget twice keeps the second value: the first setting leaves
/// no trace.
pub proof fn law_last_timeout_wins(s: Settings, a: Option<Span>, b: Option<Span>)
    ensures
        (Settings { build_timeout: b, ..Settings { build_timeout: a, ..s } }) == (Settings { build_timeout: b, ..s }),
        (Settings { start_timeout: b, ..Settings { start_timeout: a, ..s } }) == (Settings { start_timeout: b, ..s }),
        (Settings { stop_timeout: b, ..Settings { stop_timeout: a, ..s } }) == (Settings { stop_timeout: b, ..s }),
{
}

// ---- the startup banner -----------------------------------------------------

/// `s` without its trailing newlines.
pub open spec fn trim_newlines(s: Seq<char>) -> Seq<char>
    decreases s.len(),
{
    if s.len() > 0 && s.last() == '\n' {
        trim_newlines(s.drop_last())
    } else {
        s
    }
}

/// What printing `text` as a banner writes: the text without trailing
/// newlines, then a newline and a blank line; nothing for blank text.
pub open spec fn banner_block(text: Seq<char>) -> Seq<char> {
    if trim_newlines(text).len() == 0 {
        Seq::empty()
    } else {
        trim_newlines(text) + "\n\n"@
    }
}

/// The text of the startup banner.
pub open spec fn banner_output_spec(banner: Banner, version: Seq<char>) -> Seq<char> {
    match banner {
        Banner::Off => Seq::empty(),
        Banner::Default => banner_block(DEFAULT_BANNER@) + ":: modrun :: v"@ + version
            + " :: Lightweight wiring for Tokio services\n\n"@,
        Banner::Custom(text) => banner_block(text@),
    }
}

/// `text` without its trailing newlines.
pub fn trim_end_newlines(text: &str) -> (r: &str)
    ensures
        r@ == trim_newlines(text@),
{
    let n = text.unicode_len();
    let mut k: usize = n;
    assert(text@.subrange(0, n as int) =~= text@);
    while k > 0 && text.get_char(k - 1) == '\n'
        invariant
            n == text@.len(),
            k <= n,
            trim_newlines(text@) == trim_newlines(text@.subrange(0, k as int)),
        decreases k,
    {
        proof {
            assert(text@.subrange(0, k as int).drop_last() =~= text@.subrange(0, k as int - 1));
        }
        k = k - 1;
    }
    text.substring_char(0, k)
}

/// The banner block of `text`.
pub fn banner_block_text(text: &str) -> (s: String)
    ensures
        s@ == banner_block(text@),
{
    let body = trim_end_newlines(text);
    if body.unicode_len() == 0 {
        String::new()
    } else {
        let mut s = String::from_str(body);
        s.append("\n\n");
        s
    }
}

/// The text of the startup banner, for the crate version `version`.
pub fn banner_output(banner: &Banner, version: &str) -> (s: String)
    ensures
        s@ == banner_output_spec(*banner, version@),
{
    match banner {
        Banner::Off => String::new(),
        Banner::Default => {
            let mut s = banner_block_text(DEFAULT_BANNER);
            s.append(":: modrun :: v");
            s.append(version);
            s.append(" :: Lightweight wiring for Tokio services\n\n");
            s
        },
        Banner::Custom(text) => banner_block_text(text.as_str()),
    }
}

/// What is written to standard error at startup: the default banner only
/// when standard error is a terminal, custom text always, nothing when the
/// banner is off.
pub open spec fn startup_banner_spec(banner: Banner, version: Seq<char>, stderr_is_terminal: bool) -> Seq<char> {
    if banner is Default && !stderr_is_terminal {
        Seq::empty()
    } else {
        banner_output_spec(banner, version)
    }
}

/// The text to write to standard error at startup; see
/// [`startup_banner_spec`].
pub fn startup_banner(banner: &Banner, version: &str, stderr_is_terminal: bool) -> (s: String)
    ensures
        s@ == startup_banner_spec(*banner, version@, stderr_is_terminal),
{
    match banner {
        Banner::Default => if stderr_is_terminal {
            banner_output(banner, version)
        } else {
            String::new()
        },
        _ => banner_output(banner, version),
    }
}

/// The startup banner: nothing when it is off; the default banner only when
/// standard error is a terminal, and then the default text followed by the
/// version line; custom text whatever standard error is, without its
/// trailing newlines and followed by a blank line, or nothing when that text
/// is empty.
pub proof fn law_startup_banner(banner: Banner, version: Seq<char>, stderr_is_terminal: bool)
    ensures
        banner is Off ==> startup_banner_spec(banner, version, stderr_is_terminal) == Seq::<char>::empty(),
        banner is Default && !stderr_is_terminal ==> startup_banner_spec(banner, version, stderr_is_terminal)
            == Seq::<char>::empty(),
        banner is Default && stderr_is_terminal ==> startup_banner_spec(banner, version, stderr_is_terminal)
            == banner_block(DEFAULT_BANNER@) + ":: modrun :: v"@ + version
            + " :: Lightweight wiring for Tokio services\n\n"@,
        banner matches Banner::Custom(text) ==> startup_banner_spec(banner, version, stderr_is_terminal)
            == startup_banner_spec(banner, version, !stderr_is_terminal),
        banner matches Banner::Custom(text) ==> (trim_newlines(text@).len() == 0 <==> startup_banner_spec(
            banner,
            version,
            stderr_is_terminal,
        ).len() == 0),
        banner matches Banner::Custom(text) ==> trim_newlines(text@).len() > 0 ==> startup_banner_spec(
            banner,
            version,
            stderr_is_terminal,
        ) == trim_newlines(text@) + "\n\n"@,
{
    if let Banner::Custom(text) = banner {
        if trim_newlines(text@).len() > 0 {
            assert((trim_newlines(text@) + "\n\n"@).len() > 0) by {
                reveal_strlit("\n\n");
            }
        }
    }
}

// ---- phase outcomes -----------------------------------------------------------

/// `a` is at least as long as `b`.
pub fn span_at_least(a: Span, b: Span) -> (r: bool)
    ensures
        r == (a.total_nanos() >= b.total_nanos()),
{
    let (sa, na) = (a.secs(), a.subsec_nanos());
    let (sb, nb) = (b.secs(), b.subsec_nanos());
    assert(na < NANOS_PER_SEC && nb < NANOS_PER_SEC);
    if sa != sb {
        assert(sa > sb ==> a.total_nanos() >= b.total_nanos()) by (nonlinear_arith)
            requires
                a.total_nanos() == sa * 1_000_000_000 + na,
                b.total_nanos() == sb * 1_000_000_000 + nb,
                na < 1_000_000_000,
                nb < 1_000_000_000,
        ;
        assert(sa < sb ==> a.total_nanos() < b.total_nanos()) by (nonlinear_arith)
            requires
                a.total_nanos() == sa * 1_000_000_000 + na,
                b.total_nanos() == sb * 1_000_000_000 + nb,
                na < 1_000_000_000,
                nb < 1_000_000_000,
        ;
        sa > sb
    } else {
        na >= nb
    }
}

/// What a phase run under a budget reports: `finished` is the phase's own
/// result, or `None` when the budget expired first; `elapsed` is how long it
/// ran. A real phase error wins over a timeout; a success that still ran over
/// budget (blocking work the timer could not pre-empt) is a timeout too.
pub fn settle_timed_phase(finished: Option<Result<(), Error>>, elapsed: Span, budget: Span, timed_out: Error) -> (r:
    Result<(), Error>)
    ensures
        finished is None ==> r == Err::<(), Error>(timed_out),
        finished matches Some(Err(e)) ==> r == Err::<(), Error>(e),
        finished matches Some(Ok(())) ==> (elapsed.total_nanos() >= budget.total_nanos() ==> r == Err::<(), Error>(
            timed_out,
        )),
        finished matches Some(Ok(())) ==> (elapsed.total_nanos() < budget.total_nanos() ==> r is Ok),
{
    match finished {
        None => Err(timed_out),
        Some(Err(e)) => Err(e),
        Some(Ok(())) => if span_at_least(elapsed, budget) {
            Err(timed_out)
        } else {
            Ok(())
        },
    }
}

/// A run phase ended: a successful phase reports its cleanup; a failed one
/// keeps its error and, when cleanup failed too, both.
pub fn finish_run(phase: Result<(), Error>, cleanup: Result<(), Error>) -> (r: Result<(), Error>)
    ensures
        phase is Ok ==> r == cleanup,
        phase matches Err(e) ==> (r matches Err(x) && (cleanup is Ok ==> x == e) && (cleanup matches Err(c) ==> x
            == (Error::CleanupAfterFailure { cleanup: Box::new(c), earlier: Box::new(e) }))),
{
    combine_results(phase, cleanup)
}

/// A shutdown interrupted build or start. A plain shutdown request is a
/// graceful stop: the cleanup result stands. A background task failure is
/// not: it is reported as [`Error::TaskFailedDuringStart`], kept beside an
/// unwind or stop timeout, and replaced by any other cleanup failure.
pub fn finish_interrupt(task_failed: bool, cleanup: Result<(), Error>) -> (r: Result<(), Error>)
    ensures
        !task_failed ==> r == cleanup,
        task_failed && cleanup is Ok ==> r == Err::<(), Error>(Error::TaskFailedDuringStart),
        task_failed ==> (cleanup matches Err(e) ==> ((e is UnwindTimeout || e is StopTimeout) ==> r == Err::<
            (),
            Error,
        >(
            Error::CleanupAfterFailure { cleanup: Box::new(e), earlier: Box::new(Error::TaskFailedDuringStart) },
        ))),
        task_failed ==> (cleanup matches Err(e) ==> (!(e is UnwindTimeout || e is StopTimeout) ==> r == Err::<
            (),
            Error,
        >(e))),
{
    if task_failed {
        match cleanup {
            Ok(()) => Err(Error::TaskFailedDuringStart),
            Err(e) => match e {
                Error::UnwindTimeout(_) | Error::StopTimeout(_) => Err(
                    Error::CleanupAfterFailure { cleanup: Box::new(e), earlier: Box::new(Error::TaskFailedDuringStart) },
                ),
                other => Err(other),
            },
        }
    } else {
        cleanup
    }
}

/// The event lines reporting an unwind: rolled back, or the failure and,
/// when OnStop hooks were left behind, how many.
pub fn unwind_report(result: &Result<(), Error>, leftover: usize) -> (lines: Vec<String>)
    ensures
        result is Ok ==> lines@.len() == 1 && lines@[0]@ == "[modrun] ROLLED BACK"@,
        result matches Err(e) ==> lines@.len() == (if leftover > 0 {
            2int
        } else {
            1int
        }) && lines@[0]@ == "[modrun] ERROR\t\tCouldn't roll back cleanly: "@ + e.message_spec(),
        result is Err && leftover > 0 ==> lines@[1]@ == "[modrun] ERROR\t\tOnStop hooks abandoned after timeout (leftover: "@
            + crate::text::decimal(leftover as nat) + ")"@,
{
    let mut lines: Vec<String> = Vec::new();
    match result {
        Ok(()) => lines.push(rolled_back()),
        Err(e) => {
            lines.push(rollback_failed(e));
            if leftover > 0 {
                lines.push(hooks_abandoned(leftover));
            }
        },
    }
    lines
}

/// The event lines reporting a stop: stopped, or the failure and, when OnStop
/// hooks were left behind, how many.
pub fn stop_report(result: &Result<(), Error>, leftover: usize) -> (lines: Vec<String>)
    ensures
        result is Ok ==> lines@.len() == 1 && lines@[0]@ == "[modrun] STOPPED"@,
        result matches Err(e) ==> lines@.len() == (if leftover > 0 {
            2int
        } else {
            1int
        }) && lines@[0]@ == "[modrun] ERROR\t\tFailed to stop cleanly: "@ + e.message_spec(),
        result is Err && leftover > 0 ==> lines@[1]@ == "[modrun] ERROR\t\tOnStop hooks abandoned after timeout (leftover: "@
            + crate::text::decimal(leftover as nat) + ")"@,
{
    let mut lines: Vec<String> = Vec::new();
    match result {
        Ok(()) => lines.push(stopped()),
        Err(e) => {
            lines.push(stop_failed(e));
            if leftover > 0 {
                lines.push(hooks_abandoned(leftover));
            }
        },
    }
    lines
}

} // verus!
