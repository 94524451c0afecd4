use modrun::error::Error;
use modrun::phases::{
    startup_banner,
    banner_output, finish_interrupt, finish_run, settle_timed_phase, stop_report, unwind_report, Banner,
    Settings, DEFAULT_BANNER,
};
use modrun::span::Span;

#[test]
fn default_banner_contains_name() {
    assert!(DEFAULT_BANNER.contains("modrun") || DEFAULT_BANNER.contains('|'));
}

#[test]
fn banner_output_trims_and_appends_blank_line() {
    assert_eq!(banner_output(&Banner::Off, "1.0.0"), "");
    assert_eq!(banner_output(&Banner::Custom(String::from("hi\n\n")), "1.0.0"), "hi\n\n");
    assert_eq!(banner_output(&Banner::Custom(String::from("\n")), "1.0.0"), "");
    let default = banner_output(&Banner::Default, "1.0.0");
    assert!(default.ends_with(":: modrun :: v1.0.0 :: Lightweight wiring for Tokio services\n\n"));
    assert!(default.starts_with("\n  __  __"));
}

#[test]
fn settings_default_to_fifteen_seconds_and_last_value_wins() {
    let s = Settings::new();
    assert!(matches!(s.banner, Banner::Default));
    assert_eq!(s.build_timeout, Some(Span::new(15, 0)));
    assert_eq!(s.start_timeout, Some(Span::new(15, 0)));
    assert_eq!(s.stop_timeout, Some(Span::new(15, 0)));
    let s = s
        .build_timeout(Span::from_millis(10))
        .build_timeout(Span::from_millis(20))
        .no_start_timeout()
        .stop_timeout(Span::new(1, 0))
        .no_banner();
    assert_eq!(s.build_timeout, Some(Span::from_millis(20)));
    assert_eq!(s.start_timeout, None);
    assert_eq!(s.stop_timeout, Some(Span::new(1, 0)));
    assert!(matches!(s.banner, Banner::Off));
    let mut m = Settings::new();
    m.no_build_timeout_mut();
    m.start_timeout_mut(Span::from_millis(5));
    m.banner_mut(String::from("x"));
    assert_eq!(m.build_timeout, None);
    assert_eq!(m.start_timeout, Some(Span::from_millis(5)));
    assert!(matches!(m.banner, Banner::Custom(ref t) if t == "x"));
}

#[test]
fn timed_phase_prefers_real_errors_over_timeouts() {
    let budget = Span::from_millis(100);
    let t = || Error::StartTimeout(Span::from_millis(100));
    assert!(matches!(settle_timed_phase(None, Span::from_millis(100), budget, t()), Err(Error::StartTimeout(_))));
    assert!(matches!(
        settle_timed_phase(Some(Err(Error::AppendAfterStart)), Span::from_millis(500), budget, t()),
        Err(Error::AppendAfterStart)
    ));
    assert!(matches!(settle_timed_phase(Some(Ok(())), Span::from_millis(100), budget, t()), Err(Error::StartTimeout(_))));
    assert!(settle_timed_phase(Some(Ok(())), Span::from_millis(99), budget, t()).is_ok());
}

#[test]
fn interrupted_runs() {
    assert!(finish_interrupt(false, Ok(())).is_ok());
    assert!(matches!(finish_interrupt(false, Err(Error::AppendAfterStart)), Err(Error::AppendAfterStart)));
    assert!(matches!(finish_interrupt(true, Ok(())), Err(Error::TaskFailedDuringStart)));
    match finish_interrupt(true, Err(Error::UnwindTimeout(Span::new(1, 0)))) {
        Err(Error::CleanupAfterFailure { cleanup, earlier }) => {
            assert!(matches!(*cleanup, Error::UnwindTimeout(_)));
            assert!(matches!(*earlier, Error::TaskFailedDuringStart));
        }
        _ => panic!("expected both failures"),
    }
    assert!(matches!(finish_interrupt(true, Err(Error::AppendAfterStart)), Err(Error::AppendAfterStart)));
    assert!(matches!(finish_run(Ok(()), Err(Error::AppendAfterStart)), Err(Error::AppendAfterStart)));
    assert!(matches!(finish_run(Err(Error::AppendAfterStart), Ok(())), Err(Error::AppendAfterStart)));
}

#[test]
fn reports() {
    assert_eq!(unwind_report(&Ok(()), 3), vec![String::from("[modrun] ROLLED BACK")]);
    assert_eq!(
        unwind_report(&Err(Error::TaskFailedDuringStart), 2),
        vec![
            String::from("[modrun] ERROR\t\tCouldn't roll back cleanly: background task failed during start"),
            String::from("[modrun] ERROR\t\tOnStop hooks abandoned after timeout (leftover: 2)"),
        ]
    );
    assert_eq!(stop_report(&Ok(()), 0), vec![String::from("[modrun] STOPPED")]);
    assert_eq!(
        stop_report(&Err(Error::AppendAfterStart), 0),
        vec![String::from("[modrun] ERROR\t\tFailed to stop cleanly: cannot append lifecycle hook after start has finished")]
    );
}

#[test]
fn finish_interrupt_retains_failure_on_unwind_timeout() {
    let task_failed = true;
    let err = finish_interrupt(task_failed, Err(Error::UnwindTimeout(Span::from_millis(30)))).unwrap_err();
    match err {
        Error::CleanupAfterFailure { cleanup, earlier } => {
            assert!(matches!(*cleanup, Error::UnwindTimeout(_)), "cleanup was {}", cleanup.message());
            assert!(matches!(*earlier, Error::TaskFailedDuringStart), "earlier was {}", earlier.message());
        }
        other => panic!("expected CleanupAfterFailure, got {}", other.message()),
    }
}

#[test]
fn finish_interrupt_keeps_join_error() {
    let task_failed = true;
    let err = finish_interrupt(task_failed, Err(Error::hook(String::from("died")))).unwrap_err();
    let msg = err.message();
    assert!(msg.contains("died"), "{msg}");
    assert!(!msg.contains("cleanup failed"), "{msg}");
}

#[test]
fn finish_interrupt_graceful_ok_is_ok() {
    let task_failed = false;
    finish_interrupt(task_failed, Ok(())).unwrap();
}

#[test]
fn last_timeout_wins() {
    // First timeout would fire; last one is long enough for an 80 ms start.
    let settings = Settings::new().start_timeout(Span::from_millis(10)).start_timeout(Span::from_millis(500));
    let budget = settings.start_timeout.unwrap();
    assert_eq!(budget, Span::from_millis(500));
    let start = settle_timed_phase(Some(Ok(())), Span::from_millis(80), budget, Error::StartTimeout(budget));
    assert!(start.is_ok());
}

#[test]
fn default_banner_only_on_a_terminal_custom_always() {
    assert_eq!(startup_banner(&Banner::Default, "1.0.0", false), "");
    assert_eq!(startup_banner(&Banner::Default, "1.0.0", true), banner_output(&Banner::Default, "1.0.0"));
    assert_eq!(startup_banner(&Banner::Custom(String::from("svc\n")), "1.0.0", false), "svc\n\n");
    assert_eq!(startup_banner(&Banner::Off, "1.0.0", true), "");
}
