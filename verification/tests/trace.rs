use modrun::error::Error;
use modrun::span::Span;
use modrun::trace;

#[test]
fn hook_label_includes_name_and_index() {
    assert_eq!(trace::hook_label("http", 0), "http (#0)");
    assert_eq!(trace::hook_label("unnamed", 3), "unnamed (#3)");
}

#[test]
fn module_suffix_omits_root() {
    assert_eq!(trace::module_suffix("<root>"), "");
    assert_eq!(trace::module_suffix("user"), " from module \"user\"");
}

#[test]
fn user_deps_skips_framework_handles() {
    let deps = [(1, "Config"), (50, "Lifecycle"), (2, "Db")];
    assert_eq!(trace::user_deps(&deps, &[50, 51]), "Config, Db");
    assert_eq!(trace::user_deps(&[(50, "Lifecycle")], &[50]), "");
}

#[test]
fn invoke_lines() {
    assert_eq!(trace::invoking("app::boot", "user"), "[modrun] INVOKE\t\tapp::boot from module \"user\"");
    let err = Error::hook(String::from("boom"));
    assert_eq!(
        trace::invoke_failed("boot", &[(1, "Config"), (50, "Lifecycle")], &[50], "<root>", &err),
        "[modrun] ERROR\t\tinvoke failed: hook failed: boom (boot (deps: Config))"
    );
    assert_eq!(
        trace::invoke_failed("boot", &[(50, "Lifecycle")], &[50], "user", &err),
        "[modrun] ERROR\t\tinvoke failed: hook failed: boom (boot) from module \"user\""
    );
    assert_eq!(trace::invoke_cancelled("boot", "<root>"), "[modrun] ERROR\t\tinvoke cancelled (boot)");
    assert_eq!(trace::invoke_panicked("boot", "<root>"), "[modrun] ERROR\t\tinvoke panicked (boot)");
}

#[test]
fn registration_lines() {
    assert_eq!(
        trace::provided("Db", "open", "<root>", false),
        "[modrun] PROVIDE\tDb <= open"
    );
    assert_eq!(
        trace::provided("Db", "open", "user", true),
        "[modrun] PROVIDE (PRIVATE)\tDb <= open from module \"user\""
    );
    assert_eq!(trace::supplied("Config", "<root>", false), "[modrun] SUPPLY\tConfig");
    assert_eq!(
        trace::provided_group("Route", "home", "<root>", false),
        "[modrun] PROVIDE GROUP\tRoute <= home"
    );
    assert_eq!(
        trace::supplied_group("Route", "web", true),
        "[modrun] SUPPLY GROUP (PRIVATE)\tRoute from module \"web\""
    );
    assert_eq!(
        trace::dot_graph_written("out.dot"),
        "[modrun] GRAPH\t\twrote dependency graph to out.dot"
    );
}

#[test]
fn construction_lines() {
    assert_eq!(trace::before_run("Db", "<root>"), "[modrun] BEFORE RUN\tprovide: Db");
    assert_eq!(
        trace::run_ok("Db", "<root>", Span::from_millis(2)),
        "[modrun] RUN\t\tprovide: Db in 2ms"
    );
    assert_eq!(
        trace::run_err("Db", "<root>", &Error::NotConstructed("Cfg")),
        "[modrun] ERROR\t\tprovide: Db failed: dependency not constructed yet: Cfg"
    );
    assert_eq!(trace::run_cancelled("Db", "<root>"), "[modrun] ERROR\t\tprovide: Db cancelled");
    assert_eq!(trace::run_panicked("Db", "<root>"), "[modrun] ERROR\t\tprovide: Db panicked");
}

#[test]
fn hook_lines() {
    assert_eq!(trace::on_start_executing(0, "http"), "[modrun] HOOK OnStart\t\thttp (#0) executing");
    assert_eq!(
        trace::on_start_executed(1, "db", Span::from_nanos(806_417)),
        "[modrun] HOOK OnStart\t\tdb (#1) ran successfully in 806.417µs"
    );
    assert_eq!(
        trace::on_start_failed(2, "x", &Error::hook(String::from("boom"))),
        "[modrun] HOOK OnStart\t\tx (#2) failed: hook failed: boom"
    );
    assert_eq!(trace::on_start_cancelled(0, "a"), "[modrun] HOOK OnStart\t\ta (#0) cancelled");
    assert_eq!(trace::on_start_panicked(0, "a"), "[modrun] HOOK OnStart\t\ta (#0) panicked");
    assert_eq!(trace::on_stop_executing(3, "a"), "[modrun] HOOK OnStop\t\ta (#3) executing");
    assert_eq!(
        trace::on_stop_executed(3, "a", Span::new(1, 500_000_000)),
        "[modrun] HOOK OnStop\t\ta (#3) ran successfully in 1.5s"
    );
    assert_eq!(
        trace::on_stop_failed(3, "a", &Error::AppendAfterStart),
        "[modrun] HOOK OnStop\t\ta (#3) failed: cannot append lifecycle hook after start has finished"
    );
    assert_eq!(trace::on_stop_cancelled(3, "a"), "[modrun] HOOK OnStop\t\ta (#3) cancelled");
    assert_eq!(trace::on_stop_panicked(3, "a"), "[modrun] HOOK OnStop\t\ta (#3) panicked");
}

#[test]
fn run_lines() {
    assert_eq!(trace::started(), "[modrun] RUNNING");
    let err = Error::TaskFailedDuringStart;
    assert_eq!(
        trace::start_failed(&err),
        "[modrun] ERROR\t\tFailed to start: background task failed during start"
    );
    assert_eq!(
        trace::rolling_back(&err),
        "[modrun] ERROR\t\tStart failed, rolling back: background task failed during start"
    );
    assert_eq!(
        trace::rolling_back_after_shutdown(),
        "[modrun] ERROR\t\tStart interrupted by shutdown, rolling back"
    );
    assert_eq!(
        trace::rollback_failed(&err),
        "[modrun] ERROR\t\tCouldn't roll back cleanly: background task failed during start"
    );
    assert_eq!(trace::rolled_back(), "[modrun] ROLLED BACK");
    assert_eq!(trace::received_signal("sigterm"), "[modrun] SIGTERM");
    assert_eq!(trace::received_signal("CTRL_C"), "[modrun] CTRL_C");
    assert_eq!(trace::shutdown_requested(), "[modrun] SHUTDOWN REQUESTED");
    assert_eq!(
        trace::stop_failed(&err),
        "[modrun] ERROR\t\tFailed to stop cleanly: background task failed during start"
    );
    assert_eq!(trace::stopped(), "[modrun] STOPPED");
    assert_eq!(
        trace::hooks_abandoned(2),
        "[modrun] ERROR\t\tOnStop hooks abandoned after timeout (leftover: 2)"
    );
    assert_eq!(
        trace::running_app_dropped(),
        "[modrun] WARN\t\tdropping RunningApp without stop(); OnStop hooks will not run"
    );
}

#[test]
fn debug_quotes_are_stripped() {
    assert_eq!(trace::strip_debug_quotes("\"hello\""), "hello");
    assert_eq!(trace::strip_debug_quotes("\""), "\"");
    assert_eq!(trace::strip_debug_quotes("plain"), "plain");
    assert_eq!(trace::to_ascii_upper("sig-Int1"), "SIG-INT1");
}
