use modrun::error::{aggregate_errors, combine_results, with_cleanup, Error};
use modrun::span::Span;

#[test]
fn hook_preserves_io_source() {
    let err = Error::hook(std::io::Error::other("disk full").to_string());
    let src = err.source_message().expect("source");
    assert!(src.contains("disk full"), "source was {src}");
}

#[test]
fn constructor_failed_preserves_source() {
    let err = Error::constructor_failed("u32", String::from("nope"));
    let src = err.source_message().expect("source");
    assert!(src.contains("nope"), "source was {src}");
    assert!(err.message().contains("constructor for"), "display was {}", err.message());
}

#[test]
fn io_helper_sets_context_and_source() {
    let err = Error::io(String::from("bind"), std::io::Error::other("addr in use").to_string());
    match &err {
        Error::Io { context, source } => {
            assert_eq!(context, "bind");
            assert!(source.contains("addr in use"));
        }
        other => panic!("expected Io, got {}", other.message()),
    }
    assert!(err.source_message().is_some());
}

#[test]
fn cleanup_after_failure_source_is_cleanup() {
    let err = Error::CleanupAfterFailure {
        cleanup: Box::new(Error::hook(String::from("cleanup"))),
        earlier: Box::new(Error::hook(String::from("earlier"))),
    };
    let src = err.source_message().expect("source");
    assert!(src.contains("cleanup"), "source was {src}");
}

#[test]
fn with_cleanup_ok_is_the_phase_error() {
    let err = with_cleanup(Error::hook(String::from("earlier")), Ok(()));
    assert!(err.message().contains("earlier"), "display was {}", err.message());
    assert!(!err.message().contains("cleanup failed"));
}

#[test]
fn with_cleanup_err_wraps_both() {
    let err = with_cleanup(
        Error::hook(String::from("earlier")),
        Err(Error::hook(String::from("cleanup"))),
    );
    match err {
        Error::CleanupAfterFailure { cleanup, earlier } => {
            assert!(cleanup.message().contains("cleanup"));
            assert!(earlier.message().contains("earlier"));
        }
        other => panic!("expected CleanupAfterFailure, got {}", other.message()),
    }
}

#[test]
fn multiple_stop_source_is_first_error() {
    let err = Error::multiple_stop(vec![
        Error::hook(String::from("stop-a")),
        Error::hook(String::from("stop-b")),
    ]);
    let src = err.source_message().expect("source");
    assert!(src.contains("stop-a"), "source was {src}");
    match &err {
        Error::MultipleStop(inner) => {
            assert_eq!(inner.count(), 2);
            assert!(inner.summary().contains("stop-a"));
            assert!(inner.errors()[1].message().contains("stop-b"));
        }
        other => panic!("expected MultipleStop, got {}", other.message()),
    }
}

#[test]
fn hook_display_includes_context() {
    let err = Error::hook(String::from("boom"));
    let msg = err.message();
    assert!(msg.contains("boom"), "unexpected: {msg}");
    assert!(msg.contains("hook failed"), "unexpected: {msg}");
}

#[test]
fn multiple_stop_message_counts_and_joins() {
    let err = Error::multiple_stop(vec![
        Error::hook(String::from("a")),
        Error::hook(String::from("b")),
        Error::hook(String::from("c")),
    ]);
    assert_eq!(
        err.message(),
        "3 OnStop hooks failed: hook failed: a; hook failed: b; hook failed: c"
    );
}

#[test]
fn aggregate_errors_keeps_one_and_wraps_several() {
    assert!(aggregate_errors(Vec::new()).is_ok());
    match aggregate_errors(vec![Error::hook(String::from("only"))]) {
        Err(Error::Hook { name: None, source }) => assert_eq!(source, "only"),
        _ => panic!("expected the single error back"),
    }
    match aggregate_errors(vec![Error::AppendAfterStart, Error::AppendWhileStopping]) {
        Err(Error::MultipleStop(m)) => {
            assert_eq!(m.count(), 2);
            assert!(matches!(m.errors()[0], Error::AppendAfterStart));
            assert!(matches!(m.errors()[1], Error::AppendWhileStopping));
        }
        _ => panic!("expected MultipleStop"),
    }
}

#[test]
fn with_hook_name_names_only_unnamed_hook_errors() {
    let named = Error::hook(String::from("boom")).with_hook_name("http");
    assert_eq!(named.message(), "hook 'http' failed: boom");
    let again = named.with_hook_name("other");
    assert_eq!(again.message(), "hook 'http' failed: boom");
    let other = Error::TaskFailedDuringStart.with_hook_name("http");
    assert!(matches!(other, Error::TaskFailedDuringStart));
}

#[test]
fn combine_results_keeps_phase_error_and_cleanup() {
    assert!(combine_results(Ok(()), Ok(())).is_ok());
    match combine_results(Ok(()), Err(Error::AppendAfterStart)) {
        Err(Error::AppendAfterStart) => {}
        _ => panic!("a successful phase reports its cleanup"),
    }
    match combine_results(Err(Error::AppendWhileStopping), Ok(())) {
        Err(Error::AppendWhileStopping) => {}
        _ => panic!("a failed phase keeps its error"),
    }
    match combine_results(Err(Error::AppendWhileStopping), Err(Error::AppendAfterStart)) {
        Err(Error::CleanupAfterFailure { cleanup, earlier }) => {
            assert!(matches!(*cleanup, Error::AppendAfterStart));
            assert!(matches!(*earlier, Error::AppendWhileStopping));
        }
        _ => panic!("both failures are kept"),
    }
}

#[test]
fn messages_of_every_variant() {
    assert_eq!(Error::AlreadyProvided("u32").message(), "type already provided: u32");
    assert_eq!(
        Error::AlreadyProvidedPrivate { module: "auth", type_label: "Token" }.message(),
        "type already provided privately in module 'auth': Token"
    );
    assert_eq!(
        Error::Cycle(String::from("A -> B -> A")).message(),
        "dependency cycle detected involving: A -> B -> A"
    );
    assert_eq!(Error::NotConstructed("Db").message(), "dependency not constructed yet: Db");
    assert_eq!(
        Error::MissingProvider { type_label: "Db", module: "<root>" }.message(),
        "missing provider for type: Db (from module '<root>')"
    );
    assert_eq!(
        Error::ProviderMissingDep { provider: "Repo", module: "user", dependency: "Db" }.message(),
        "provider for Repo in module 'user' needs a dependency nothing provides: Db"
    );
    assert_eq!(
        Error::InvokerMissingDep { module: "user", dependency: "Db" }.message(),
        "invoker in module 'user' needs a dependency nothing provides: Db"
    );
    assert_eq!(Error::Downcast("Db").message(), "failed to downcast value to Db");
    assert_eq!(
        Error::invoker_failed("boot", String::from("bad")).message(),
        "invoker boot failed: bad"
    );
    assert_eq!(
        Error::AppendAfterStart.message(),
        "cannot append lifecycle hook after start has finished"
    );
    assert_eq!(
        Error::AppendWhileStopping.message(),
        "cannot append lifecycle hook while stopping"
    );
    assert_eq!(
        Error::BuildTimeout(Span::new(15, 0)).message(),
        "application build timed out after 15s"
    );
    assert_eq!(
        Error::StartTimeout(Span::from_millis(30)).message(),
        "application start timed out after 30ms"
    );
    assert_eq!(
        Error::StopTimeout(Span::from_millis(1500)).message(),
        "application stop timed out after 1.5s"
    );
    assert_eq!(
        Error::UnwindTimeout(Span::new(2, 0)).message(),
        "application stop timed out after 2s while unwinding"
    );
    assert_eq!(
        Error::SigintListen(String::from("x")).message(),
        "failed to listen for SIGINT: x"
    );
    assert_eq!(
        Error::SigtermListen(String::from("x")).message(),
        "failed to listen for SIGTERM: x"
    );
    assert_eq!(
        Error::SignalListen(String::from("x")).message(),
        "failed to listen for process signal: x"
    );
    assert_eq!(
        Error::io(String::from("bind"), String::from("in use")).message(),
        "bind: in use"
    );
    assert_eq!(
        Error::TaskFailedDuringStart.message(),
        "background task failed during start"
    );
    assert_eq!(
        Error::EmptyGroup { type_label: "Route" }.message(),
        "required group is empty: Route"
    );
    assert_eq!(
        Error::GroupMemberTypeMismatch { expected: "A", actual: "B" }.message(),
        "provide_group_dyn type mismatch: expected A, got B"
    );
    assert!(Error::AppendAfterStart.source_message().is_none());
}

#[test]
fn missing_group_dependency_suggests_registering_the_group() {
    let err = Error::InvokerMissingDep { module: "<root>", dependency: "modrun::Group<my::Route>" };
    assert_eq!(
        err.message(),
        "invoker in module '<root>' needs a dependency nothing provides: modrun::Group<my::Route>; register the group with init_group, provide_group, or require_group"
    );
    let plain = Error::InvokerMissingDep { module: "<root>", dependency: "my::Db" };
    assert_eq!(plain.message(), "invoker in module '<root>' needs a dependency nothing provides: my::Db");
    let provider = Error::ProviderMissingDep {
        provider: "my::Svc",
        module: "user",
        dependency: "modrun::group::Group<my::Route>",
    };
    assert!(provider.message().ends_with("; register the group with init_group, provide_group, or require_group"));
}
