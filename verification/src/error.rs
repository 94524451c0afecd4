//! Errors produced while wiring, starting, or stopping an application.

use vstd::prelude::*;
use vstd::string::*;

use crate::dot::{has_prefix, strip};
use crate::span::Span;
use crate::text::{decimal, decimal_text, join2, join3};

verus! {

/// Errors produced while wiring, starting, or stopping an application.
///
/// Failures that came from user code (constructors, invokers, hooks, I/O) keep
/// the text of the underlying failure in `source`.
#[derive(Debug)]
pub enum Error {
    /// A public type was registered more than once.
    AlreadyProvided(&'static str),
    /// A private type was registered more than once in the same module.
    AlreadyProvidedPrivate { module: &'static str, type_label: &'static str },
    /// The dependency graph contains a cycle; the path is `A -> B -> A`.
    Cycle(String),
    /// A value was requested before it had been constructed.
    NotConstructed(&'static str),
    /// No provider exists for a requested type.
    MissingProvider { type_label: &'static str, module: &'static str },
    /// A provider depends on something nothing registers.
    ProviderMissingDep { provider: &'static str, module: &'static str, dependency: &'static str },
    /// An invoker depends on something nothing registers.
    InvokerMissingDep { module: &'static str, dependency: &'static str },
    /// Internal downcast of a cached value failed.
    Downcast(&'static str),
    /// A fallible constructor returned an error.
    ConstructorFailed { type_label: &'static str, source: String },
    /// A fallible invoker returned an error.
    InvokerFailed { function: &'static str, source: String },
    /// Hook registration after start completed.
    AppendAfterStart,
    /// Hook registration while stopping.
    AppendWhileStopping,
    /// Graph construction exceeded its budget.
    BuildTimeout(Span),
    /// Start phase exceeded its budget.
    StartTimeout(Span),
    /// Stop phase exceeded its budget.
    StopTimeout(Span),
    /// Unwind after a failed/cancelled start exceeded its budget.
    UnwindTimeout(Span),
    /// Failed to install a SIGINT listener.
    SigintListen(String),
    /// Failed to install a SIGTERM listener.
    SigtermListen(String),
    /// Failed to install a process-signal listener (non-Unix platforms).
    SignalListen(String),
    /// Several OnStop hooks failed; see [`MultipleStopError::errors`].
    MultipleStop(MultipleStopError),
    /// Cleanup failed after an earlier phase error; both are retained.
    CleanupAfterFailure { cleanup: Box<Error>, earlier: Box<Error> },
    /// An application hook returned this failure; `name` is the hook's label
    /// once the lifecycle has attributed it.
    Hook { name: Option<&'static str>, source: String },
    /// I/O failure with a short context label (e.g. bind / serve).
    Io { context: String, source: String },
    /// A background task failed while the application was starting.
    TaskFailedDuringStart,
    /// A group registered with `require_group` has no members.
    EmptyGroup { type_label: &'static str },
    /// `provide_group_dyn` was given a constructor of another type.
    GroupMemberTypeMismatch { expected: &'static str, actual: &'static str },
}

/// Several OnStop hook failures aggregated into one error.
#[derive(Debug)]
pub struct MultipleStopError {
    count: usize,
    summary: String,
    errors: Vec<Error>,
}

/// `"; "`-joined messages of `errs`.
pub open spec fn joined_messages(errs: Seq<Error>) -> Seq<char>
    decreases errs.len(),
{
    if errs.len() == 0 {
        Seq::empty()
    } else if errs.len() == 1 {
        errs[0].message_spec()
    } else {
        joined_messages(errs.drop_last()) + "; "@ + errs.last().message_spec()
    }
}

impl MultipleStopError {
    #[verifier::type_invariant]
    spec fn consistent(self) -> bool {
        &&& self.count == self.errors@.len()
        &&& self.summary@ == joined_messages(self.errors@)
    }

    /// The failures, in stop order.
    pub closed spec fn errors_spec(&self) -> Seq<Error> {
        self.errors@
    }

    /// The recorded number of failures.
    pub closed spec fn count_spec(&self) -> nat {
        self.count as nat
    }

    /// The recorded summary text.
    pub closed spec fn summary_spec(&self) -> Seq<char> {
        self.summary@
    }

    /// Number of failed hooks.
    pub fn count(&self) -> (n: usize)
        ensures
            n == self.count_spec(),
            n == self.errors_spec().len(),
    {
        proof {
            use_type_invariant(self);
        }
        self.count
    }

    /// Semicolon-joined messages for easy logging.
    pub fn summary(&self) -> (s: &str)
        ensures
            s@ == self.summary_spec(),
            s@ == joined_messages(self.errors_spec()),
    {
        proof {
            use_type_invariant(self);
        }
        self.summary.as_str()
    }

    /// Individual failures in stop order.
    pub fn errors(&self) -> (e: &[Error])
        ensures
            e@ == self.errors_spec(),
    {
        self.errors.as_slice()
    }

    /// Message of the first failure, the one retained as the source.
    pub fn first_message(&self) -> (m: Option<String>)
        ensures
            self.errors_spec().len() == 0 ==> m is None,
            self.errors_spec().len() > 0 ==> (m matches Some(s) && s@ == self.errors_spec()[0].message_spec()),
    {
        if self.errors.len() == 0 {
            None
        } else {
            Some(self.errors[0].message())
        }
    }
}

/// The advice appended to a missing dependency on a group type: a group
/// exists only once something registers it.
pub open spec fn group_hint(dependency: Seq<char>) -> Seq<char> {
    if strip(dependency, "modrun::group::Group<"@) is Some || strip(dependency, "modrun::Group<"@) is Some {
        "; register the group with init_group, provide_group, or require_group"@
    } else {
        ""@
    }
}

/// The text of [`group_hint`].
fn group_hint_text(dependency: &str) -> (s: &'static str)
    ensures
        s@ == group_hint(dependency@),
{
    if has_prefix(dependency, "modrun::group::Group<") || has_prefix(dependency, "modrun::Group<") {
        "; register the group with init_group, provide_group, or require_group"
    } else {
        ""
    }
}

impl Error {
    /// The displayed message.
    pub open spec fn message_spec(self) -> Seq<char>
        decreases self,
    {
        match self {
            Error::AlreadyProvided(t) => "type already provided: "@ + t@,
            Error::AlreadyProvidedPrivate { module, type_label } => "type already provided privately in module '"@
                + module@ + "': "@ + type_label@,
            Error::Cycle(path) => "dependency cycle detected involving: "@ + path@,
            Error::NotConstructed(t) => "dependency not constructed yet: "@ + t@,
            Error::MissingProvider { type_label, module } => "missing provider for type: "@ + type_label@
                + " (from module '"@ + module@ + "')"@,
            Error::ProviderMissingDep { provider, module, dependency } => "provider for "@ + provider@
                + " in module '"@ + module@ + "' needs a dependency nothing provides: "@ + dependency@ + group_hint(
                dependency@,
            ),
            Error::InvokerMissingDep { module, dependency } => "invoker in module '"@ + module@
                + "' needs a dependency nothing provides: "@ + dependency@ + group_hint(dependency@),
            Error::Downcast(t) => "failed to downcast value to "@ + t@,
            Error::ConstructorFailed { type_label, source } => "constructor for "@ + type_label@ + " failed: "@
                + source@,
            Error::InvokerFailed { function, source } => "invoker "@ + function@ + " failed: "@ + source@,
            Error::AppendAfterStart => "cannot append lifecycle hook after start has finished"@,
            Error::AppendWhileStopping => "cannot append lifecycle hook while stopping"@,
            Error::BuildTimeout(t) => "application build timed out after "@ + t.text_spec(),
            Error::StartTimeout(t) => "application start timed out after "@ + t.text_spec(),
            Error::StopTimeout(t) => "application stop timed out after "@ + t.text_spec(),
            Error::UnwindTimeout(t) => "application stop timed out after "@ + t.text_spec()
                + " while unwinding"@,
            Error::SigintListen(e) => "failed to listen for SIGINT: "@ + e@,
            Error::SigtermListen(e) => "failed to listen for SIGTERM: "@ + e@,
            Error::SignalListen(e) => "failed to listen for process signal: "@ + e@,
            Error::MultipleStop(m) => decimal(m.count_spec()) + " OnStop hooks failed: "@ + m.summary_spec(),
            Error::CleanupAfterFailure { cleanup, earlier } => "cleanup failed after an earlier phase error: "@
                + cleanup.message_spec() + "; earlier: "@ + earlier.message_spec(),
            Error::Hook { name, source } => match name {
                None => "hook failed: "@ + source@,
                Some(n) => "hook '"@ + n@ + "' failed: "@ + source@,
            },
            Error::Io { context, source } => context@ + ": "@ + source@,
            Error::TaskFailedDuringStart => "background task failed during start"@,
            Error::EmptyGroup { type_label } => "required group is empty: "@ + type_label@,
            Error::GroupMemberTypeMismatch { expected, actual } => "provide_group_dyn type mismatch: expected "@
                + expected@ + ", got "@ + actual@,
        }
    }

    /// The text of the failure this error wraps, if it wraps one: the user
    /// error of a constructor, invoker, hook, I/O or signal failure; the
    /// cleanup error of [`Error::CleanupAfterFailure`]; the first failure of
    /// [`Error::MultipleStop`].
    pub open spec fn source_spec(self) -> Option<Seq<char>> {
        match self {
            Error::ConstructorFailed { source, .. } => Some(source@),
            Error::InvokerFailed { source, .. } => Some(source@),
            Error::Hook { source, .. } => Some(source@),
            Error::Io { source, .. } => Some(source@),
            Error::SigintListen(e) => Some(e@),
            Error::SigtermListen(e) => Some(e@),
            Error::SignalListen(e) => Some(e@),
            Error::CleanupAfterFailure { cleanup, .. } => Some(cleanup.message_spec()),
            Error::MultipleStop(m) => if m.errors_spec().len() > 0 {
                Some(m.errors_spec()[0].message_spec())
            } else {
                None
            },
            _ => None,
        }
    }

    /// The displayed message.
    pub fn message(&self) -> (s: String)
        ensures
            s@ == self.message_spec(),
        decreases self,
    {
        match self {
            Error::AlreadyProvided(t) => join2("type already provided: ", t),
            Error::AlreadyProvidedPrivate { module, type_label } => {
                let mut s = join3("type already provided privately in module '", module, "': ");
                s.append(type_label);
                s
            },
            Error::Cycle(path) => join2("dependency cycle detected involving: ", path.as_str()),
            Error::NotConstructed(t) => join2("dependency not constructed yet: ", t),
            Error::MissingProvider { type_label, module } => {
                let mut s = join3("missing provider for type: ", type_label, " (from module '");
                s.append(module);
                s.append("')");
                s
            },
            Error::ProviderMissingDep { provider, module, dependency } => {
                let mut s = join3("provider for ", provider, " in module '");
                s.append(module);
                s.append("' needs a dependency nothing provides: ");
                s.append(dependency);
                s.append(group_hint_text(dependency));
                s
            },
            Error::InvokerMissingDep { module, dependency } => {
                let mut s = join3("invoker in module '", module, "' needs a dependency nothing provides: ");
                s.append(dependency);
                s.append(group_hint_text(dependency));
                s
            },
            Error::Downcast(t) => join2("failed to downcast value to ", t),
            Error::ConstructorFailed { type_label, source } => {
                let mut s = join3("constructor for ", type_label, " failed: ");
                s.append(source.as_str());
                s
            },
            Error::InvokerFailed { function, source } => {
                let mut s = join3("invoker ", function, " failed: ");
                s.append(source.as_str());
                s
            },
            Error::AppendAfterStart => String::from_str("cannot append lifecycle hook after start has finished"),
            Error::AppendWhileStopping => String::from_str("cannot append lifecycle hook while stopping"),
            Error::BuildTimeout(t) => join2("application build timed out after ", t.text().as_str()),
            Error::StartTimeout(t) => join2("application start timed out after ", t.text().as_str()),
            Error::StopTimeout(t) => join2("application stop timed out after ", t.text().as_str()),
            Error::UnwindTimeout(t) => join3(
                "application stop timed out after ",
                t.text().as_str(),
                " while unwinding",
            ),
            Error::SigintListen(e) => join2("failed to listen for SIGINT: ", e.as_str()),
            Error::SigtermListen(e) => join2("failed to listen for SIGTERM: ", e.as_str()),
            Error::SignalListen(e) => join2("failed to listen for process signal: ", e.as_str()),
            Error::MultipleStop(m) => {
                let mut s = decimal_text(m.count());
                s.append(" OnStop hooks failed: ");
                s.append(m.summary());
                s
            },
            Error::CleanupAfterFailure { cleanup, earlier } => {
                let c = cleanup.message();
                let e = earlier.message();
                let mut s = join3("cleanup failed after an earlier phase error: ", c.as_str(), "; earlier: ");
                s.append(e.as_str());
                s
            },
            Error::Hook { name, source } => match name {
                None => join2("hook failed: ", source.as_str()),
                Some(n) => {
                    let mut s = join3("hook '", n, "' failed: ");
                    s.append(source.as_str());
                    s
                },
            },
            Error::Io { context, source } => join3(context.as_str(), ": ", source.as_str()),
            Error::TaskFailedDuringStart => String::from_str("background task failed during start"),
            Error::EmptyGroup { type_label } => join2("required group is empty: ", type_label),
            Error::GroupMemberTypeMismatch { expected, actual } => {
                let mut s = join3("provide_group_dyn type mismatch: expected ", expected, ", got ");
                s.append(actual);
                s
            },
        }
    }

    /// Text of the wrapped failure; see [`Error::source_spec`].
    pub fn source_message(&self) -> (s: Option<String>)
        ensures
            s is Some <==> self.source_spec() is Some,
            s matches Some(t) ==> self.source_spec() == Some(t@),
    {
        match self {
            Error::ConstructorFailed { source, .. } => Some(source.clone()),
            Error::InvokerFailed { source, .. } => Some(source.clone()),
            Error::Hook { source, .. } => Some(source.clone()),
            Error::Io { source, .. } => Some(source.clone()),
            Error::SigintListen(e) => Some(e.clone()),
            Error::SigtermListen(e) => Some(e.clone()),
            Error::SignalListen(e) => Some(e.clone()),
            Error::CleanupAfterFailure { cleanup, .. } => Some(cleanup.message()),
            Error::MultipleStop(m) => m.first_message(),
            _ => None,
        }
    }

    /// Wrap a hook failure, keeping its text as the source.
    pub fn hook(source: String) -> (e: Self)
        ensures
            e == (Error::Hook { name: None, source }),
    {
        Error::Hook { name: None, source }
    }

    /// Wrap an I/O failure with a short context label (e.g. `"bind 127.0.0.1:3000"`).
    pub fn io(context: String, source: String) -> (e: Self)
        ensures
            e == (Error::Io { context, source }),
    {
        Error::Io { context, source }
    }

    /// A fallible constructor for `type_label` failed with `source`.
    pub fn constructor_failed(type_label: &'static str, source: String) -> (e: Self)
        ensures
            e == (Error::ConstructorFailed { type_label, source }),
    {
        Error::ConstructorFailed { type_label, source }
    }

    /// The fallible invoker `function` failed with `source`.
    pub fn invoker_failed(function: &'static str, source: String) -> (e: Self)
        ensures
            e == (Error::InvokerFailed { function, source }),
    {
        Error::InvokerFailed { function, source }
    }

    /// Attribute an unnamed hook failure to the hook `name`; every other
    /// error keeps its identity.
    pub fn with_hook_name(self, name: &'static str) -> (e: Self)
        ensures
            self matches Error::Hook { name: None, source } ==> e == (Error::Hook { name: Some(name), source }),
            !(self matches Error::Hook { name: None, .. }) ==> e == self,
    {
        match self {
            Error::Hook { name: None, source } => Error::Hook { name: Some(name), source },
            other => other,
        }
    }

    /// Aggregate several OnStop failures.
    pub fn multiple_stop(errors: Vec<Error>) -> (e: Self)
        ensures
            e matches Error::MultipleStop(m) && m.errors_spec() == errors@ && m.count_spec() == errors@.len()
                && m.summary_spec() == joined_messages(errors@),
    {
        let count = errors.len();
        let mut summary = String::new();
        let mut i: usize = 0;
        while i < count
            invariant
                count == errors.len(),
                i <= count,
                summary@ == joined_messages(errors@.subrange(0, i as int)),
            decreases count - i,
        {
            let m = errors[i].message();
            proof {
                let pre = errors@.subrange(0, i as int + 1);
                assert(pre.drop_last() =~= errors@.subrange(0, i as int));
                assert(pre.last() == errors@[i as int]);
            }
            if i > 0 {
                summary.append("; ");
            } else {
                assert(errors@.subrange(0, 1) =~= seq![errors@[0]]);
                assert(summary@ =~= Seq::<char>::empty());
            }
            summary.append(m.as_str());
            i = i + 1;
        }
        assert(errors@.subrange(0, count as int) =~= errors@);
        Error::MultipleStop(MultipleStopError { count, summary, errors })
    }
}

/// No failure is `Ok`; one failure is itself; several become
/// [`Error::MultipleStop`] in the order given.
pub fn aggregate_errors(errors: Vec<Error>) -> (r: Result<(), Error>)
    ensures
        errors@.len() == 0 ==> r is Ok,
        errors@.len() == 1 ==> r == Err::<(), Error>(errors@[0]),
        errors@.len() > 1 ==> (r matches Err(Error::MultipleStop(m)) && m.errors_spec() == errors@),
{
    let mut errors = errors;
    if errors.len() == 0 {
        Ok(())
    } else if errors.len() == 1 {
        Err(errors.pop().unwrap())
    } else {
        Err(Error::multiple_stop(errors))
    }
}

/// Keep a phase error; if cleanup also failed, keep both.
pub fn with_cleanup(earlier: Error, cleanup: Result<(), Error>) -> (e: Error)
    ensures
        cleanup is Ok ==> e == earlier,
        cleanup matches Err(c) ==> e == (Error::CleanupAfterFailure { cleanup: Box::new(c), earlier: Box::new(earlier) }),
{
    match cleanup {
        Ok(()) => earlier,
        Err(cleanup) => Error::CleanupAfterFailure { cleanup: Box::new(cleanup), earlier: Box::new(earlier) },
    }
}

/// A successful phase reports its cleanup result; a failed phase keeps its
/// error and, if cleanup failed too, both.
pub fn combine_results(earlier: Result<(), Error>, later: Result<(), Error>) -> (r: Result<(), Error>)
    ensures
        earlier is Ok ==> r == later,
        earlier matches Err(e) ==> (r matches Err(x) && (later is Ok ==> x == e) && (later matches Err(c)
            ==> x == (Error::CleanupAfterFailure { cleanup: Box::new(c), earlier: Box::new(e) }))),
{
    match earlier {
        Ok(()) => later,
        Err(e) => Err(with_cleanup(e, later)),
    }
}

} // verus!
