//! Framework event messages, in the layout of uber/fx's console logger.
//!
//! Each function returns the text of one event line; the application emits it
//! at the level its documentation names (INFO for progress, ERROR for
//! failures, WARN for a dropped running application) under the log target
//! `modrun`.

use vstd::prelude::*;
use vstd::string::*;

use crate::error::Error;
use crate::span::Span;
use crate::text::{decimal, decimal_text};

verus! {

/// Log target of every framework event.
pub const TARGET: &'static str = "modrun";

/// `" from module \"<module>\""`, or nothing for the root module.
pub open spec fn module_suffix_spec(module: Seq<char>) -> Seq<char> {
    if module == "<root>"@ {
        Seq::empty()
    } else {
        " from module \""@ + module + "\""@
    }
}

/// `"<name> (#<hook>)"`.
pub open spec fn hook_label_spec(name: Seq<char>, hook: nat) -> Seq<char> {
    name + " (#"@ + decimal(hook) + ")"@
}

/// `parts` joined with `sep`.
pub open spec fn join_with(parts: Seq<Seq<char>>, sep: Seq<char>) -> Seq<char>
    decreases parts.len(),
{
    if parts.len() == 0 {
        Seq::empty()
    } else if parts.len() == 1 {
        parts[0]
    } else {
        join_with(parts.drop_last(), sep) + sep + parts.last()
    }
}

/// Names of the dependencies that are not framework handles, in order.
pub open spec fn user_dep_names(deps: Seq<(u64, &'static str)>, framework: Seq<u64>) -> Seq<Seq<char>>
    decreases deps.len(),
{
    if deps.len() == 0 {
        Seq::empty()
    } else {
        let rest = user_dep_names(deps.drop_last(), framework);
        if framework.contains(deps.last().0) {
            rest
        } else {
            rest.push(deps.last().1@)
        }
    }
}

/// The `" (PRIVATE)"` marker of private registrations.
pub open spec fn private_marker(private: bool) -> Seq<char> {
    if private {
        " (PRIVATE)"@
    } else {
        Seq::empty()
    }
}

/// The lower-case ASCII letters.
pub open spec fn lower_letters() -> Seq<char> {
    "abcdefghijklmnopqrstuvwxyz"@
}

/// The upper-case ASCII letters.
pub open spec fn upper_letters() -> Seq<char> {
    "ABCDEFGHIJKLMNOPQRSTUVWXYZ"@
}

/// The upper-case letter of `c` when `c` is one of the lower-case letters
/// from position `k` on; otherwise `c` itself.
pub open spec fn upper_from(c: char, k: int) -> char
    decreases 26 - k,
{
    if k >= 26 || k < 0 {
        c
    } else if lower_letters()[k] == c {
        upper_letters()[k]
    } else {
        upper_from(c, k + 1)
    }
}

/// ASCII upper case of one character; other characters are kept.
pub open spec fn ascii_upper_char(c: char) -> char {
    upper_from(c, 0)
}

/// ASCII upper case of a text.
pub open spec fn ascii_upper(s: Seq<char>) -> Seq<char> {
    s.map_values(|c: char| ascii_upper_char(c))
}

/// `id` occurs in `ids`.
pub fn contains_id(ids: &[u64], id: u64) -> (b: bool)
    ensures
        b == ids@.contains(id),
{
    let mut i: usize = 0;
    while i < ids.len()
        invariant
            i <= ids.len(),
            forall|j: int| 0 <= j < i ==> ids@[j] != id,
        decreases ids.len() - i,
    {
        if ids[i] == id {
            assert(ids@[i as int] == id);
            return true;
        }
        i = i + 1;
    }
    false
}

/// `" from module \"<module>\""`, or nothing for the root module.
pub fn module_suffix(module: &str) -> (s: String)
    ensures
        s@ == module_suffix_spec(module@),
{
    let root = "<root>";
    if str_eq(module, root) {
        String::new()
    } else {
        let mut s = String::from_str(" from module \"");
        s.append(module);
        s.append("\"");
        s
    }
}

/// The two texts are equal.
pub fn str_eq(a: &str, b: &str) -> (r: bool)
    ensures
        r == (a@ == b@),
{
    let n = a.unicode_len();
    if n != b.unicode_len() {
        return false;
    }
    let mut i: usize = 0;
    while i < n
        invariant
            n == a@.len(),
            n == b@.len(),
            i <= n,
            forall|j: int| 0 <= j < i ==> a@[j] == b@[j],
        decreases n - i,
    {
        if a.get_char(i) != b.get_char(i) {
            return false;
        }
        i = i + 1;
    }
    assert(a@ =~= b@);
    true
}

/// `"<name> (#<hook>)"`: how hook `hook` appears in log lines.
pub fn hook_label(name: &str, hook: usize) -> (s: String)
    ensures
        s@ == hook_label_spec(name@, hook as nat),
{
    let mut s = String::from_str(name);
    s.append(" (#");
    let n = decimal_text(hook);
    s.append(n.as_str());
    s.append(")");
    s
}

/// Names of the dependencies that are not framework handles, joined with
/// `", "`.
pub fn user_deps(deps: &[(u64, &'static str)], framework: &[u64]) -> (s: String)
    ensures
        s@ == join_with(user_dep_names(deps@, framework@), ", "@),
{
    let mut s = String::new();
    let mut any = false;
    let mut i: usize = 0;
    while i < deps.len()
        invariant
            i <= deps.len(),
            s@ == join_with(user_dep_names(deps@.subrange(0, i as int), framework@), ", "@),
            any == (user_dep_names(deps@.subrange(0, i as int), framework@).len() > 0),
        decreases deps.len() - i,
    {
        let (id, name) = deps[i];
        let ghost pre = deps@.subrange(0, i as int);
        let ghost next = deps@.subrange(0, i as int + 1);
        assert(next.drop_last() =~= pre);
        assert(next.last() == (id, name));
        if !contains_id(framework, id) {
            let ghost names = user_dep_names(pre, framework@);
            if any {
                s.append(", ");
            } else {
                assert(names.push(name@) =~= seq![name@]);
            }
            s.append(name);
            any = true;
            assert(names.push(name@).drop_last() =~= names);
        }
        i = i + 1;
    }
    assert(deps@.subrange(0, deps@.len() as int) =~= deps@);
    s
}

/// ASCII upper case of `text`.
pub fn to_ascii_upper(text: &str) -> (s: String)
    ensures
        s@ == ascii_upper(text@),
{
    let lower = "abcdefghijklmnopqrstuvwxyz";
    let upper = "ABCDEFGHIJKLMNOPQRSTUVWXYZ";
    proof {
        reveal_strlit("abcdefghijklmnopqrstuvwxyz");
        reveal_strlit("ABCDEFGHIJKLMNOPQRSTUVWXYZ");
    }
    let n = text.unicode_len();
    let mut s = String::new();
    let mut i: usize = 0;
    while i < n
        invariant
            n == text@.len(),
            i <= n,
            lower@ == lower_letters(),
            upper@ == upper_letters(),
            lower@.len() == 26,
            upper@.len() == 26,
            s@ == ascii_upper(text@.subrange(0, i as int)),
        decreases n - i,
    {
        let c = text.get_char(i);
        let mut k: usize = 0;
        while k < 26 && lower.get_char(k) != c
            invariant
                k <= 26,
                lower@ == lower_letters(),
                lower@.len() == 26,
                upper_from(c, 0) == upper_from(c, k as int),
            decreases 26 - k,
        {
            k = k + 1;
        }
        proof {
            assert(text@.subrange(0, i as int + 1) =~= text@.subrange(0, i as int).push(c));
        }
        if k < 26 {
            let one = upper.substring_char(k, k + 1);
            assert(one@ =~= seq![ascii_upper_char(c)]);
            s.append(one);
        } else {
            let one = text.substring_char(i, i + 1);
            assert(one@ =~= seq![ascii_upper_char(c)]);
            s.append(one);
        }
        assert(s@ =~= ascii_upper(text@.subrange(0, i as int + 1)));
        i = i + 1;
    }
    assert(text@.subrange(0, n as int) =~= text@);
    s
}

/// `[modrun] INVOKE\t\t<function><module suffix>`.
pub fn invoking(function: &str, module: &str) -> (s: String)
    ensures
        s@ == "[modrun] INVOKE\t\t"@ + function@ + module_suffix_spec(module@),
{
    let mut s = String::from_str("[modrun] INVOKE\t\t");
    s.append(function);
    let suffix = module_suffix(module);
    s.append(suffix.as_str());
    s
}

/// `[modrun] ERROR\t\tinvoke failed: <err> (<function>[ (deps: <user deps>)])<module suffix>`.
pub fn invoke_failed(function: &str, deps: &[(u64, &'static str)], framework: &[u64], module: &str, err: &Error) -> (s: String)
    ensures
        s@ == "[modrun] ERROR\t\tinvoke failed: "@ + err.message_spec() + " ("@ + function@ + (if join_with(
            user_dep_names(deps@, framework@),
            ", "@,
        ).len() == 0 {
            Seq::<char>::empty()
        } else {
            " (deps: "@ + join_with(user_dep_names(deps@, framework@), ", "@) + ")"@
        }) + ")"@ + module_suffix_spec(module@),
{
    let users = user_deps(deps, framework);
    let mut s = String::from_str("[modrun] ERROR\t\tinvoke failed: ");
    let m = err.message();
    s.append(m.as_str());
    s.append(" (");
    s.append(function);
    if users.as_str().unicode_len() > 0 {
        s.append(" (deps: ");
        s.append(users.as_str());
        s.append(")");
    }
    s.append(")");
    let suffix = module_suffix(module);
    s.append(suffix.as_str());
    s
}

/// `[modrun] ERROR\t\tinvoke cancelled (<function>)<module suffix>`.
pub fn invoke_cancelled(function: &str, module: &str) -> (s: String)
    ensures
        s@ == "[modrun] ERROR\t\tinvoke cancelled ("@ + function@ + ")"@ + module_suffix_spec(module@),
{
    let mut s = String::from_str("[modrun] ERROR\t\tinvoke cancelled (");
    s.append(function);
    s.append(")");
    let suffix = module_suffix(module);
    s.append(suffix.as_str());
    s
}

/// `[modrun] ERROR\t\tinvoke panicked (<function>)<module suffix>`.
pub fn invoke_panicked(function: &str, module: &str) -> (s: String)
    ensures
        s@ == "[modrun] ERROR\t\tinvoke panicked ("@ + function@ + ")"@ + module_suffix_spec(module@),
{
    let mut s = String::from_str("[modrun] ERROR\t\tinvoke panicked (");
    s.append(function);
    s.append(")");
    let suffix = module_suffix(module);
    s.append(suffix.as_str());
    s
}

/// `[modrun] PROVIDE[ (PRIVATE)]\t<type> <= <constructor><module suffix>`.
pub fn provided(type_label: &str, constructor: &str, module: &str, private: bool) -> (s: String)
    ensures
        s@ == "[modrun] PROVIDE"@ + private_marker(private) + "\t"@ + type_label@ + " <= "@ + constructor@
            + module_suffix_spec(module@),
{
    let mut s = String::from_str("[modrun] PROVIDE");
    if private {
        s.append(" (PRIVATE)");
    }
    s.append("\t");
    s.append(type_label);
    s.append(" <= ");
    s.append(constructor);
    let suffix = module_suffix(module);
    s.append(suffix.as_str());
    s
}

/// `[modrun] SUPPLY[ (PRIVATE)]\t<type><module suffix>`.
pub fn supplied(type_label: &str, module: &str, private: bool) -> (s: String)
    ensures
        s@ == "[modrun] SUPPLY"@ + private_marker(private) + "\t"@ + type_label@ + module_suffix_spec(module@),
{
    let mut s = String::from_str("[modrun] SUPPLY");
    if private {
        s.append(" (PRIVATE)");
    }
    s.append("\t");
    s.append(type_label);
    let suffix = module_suffix(module);
    s.append(suffix.as_str());
    s
}

/// `[modrun] PROVIDE GROUP[ (PRIVATE)]\t<type> <= <constructor><module suffix>`.
pub fn provided_group(type_label: &str, constructor: &str, module: &str, private: bool) -> (s: String)
    ensures
        s@ == "[modrun] PROVIDE GROUP"@ + private_marker(private) + "\t"@ + type_label@ + " <= "@ + constructor@
            + module_suffix_spec(module@),
{
    let mut s = String::from_str("[modrun] PROVIDE GROUP");
    if private {
        s.append(" (PRIVATE)");
    }
    s.append("\t");
    s.append(type_label);
    s.append(" <= ");
    s.append(constructor);
    let suffix = module_suffix(module);
    s.append(suffix.as_str());
    s
}

/// `[modrun] SUPPLY GROUP[ (PRIVATE)]\t<type><module suffix>`.
pub fn supplied_group(type_label: &str, module: &str, private: bool) -> (s: String)
    ensures
        s@ == "[modrun] SUPPLY GROUP"@ + private_marker(private) + "\t"@ + type_label@ + module_suffix_spec(
            module@,
        ),
{
    let mut s = String::from_str("[modrun] SUPPLY GROUP");
    if private {
        s.append(" (PRIVATE)");
    }
    s.append("\t");
    s.append(type_label);
    let suffix = module_suffix(module);
    s.append(suffix.as_str());
    s
}

/// `[modrun] GRAPH\t\twrote dependency graph to <path>`.
pub fn dot_graph_written(path: &str) -> (s: String)
    ensures
        s@ == "[modrun] GRAPH\t\twrote dependency graph to "@ + path@,
{
    let mut s = String::from_str("[modrun] GRAPH\t\twrote dependency graph to ");
    s.append(path);
    s
}

/// `[modrun] BEFORE RUN\tprovide: <constructor><module suffix>`.
pub fn before_run(name: &str, module: &str) -> (s: String)
    ensures
        s@ == "[modrun] BEFORE RUN\tprovide: "@ + name@ + module_suffix_spec(module@),
{
    let mut s = String::from_str("[modrun] BEFORE RUN\tprovide: ");
    s.append(name);
    let suffix = module_suffix(module);
    s.append(suffix.as_str());
    s
}

/// `[modrun] RUN\t\tprovide: <constructor> in <runtime><module suffix>`.
pub fn run_ok(name: &str, module: &str, runtime: Span) -> (s: String)
    ensures
        s@ == "[modrun] RUN\t\tprovide: "@ + name@ + " in "@ + runtime.text_spec() + module_suffix_spec(module@),
{
    let mut s = String::from_str("[modrun] RUN\t\tprovide: ");
    s.append(name);
    s.append(" in ");
    let t = runtime.text();
    s.append(t.as_str());
    let suffix = module_suffix(module);
    s.append(suffix.as_str());
    s
}

/// `[modrun] ERROR\t\tprovide: <constructor> failed: <err><module suffix>`.
pub fn run_err(name: &str, module: &str, err: &Error) -> (s: String)
    ensures
        s@ == "[modrun] ERROR\t\tprovide: "@ + name@ + " failed: "@ + err.message_spec() + module_suffix_spec(
            module@,
        ),
{
    let mut s = String::from_str("[modrun] ERROR\t\tprovide: ");
    s.append(name);
    s.append(" failed: ");
    let m = err.message();
    s.append(m.as_str());
    let suffix = module_suffix(module);
    s.append(suffix.as_str());
    s
}

/// `[modrun] ERROR\t\tprovide: <constructor> cancelled<module suffix>`.
pub fn run_cancelled(name: &str, module: &str) -> (s: String)
    ensures
        s@ == "[modrun] ERROR\t\tprovide: "@ + name@ + " cancelled"@ + module_suffix_spec(module@),
{
    let mut s = String::from_str("[modrun] ERROR\t\tprovide: ");
    s.append(name);
    s.append(" cancelled");
    let suffix = module_suffix(module);
    s.append(suffix.as_str());
    s
}

/// `[modrun] ERROR\t\tprovide: <constructor> panicked<module suffix>`.
pub fn run_panicked(name: &str, module: &str) -> (s: String)
    ensures
        s@ == "[modrun] ERROR\t\tprovide: "@ + name@ + " panicked"@ + module_suffix_spec(module@),
{
    let mut s = String::from_str("[modrun] ERROR\t\tprovide: ");
    s.append(name);
    s.append(" panicked");
    let suffix = module_suffix(module);
    s.append(suffix.as_str());
    s
}

/// `<head><label><tail>`.
fn hook_line(head: &str, hook: usize, name: &str, tail: &str) -> (s: String)
    ensures
        s@ == head@ + hook_label_spec(name@, hook as nat) + tail@,
{
    let mut s = String::from_str(head);
    let label = hook_label(name, hook);
    s.append(label.as_str());
    s.append(tail);
    s
}

/// `[modrun] HOOK OnStart\t\t<label> executing`.
pub fn on_start_executing(hook: usize, name: &str) -> (s: String)
    ensures
        s@ == "[modrun] HOOK OnStart\t\t"@ + hook_label_spec(name@, hook as nat) + " executing"@,
{
    hook_line("[modrun] HOOK OnStart\t\t", hook, name, " executing")
}

/// `[modrun] HOOK OnStart\t\t<label> ran successfully in <runtime>`.
pub fn on_start_executed(hook: usize, name: &str, runtime: Span) -> (s: String)
    ensures
        s@ == "[modrun] HOOK OnStart\t\t"@ + hook_label_spec(name@, hook as nat) + " ran successfully in "@
            + runtime.text_spec(),
{
    let mut s = hook_line("[modrun] HOOK OnStart\t\t", hook, name, " ran successfully in ");
    let t = runtime.text();
    s.append(t.as_str());
    s
}

/// `[modrun] HOOK OnStart\t\t<label> failed: <err>`.
pub fn on_start_failed(hook: usize, name: &str, err: &Error) -> (s: String)
    ensures
        s@ == "[modrun] HOOK OnStart\t\t"@ + hook_label_spec(name@, hook as nat) + " failed: "@ + err.message_spec(),
{
    let mut s = hook_line("[modrun] HOOK OnStart\t\t", hook, name, " failed: ");
    let m = err.message();
    s.append(m.as_str());
    s
}

/// `[modrun] HOOK OnStart\t\t<label> cancelled`.
pub fn on_start_cancelled(hook: usize, name: &str) -> (s: String)
    ensures
        s@ == "[modrun] HOOK OnStart\t\t"@ + hook_label_spec(name@, hook as nat) + " cancelled"@,
{
    hook_line("[modrun] HOOK OnStart\t\t", hook, name, " cancelled")
}

/// `[modrun] HOOK OnStart\t\t<label> panicked`.
pub fn on_start_panicked(hook: usize, name: &str) -> (s: String)
    ensures
        s@ == "[modrun] HOOK OnStart\t\t"@ + hook_label_spec(name@, hook as nat) + " panicked"@,
{
    hook_line("[modrun] HOOK OnStart\t\t", hook, name, " panicked")
}

/// `[modrun] HOOK OnStop\t\t<label> executing`.
pub fn on_stop_executing(hook: usize, name: &str) -> (s: String)
    ensures
        s@ == "[modrun] HOOK OnStop\t\t"@ + hook_label_spec(name@, hook as nat) + " executing"@,
{
    hook_line("[modrun] HOOK OnStop\t\t", hook, name, " executing")
}

/// `[modrun] HOOK OnStop\t\t<label> ran successfully in <runtime>`.
pub fn on_stop_executed(hook: usize, name: &str, runtime: Span) -> (s: String)
    ensures
        s@ == "[modrun] HOOK OnStop\t\t"@ + hook_label_spec(name@, hook as nat) + " ran successfully in "@
            + runtime.text_spec(),
{
    let mut s = hook_line("[modrun] HOOK OnStop\t\t", hook, name, " ran successfully in ");
    let t = runtime.text();
    s.append(t.as_str());
    s
}

/// `[modrun] HOOK OnStop\t\t<label> failed: <err>`.
pub fn on_stop_failed(hook: usize, name: &str, err: &Error) -> (s: String)
    ensures
        s@ == "[modrun] HOOK OnStop\t\t"@ + hook_label_spec(name@, hook as nat) + " failed: "@ + err.message_spec(),
{
    let mut s = hook_line("[modrun] HOOK OnStop\t\t", hook, name, " failed: ");
    let m = err.message();
    s.append(m.as_str());
    s
}

/// `[modrun] HOOK OnStop\t\t<label> cancelled`.
pub fn on_stop_cancelled(hook: usize, name: &str) -> (s: String)
    ensures
        s@ == "[modrun] HOOK OnStop\t\t"@ + hook_label_spec(name@, hook as nat) + " cancelled"@,
{
    hook_line("[modrun] HOOK OnStop\t\t", hook, name, " cancelled")
}

/// `[modrun] HOOK OnStop\t\t<label> panicked`.
pub fn on_stop_panicked(hook: usize, name: &str) -> (s: String)
    ensures
        s@ == "[modrun] HOOK OnStop\t\t"@ + hook_label_spec(name@, hook as nat) + " panicked"@,
{
    hook_line("[modrun] HOOK OnStop\t\t", hook, name, " panicked")
}

/// `[modrun] RUNNING`.
pub fn started() -> (s: String)
    ensures
        s@ == "[modrun] RUNNING"@,
{
    String::from_str("[modrun] RUNNING")
}

/// `<head><err>`.
fn error_line(head: &str, err: &Error) -> (s: String)
    ensures
        s@ == head@ + err.message_spec(),
{
    let mut s = String::from_str(head);
    let m = err.message();
    s.append(m.as_str());
    s
}

/// `[modrun] ERROR\t\tFailed to start: <err>`.
pub fn start_failed(err: &Error) -> (s: String)
    ensures
        s@ == "[modrun] ERROR\t\tFailed to start: "@ + err.message_spec(),
{
    error_line("[modrun] ERROR\t\tFailed to start: ", err)
}

/// `[modrun] ERROR\t\tStart failed, rolling back: <err>`.
pub fn rolling_back(err: &Error) -> (s: String)
    ensures
        s@ == "[modrun] ERROR\t\tStart failed, rolling back: "@ + err.message_spec(),
{
    error_line("[modrun] ERROR\t\tStart failed, rolling back: ", err)
}

/// `[modrun] ERROR\t\tStart interrupted by shutdown, rolling back`.
pub fn rolling_back_after_shutdown() -> (s: String)
    ensures
        s@ == "[modrun] ERROR\t\tStart interrupted by shutdown, rolling back"@,
{
    String::from_str("[modrun] ERROR\t\tStart interrupted by shutdown, rolling back")
}

/// `[modrun] ERROR\t\tCouldn't roll back cleanly: <err>`.
pub fn rollback_failed(err: &Error) -> (s: String)
    ensures
        s@ == "[modrun] ERROR\t\tCouldn't roll back cleanly: "@ + err.message_spec(),
{
    error_line("[modrun] ERROR\t\tCouldn't roll back cleanly: ", err)
}

/// `[modrun] ROLLED BACK`.
pub fn rolled_back() -> (s: String)
    ensures
        s@ == "[modrun] ROLLED BACK"@,
{
    String::from_str("[modrun] ROLLED BACK")
}

/// `[modrun] <SIGNAL>`, the signal's name in upper case.
pub fn received_signal(signal: &str) -> (s: String)
    ensures
        s@ == "[modrun] "@ + ascii_upper(signal@),
{
    let mut s = String::from_str("[modrun] ");
    let upper = to_ascii_upper(signal);
    s.append(upper.as_str());
    s
}

/// `[modrun] SHUTDOWN REQUESTED`.
pub fn shutdown_requested() -> (s: String)
    ensures
        s@ == "[modrun] SHUTDOWN REQUESTED"@,
{
    String::from_str("[modrun] SHUTDOWN REQUESTED")
}

/// `[modrun] ERROR\t\tFailed to stop cleanly: <err>`.
pub fn stop_failed(err: &Error) -> (s: String)
    ensures
        s@ == "[modrun] ERROR\t\tFailed to stop cleanly: "@ + err.message_spec(),
{
    error_line("[modrun] ERROR\t\tFailed to stop cleanly: ", err)
}

/// `[modrun] STOPPED`.
pub fn stopped() -> (s: String)
    ensures
        s@ == "[modrun] STOPPED"@,
{
    String::from_str("[modrun] STOPPED")
}

/// `[modrun] ERROR\t\tOnStop hooks abandoned after timeout (leftover: <count>)`.
pub fn hooks_abandoned(count: usize) -> (s: String)
    ensures
        s@ == "[modrun] ERROR\t\tOnStop hooks abandoned after timeout (leftover: "@ + decimal(count as nat) + ")"@,
{
    let mut s = String::from_str("[modrun] ERROR\t\tOnStop hooks abandoned after timeout (leftover: ");
    let n = decimal_text(count);
    s.append(n.as_str());
    s.append(")");
    s
}

/// `[modrun] WARN\t\tdropping RunningApp without stop(); OnStop hooks will not run`.
pub fn running_app_dropped() -> (s: String)
    ensures
        s@ == "[modrun] WARN\t\tdropping RunningApp without stop(); OnStop hooks will not run"@,
{
    String::from_str("[modrun] WARN\t\tdropping RunningApp without stop(); OnStop hooks will not run")
}

/// The text of a message field that was recorded in `Debug` form: without
/// the surrounding double quotes, if it has them.
pub open spec fn strip_debug_quotes_spec(m: Seq<char>) -> Seq<char> {
    if m.len() >= 2 && m[0] == '"' && m[m.len() - 1] == '"' {
        m.subrange(1, m.len() - 1)
    } else {
        m
    }
}

/// A message without the double quotes that `Debug` formatting put around
/// it.
pub fn strip_debug_quotes(message: &str) -> (r: &str)
    ensures
        r@ == strip_debug_quotes_spec(message@),
{
    let n = message.unicode_len();
    if n >= 2 && message.get_char(0) == '"' && message.get_char(n - 1) == '"' {
        message.substring_char(1, n - 1)
    } else {
        message
    }
}

} // verus!
