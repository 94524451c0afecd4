use modrun::container::{Container, ValueBinding};
use modrun::error::Error;
use modrun::provider::{DynInvoker, DynProvider, ProviderKey, ScopedInvoker};
use modrun::scope::ScopeId;

const LIFECYCLE: u64 = 1000;
const ARC_LIFECYCLE: u64 = 1001;
const SHUTDOWNER: u64 = 1002;
const ARC_SHUTDOWNER: u64 = 1003;

/// A container as an application starts it: framework handles seeded.
fn app_container() -> Container {
    let mut c = Container::new();
    c.seed_builtin(LIFECYCLE, "modrun::lifecycle::Lifecycle", ARC_LIFECYCLE, "alloc::sync::Arc<modrun::lifecycle::Lifecycle>")
        .unwrap();
    c.seed_builtin(SHUTDOWNER, "modrun::shutdown::Shutdowner", ARC_SHUTDOWNER, "alloc::sync::Arc<modrun::shutdown::Shutdowner>")
        .unwrap();
    c
}

fn provide(c: &mut Container, scope: ScopeId, private: bool, ty: u64, name: &'static str, ctor: &'static str, deps: Vec<(u64, &'static str)>) {
    c.insert_provider(DynProvider::new(ty, name, ctor, vec![ty + 1], deps), scope, private)
        .unwrap();
}

fn invoker(scope: ScopeId, name: &'static str, deps: Vec<(u64, &'static str)>) -> ScopedInvoker {
    ScopedInvoker { scope, invoker: DynInvoker::new(name, deps) }
}

fn validation_error(mut c: Container, invokers: Vec<ScopedInvoker>) -> String {
    c.validate(&invokers).unwrap_err().message()
}

// ---- provide / supply / invoke ----------------------------------------------

#[test]
fn missing_provider_errors() {
    let c = app_container();
    let msg = validation_error(c, vec![invoker(ScopeId::root(), "wiring::needs", vec![(10, "wiring::Missing")])]);
    assert!(msg.contains("Missing") || msg.contains("missing"), "unexpected error: {msg}");
}

#[test]
fn duplicate_provide_errors() {
    let mut c = app_container();
    provide(&mut c, ScopeId::root(), false, 10, "u32", "wiring::a", Vec::new());
    let err = c
        .insert_provider(DynProvider::new(10, "u32", "wiring::b", vec![11], Vec::new()), ScopeId::root(), false)
        .unwrap_err();
    let msg = err.message();
    assert!(msg.contains("already provided"), "unexpected error: {msg}");
}

#[test]
fn validation_errors_follow_registration_order() {
    for _ in 0..16 {
        let mut c = app_container();
        provide(&mut c, ScopeId::root(), false, 10, "wiring::A", "wiring::new_a", vec![(30, "wiring::MissingA")]);
        provide(&mut c, ScopeId::root(), false, 20, "wiring::B", "wiring::new_b", vec![(40, "wiring::MissingB")]);
        let msg = validation_error(c, Vec::new());
        assert!(msg.contains("MissingA") && !msg.contains("MissingB"), "unexpected validation order: {msg}");
    }
}

#[test]
fn dependency_cycle_fails_build() {
    let mut c = app_container();
    provide(&mut c, ScopeId::root(), false, 10, "wiring::A", "wiring::new_a", vec![(20, "wiring::B")]);
    provide(&mut c, ScopeId::root(), false, 20, "wiring::B", "wiring::new_b", vec![(10, "wiring::A")]);
    let msg = validation_error(c, Vec::new());
    assert!(msg.contains("cycle"), "unexpected: {msg}");
    assert!(msg.contains("->"), "cycle error should list the path, got: {msg}");
}

#[test]
fn invoker_missing_dependency_fails_before_construction() {
    let mut c = app_container();
    provide(&mut c, ScopeId::root(), false, 10, "wiring::Built", "wiring::{{closure}}", Vec::new());
    let invokers = vec![invoker(ScopeId::root(), "wiring::needs", vec![(10, "wiring::Built"), (20, "wiring::Missing")])];
    let err = c.validate(&invokers).unwrap_err();
    let msg = err.message();
    assert!(msg.contains("nothing provides") && msg.contains("Missing"), "unexpected: {msg}");
    assert!(!c.value_satisfies(10, ScopeId::root()), "Built must not be constructed before validation fails");
}

#[test]
fn duplicate_supply_errors() {
    let mut c = app_container();
    c.insert_value(10, "u32", 11, "alloc::sync::Arc<u32>", ScopeId::root(), false)
        .unwrap();
    let err = c
        .insert_value(10, "u32", 11, "alloc::sync::Arc<u32>", ScopeId::root(), false)
        .unwrap_err();
    assert!(err.message().contains("already provided"), "unexpected: {}", err.message());
}

#[test]
fn cycle_through_arc_dependency_is_reported_during_validation() {
    let mut c = app_container();
    provide(&mut c, ScopeId::root(), false, 10, "wiring::A", "wiring::new_a", vec![(21, "alloc::sync::Arc<wiring::B>")]);
    provide(&mut c, ScopeId::root(), false, 20, "wiring::B", "wiring::new_b", vec![(10, "wiring::A")]);
    let msg = validation_error(c, Vec::new());
    assert!(msg.contains("cycle") && msg.contains("->"), "unexpected: {msg}");
}

#[test]
fn three_node_cycle_is_reported() {
    let mut c = app_container();
    provide(&mut c, ScopeId::root(), false, 10, "wiring::NodeA", "wiring::new_a", vec![(20, "wiring::NodeB")]);
    provide(&mut c, ScopeId::root(), false, 20, "wiring::NodeB", "wiring::new_b", vec![(30, "wiring::NodeC")]);
    provide(&mut c, ScopeId::root(), false, 30, "wiring::NodeC", "wiring::new_c", vec![(10, "wiring::NodeA")]);
    let msg = validation_error(c, vec![invoker(ScopeId::root(), "wiring::use_a", vec![(10, "wiring::NodeA")])]);
    assert!(msg.contains("cycle"), "unexpected: {msg}");
    assert!(msg.contains("->"), "unexpected: {msg}");
    assert!(msg.contains("NodeA") && msg.contains("NodeB") && msg.contains("NodeC"), "unexpected: {msg}");
}

// ---- modules ------------------------------------------------------------------

#[test]
fn private_not_visible_outside_module() {
    let mut c = app_container();
    let user = c.add_scope(ScopeId::root(), "user");
    provide(&mut c, user, true, 10, "modules::Secret", "modules::new_secret", Vec::new());
    let msg = validation_error(c, vec![invoker(ScopeId::root(), "modules::needs_secret", vec![(10, "modules::Secret")])]);
    assert!(msg.contains("missing") || msg.contains("Secret"), "unexpected: {msg}");
}

#[test]
fn parent_invoke_cannot_use_child_private_provider() {
    let mut c = app_container();
    let parent = c.add_scope(ScopeId::root(), "parent");
    let child = c.add_scope(parent, "child");
    provide(&mut c, child, true, 10, "modules::ChildSecret", "modules::new_child_secret", Vec::new());
    let msg = validation_error(c, vec![invoker(parent, "modules::needs_secret", vec![(10, "modules::ChildSecret")])]);
    assert!(msg.contains("missing") || msg.contains("ChildSecret"), "unexpected: {msg}");
}

#[test]
fn sibling_private_providers_are_not_a_cycle() {
    let mut c = app_container();
    provide(&mut c, ScopeId::root(), false, 10, "modules::Shared", "modules::new_shared", Vec::new());
    let a = c.add_scope(ScopeId::root(), "a");
    provide(&mut c, a, true, 20, "modules::Repo", "modules::new_repo_a", vec![(10, "modules::Shared")]);
    let b = c.add_scope(ScopeId::root(), "b");
    provide(&mut c, b, true, 20, "modules::Repo", "modules::new_repo_b", vec![(10, "modules::Shared")]);
    let invokers = vec![
        invoker(a, "modules::check_a", vec![(20, "modules::Repo")]),
        invoker(b, "modules::check_b", vec![(20, "modules::Repo")]),
    ];
    c.validate(&invokers).unwrap();
    assert_eq!(c.resolve_provider(20, a), Some(ProviderKey { type_id: 20, scope: a, private: true, ordinal: 0 }));
    assert_eq!(c.resolve_provider(20, b), Some(ProviderKey { type_id: 20, scope: b, private: true, ordinal: 0 }));
}

#[test]
fn sibling_domains_can_share_same_private_type() {
    let mut c = app_container();
    let a = c.add_scope(ScopeId::root(), "a");
    c.insert_value(10, "modules::LocalConfig", 11, "alloc::sync::Arc<modules::LocalConfig>", a, true)
        .unwrap();
    let b = c.add_scope(ScopeId::root(), "b");
    c.insert_value(10, "modules::LocalConfig", 11, "alloc::sync::Arc<modules::LocalConfig>", b, true)
        .unwrap();
    let invokers = vec![
        invoker(a, "modules::boot_a", vec![(10, "modules::LocalConfig")]),
        invoker(b, "modules::boot_b", vec![(10, "modules::LocalConfig")]),
    ];
    c.validate(&invokers).unwrap();
    assert_eq!(c.resolve_value_binding(10, a), Some(ValueBinding { scope: a, private: true }));
    assert_eq!(c.resolve_value_binding(10, b), Some(ValueBinding { scope: b, private: true }));
}

// ---- groups -------------------------------------------------------------------

const ROUTE: u64 = 50;
const GROUP: u64 = 51;
const ARC_GROUP: u64 = 52;
const GROUP_NAME: &str = "modrun::group::Group<groups::Route>";
const ARC_GROUP_NAME: &str = "alloc::sync::Arc<modrun::group::Group<groups::Route>>";

fn aggregate() -> DynProvider {
    DynProvider::new(GROUP, GROUP_NAME, "modrun::group::Group::from_vec", vec![ARC_GROUP], Vec::new())
}

fn provide_group(c: &mut Container, ctor: &'static str, deps: Vec<(u64, &'static str)>) -> Result<(), Error> {
    let member = DynProvider::new(ROUTE, "groups::Route", ctor, Vec::new(), deps);
    c.insert_group_member(ROUTE, GROUP, GROUP_NAME, ARC_GROUP, ARC_GROUP_NAME, aggregate(), member, ScopeId::root())
}

fn require_group(c: &mut Container) {
    c.ensure_group_virtual(ROUTE, GROUP, GROUP_NAME, ARC_GROUP, ARC_GROUP_NAME, aggregate())
        .unwrap();
    c.require_group_element(ROUTE, GROUP_NAME);
}

#[test]
fn empty_group_without_registration_is_missing() {
    let c = app_container();
    let msg = validation_error(c, vec![invoker(ScopeId::root(), "groups::boot", vec![(GROUP, GROUP_NAME)])]);
    assert!(msg.contains("needs a dependency nothing provides"), "unexpected: {msg}");
    assert!(msg.contains("init_group"), "unexpected: {msg}");
}

#[test]
fn require_group_fails_when_empty() {
    let mut c = app_container();
    require_group(&mut c);
    let msg = validation_error(c, vec![invoker(ScopeId::root(), "groups::boot", vec![(GROUP, GROUP_NAME)])]);
    assert!(msg.contains("required group is empty"));
    assert!(msg.contains("Group<"));
    assert!(msg.contains("Route"));
}

#[test]
fn require_group_alone_fails_when_empty() {
    let mut c = app_container();
    require_group(&mut c);
    let msg = validation_error(c, vec![invoker(ScopeId::root(), "groups::{{closure}}", Vec::new())]);
    assert!(msg.contains("required group is empty"), "unexpected: {msg}");
    assert!(msg.contains("Group<"), "unexpected: {msg}");
    assert!(msg.contains("Route"), "unexpected: {msg}");
}

#[test]
fn group_member_missing_dep_fails_at_validate() {
    let mut c = app_container();
    provide_group(&mut c, "groups::member", vec![(60, "groups::Missing")]).unwrap();
    let msg = validation_error(c, vec![invoker(ScopeId::root(), "groups::boot", vec![(GROUP, GROUP_NAME)])]);
    assert!(msg.contains("needs a dependency nothing provides"), "unexpected: {msg}");
}

#[test]
fn unused_group_member_missing_dep_still_fails() {
    let mut c = app_container();
    provide_group(&mut c, "groups::member", vec![(60, "groups::Missing")]).unwrap();
    let msg = validation_error(c, vec![invoker(ScopeId::root(), "groups::{{closure}}", Vec::new())]);
    assert!(msg.contains("needs a dependency nothing provides"), "unexpected: {msg}");
}

#[test]
fn cycle_through_group_is_detected() {
    let mut c = app_container();
    provide_group(&mut c, "groups::member", vec![(GROUP, GROUP_NAME)]).unwrap();
    let msg = validation_error(c, vec![invoker(ScopeId::root(), "groups::boot", vec![(GROUP, GROUP_NAME)])]);
    assert!(msg.contains("dependency cycle"), "unexpected: {msg}");
    assert!(msg.contains("member"), "unexpected: {msg}");
}

#[test]
fn provide_group_conflicts_with_group_singleton() {
    let mut c = app_container();
    c.insert_provider(
        DynProvider::new(GROUP, GROUP_NAME, "modrun::group::Group<groups::Route>::new", vec![ARC_GROUP], Vec::new()),
        ScopeId::root(),
        false,
    )
    .unwrap();
    let err = provide_group(&mut c, "groups::{{closure}}", Vec::new()).unwrap_err();
    let msg = err.message();
    assert!(msg.contains("already provided"), "unexpected: {msg}");
}
