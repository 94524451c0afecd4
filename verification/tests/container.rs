use modrun::container::{Container, ValueBinding};
use modrun::error::Error;
use modrun::provider::{DynInvoker, DynProvider, ProviderKey, ScopedInvoker};
use modrun::scope::ScopeId;

const U32: u64 = 1;
const ARC_U32: u64 = 2;
const TOKEN: u64 = 3;
const ARC_TOKEN: u64 = 4;

fn u32_provider(ctor: &'static str) -> DynProvider {
    DynProvider::new(U32, "u32", ctor, vec![ARC_U32], Vec::new())
}

#[test]
fn container_public_index_rejects_duplicate() {
    let mut c = Container::new();
    c.insert_provider(u32_provider("one"), ScopeId::root(), false).unwrap();
    let err = c
        .insert_provider(u32_provider("two"), ScopeId::root(), false)
        .unwrap_err();
    assert!(err.message().contains("already provided"));
}

#[test]
fn mod_public_index_rejects_duplicate() {
    let mut c = Container::new();
    c.insert_provider(u32_provider("one"), ScopeId::root(), false).unwrap();
    let err = c
        .insert_provider(u32_provider("two"), ScopeId::root(), false)
        .unwrap_err();
    assert!(err.message().contains("already provided"));
}

#[test]
fn resolve_value_binding_uses_public_supply_module_scope() {
    let mut container = Container::new();
    let settings = container.add_scope(ScopeId::root(), "settings");
    container
        .insert_value(U32, "u32", ARC_U32, "alloc::sync::Arc<u32>", settings, false)
        .unwrap();

    assert_eq!(
        container.resolve_value_binding(U32, settings),
        Some(ValueBinding { scope: settings, private: false })
    );
    assert_eq!(
        container.resolve_value_binding(U32, ScopeId::root()),
        Some(ValueBinding { scope: settings, private: false })
    );
}

#[test]
fn resolve_value_binding_falls_back_to_root_without_value_node_metadata() {
    let mut container = Container::new();
    container
        .insert_value(U32, "u32", ARC_U32, "alloc::sync::Arc<u32>", ScopeId::root(), false)
        .unwrap();
    container.clear_value_nodes();

    assert_eq!(
        container.resolve_value_binding(U32, ScopeId::root()),
        Some(ValueBinding { scope: ScopeId::root(), private: false })
    );
}

#[test]
fn resolve_value_binding_uses_private_supply_scope() {
    let mut container = Container::new();
    let auth = container.add_scope(ScopeId::root(), "auth");
    container
        .insert_value(TOKEN, "Token", ARC_TOKEN, "alloc::sync::Arc<Token>", auth, true)
        .unwrap();

    assert_eq!(
        container.resolve_value_binding(TOKEN, auth),
        Some(ValueBinding { scope: auth, private: true })
    );
    assert_eq!(container.resolve_value_binding(TOKEN, ScopeId::root()), None);
}

#[test]
fn private_provider_shadows_public_value_from_its_module() {
    let mut c = Container::new();
    let user = c.add_scope(ScopeId::root(), "user");
    c.insert_value(U32, "u32", ARC_U32, "alloc::sync::Arc<u32>", ScopeId::root(), false)
        .unwrap();
    c.insert_provider(u32_provider("local"), user, true).unwrap();
    assert_eq!(c.resolve_value_binding(U32, user), None);
    assert_eq!(
        c.resolve_provider(U32, user),
        Some(ProviderKey { type_id: U32, scope: user, private: true, ordinal: 0 })
    );
    assert_eq!(
        c.resolve_value_binding(U32, ScopeId::root()),
        Some(ValueBinding { scope: ScopeId::root(), private: false })
    );
}

#[test]
fn private_duplicate_in_same_module_is_rejected() {
    let mut c = Container::new();
    let user = c.add_scope(ScopeId::root(), "user");
    c.insert_provider(u32_provider("a"), user, true).unwrap();
    let err = c.insert_provider(u32_provider("b"), user, true).unwrap_err();
    assert_eq!(
        err.message(),
        "type already provided privately in module 'user': u32"
    );
}

#[test]
fn validate_reports_a_cycle_path() {
    let mut c = Container::new();
    c.insert_provider(
        DynProvider::new(10, "A", "new_a", vec![11], vec![(20, "B")]),
        ScopeId::root(),
        false,
    )
    .unwrap();
    c.insert_provider(
        DynProvider::new(20, "B", "new_b", vec![21], vec![(10, "A")]),
        ScopeId::root(),
        false,
    )
    .unwrap();
    let err = c.validate(&Vec::new()).unwrap_err();
    match err {
        Error::Cycle(path) => {
            assert!(path == "A -> B -> A" || path == "B -> A -> B", "path was {path}");
        }
        other => panic!("expected a cycle, got {}", other.message()),
    }
}

#[test]
fn validate_reports_missing_invoker_dependency() {
    let mut c = Container::new();
    let invokers = vec![ScopedInvoker {
        scope: ScopeId::root(),
        invoker: DynInvoker::new("boot", vec![(99, "Db")]),
    }];
    let err = c.validate(&invokers).unwrap_err();
    assert_eq!(
        err.message(),
        "invoker in module '<root>' needs a dependency nothing provides: Db"
    );
}

#[test]
fn validate_reports_missing_provider_dependency() {
    let mut c = Container::new();
    let user = c.add_scope(ScopeId::root(), "user");
    c.insert_provider(
        DynProvider::new(10, "Repo", "new_repo", vec![11], vec![(99, "Db")]),
        user,
        false,
    )
    .unwrap();
    let err = c.validate(&Vec::new()).unwrap_err();
    assert_eq!(
        err.message(),
        "provider for Repo in module 'user' needs a dependency nothing provides: Db"
    );
}

#[test]
fn pending_and_waves_follow_dependencies() {
    let mut c = Container::new();
    c.insert_provider(
        DynProvider::new(10, "Config", "new_config", vec![11], Vec::new()),
        ScopeId::root(),
        false,
    )
    .unwrap();
    c.insert_provider(
        DynProvider::new(20, "Server", "new_server", vec![21], vec![(10, "Config")]),
        ScopeId::root(),
        false,
    )
    .unwrap();
    c.validate(&Vec::new()).unwrap();
    let pending = c.collect_pending(&[(20, "Server")], ScopeId::root()).unwrap();
    assert_eq!(pending.len(), 2);
    let waves = c.plan_waves(&pending).unwrap();
    assert_eq!(waves.len(), 2);
    assert_eq!(waves[0][0].type_id, 10);
    assert_eq!(waves[1][0].type_id, 20);
}

#[test]
fn missing_root_is_reported_from_its_module() {
    let c = Container::new();
    let err = c.collect_pending(&[(99, "Db")], ScopeId::root()).unwrap_err();
    assert_eq!(err.message(), "missing provider for type: Db (from module '<root>')");
}

#[test]
fn builtins_are_seeded_once() {
    let mut c = Container::new();
    c.seed_builtin(50, "Lifecycle", 51, "alloc::sync::Arc<Lifecycle>").unwrap();
    assert!(c.is_builtin(50));
    assert!(c.is_builtin(51));
    assert!(!c.is_builtin(U32));
    let err = c
        .seed_builtin(50, "Lifecycle", 51, "alloc::sync::Arc<Lifecycle>")
        .unwrap_err();
    assert_eq!(err.message(), "type already provided: Lifecycle");
}

#[test]
fn a_provider_in_construction_is_a_cycle() {
    let mut c = Container::new();
    c.insert_provider(
        DynProvider::new(10, "Config", "new_config", vec![11], Vec::new()),
        ScopeId::root(),
        false,
    )
    .unwrap();
    c.validate(&Vec::new()).unwrap();
    let pending = c.collect_pending(&[(10, "Config")], ScopeId::root()).unwrap();
    c.begin_wave(&pending).unwrap();
    match c.collect_pending(&[(10, "Config")], ScopeId::root()) {
        Err(Error::Cycle(text)) => assert_eq!(text, "Config"),
        _ => panic!("expected a cycle"),
    }
    assert!(c.begin_wave(&pending).is_err());
    c.end_wave(&pending);
    c.store_constructed(pending[0], 11);
    assert!(c.collect_pending(&[(10, "Config")], ScopeId::root()).unwrap().is_empty());
}

#[test]
fn group_members_feed_their_aggregate() {
    let mut c = Container::new();
    let aggregate = || DynProvider::new(30, "Group<Route>", "aggregate", vec![31], Vec::new());
    c.insert_group_member(
        20,
        30,
        "Group<Route>",
        31,
        "Arc<Group<Route>>",
        aggregate(),
        DynProvider::new(20, "Route", "home", vec![21], Vec::new()),
        ScopeId::root(),
    )
    .unwrap();
    c.insert_group_member(
        20,
        30,
        "Group<Route>",
        31,
        "Arc<Group<Route>>",
        aggregate(),
        DynProvider::new(20, "Route", "about", vec![21], Vec::new()),
        ScopeId::root(),
    )
    .unwrap();
    let members = c.group_member_keys(20);
    assert_eq!(members.len(), 2);
    assert_eq!(members[0].ordinal, 1);
    assert_eq!(members[1].ordinal, 2);
    c.validate(&Vec::new()).unwrap();
    let pending = c.collect_pending(&[(30, "Group<Route>")], ScopeId::root()).unwrap();
    assert_eq!(pending.len(), 3);
    let waves = c.plan_waves(&pending).unwrap();
    assert_eq!(waves.len(), 2);
    assert_eq!(waves[0].len(), 2);
    assert_eq!(waves[1][0].type_id, 30);
}

#[test]
fn is_framework_dep_matches_lifecycle_and_shutdowner() {
    const LIFECYCLE: u64 = 50;
    const ARC_LIFECYCLE: u64 = 51;
    const SHUTDOWNER: u64 = 52;
    const ARC_SHUTDOWNER: u64 = 53;
    let mut c = Container::new();
    c.seed_builtin(LIFECYCLE, "modrun::Lifecycle", ARC_LIFECYCLE, "alloc::sync::Arc<modrun::Lifecycle>")
        .unwrap();
    c.seed_builtin(SHUTDOWNER, "modrun::Shutdowner", ARC_SHUTDOWNER, "alloc::sync::Arc<modrun::Shutdowner>")
        .unwrap();
    assert!(c.is_builtin(LIFECYCLE));
    assert!(c.is_builtin(SHUTDOWNER));
    assert!(c.is_builtin(ARC_LIFECYCLE));
    assert!(c.is_builtin(ARC_SHUTDOWNER));
    assert!(!c.is_builtin(U32));
}

#[test]
fn private_provider_is_visible_below_and_hidden_outside() {
    let mut c = Container::new();
    let user = c.add_scope(ScopeId::root(), "user");
    let nested = c.add_scope(user, "user_admin");
    let order = c.add_scope(ScopeId::root(), "order");
    c.insert_provider(u32_provider("local"), user, true).unwrap();
    let private_key = Some(ProviderKey { type_id: U32, scope: user, private: true, ordinal: 0 });
    assert_eq!(c.resolve_provider(U32, user), private_key);
    assert_eq!(c.resolve_provider(U32, nested), private_key);
    assert_eq!(c.resolve_provider(ARC_U32, nested), private_key);
    assert_eq!(c.resolve_provider(U32, order), None);
    assert_eq!(c.resolve_provider(U32, ScopeId::root()), None);
}

#[test]
fn public_provider_resolves_alike_everywhere() {
    let mut c = Container::new();
    let user = c.add_scope(ScopeId::root(), "user");
    let nested = c.add_scope(user, "user_admin");
    c.insert_provider(u32_provider("shared"), user, false).unwrap();
    let public_key = Some(ProviderKey { type_id: U32, scope: user, private: false, ordinal: 0 });
    assert_eq!(c.resolve_provider(U32, ScopeId::root()), public_key);
    assert_eq!(c.resolve_provider(U32, nested), public_key);
    assert_eq!(c.resolve_provider(ARC_U32, user), public_key);
}

#[test]
fn unrequested_provider_is_not_pending() {
    let mut c = Container::new();
    c.insert_provider(DynProvider::new(10, "Config", "new_config", vec![11], Vec::new()), ScopeId::root(), false)
        .unwrap();
    c.insert_provider(
        DynProvider::new(20, "Server", "new_server", vec![21], vec![(10, "Config")]),
        ScopeId::root(),
        false,
    )
    .unwrap();
    c.insert_provider(DynProvider::new(30, "Migrator", "new_migrator", vec![31], vec![(10, "Config")]), ScopeId::root(), false)
        .unwrap();
    c.validate(&Vec::new()).unwrap();
    let pending = c.collect_pending(&[(20, "Server")], ScopeId::root()).unwrap();
    assert_eq!(pending.len(), 2);
    assert!(pending.iter().all(|k| k.type_id == 10 || k.type_id == 20));
    assert!(!pending.iter().any(|k| k.type_id == 30));
}

#[test]
fn constructed_value_is_not_scheduled_again() {
    let mut c = Container::new();
    c.insert_provider(DynProvider::new(10, "Config", "new_config", vec![11], Vec::new()), ScopeId::root(), false)
        .unwrap();
    c.validate(&Vec::new()).unwrap();
    let first = c.collect_pending(&[(10, "Config")], ScopeId::root()).unwrap();
    assert_eq!(first.len(), 1);
    c.store_constructed(ProviderKey::singleton(10, ScopeId::root(), false), 11);
    let again = c.collect_pending(&[(10, "Config"), (11, "alloc::sync::Arc<Config>")], ScopeId::root()).unwrap();
    assert!(again.is_empty());
}

#[test]
fn failed_wave_leaves_no_marks() {
    let mut c = Container::new();
    c.insert_provider(DynProvider::new(10, "Config", "new_config", vec![11], Vec::new()), ScopeId::root(), false)
        .unwrap();
    let k = ProviderKey::singleton(10, ScopeId::root(), false);
    let err = c.begin_wave(&vec![k, k]).unwrap_err();
    assert_eq!(err.message(), "dependency cycle detected involving: Config");
    assert!(!c.is_constructing(k));
    c.begin_wave(&vec![k]).unwrap();
    assert!(c.is_constructing(k));
}

#[test]
fn finished_wave_stores_values_and_clears_marks() {
    let mut c = Container::new();
    let user = c.add_scope(ScopeId::root(), "user");
    c.insert_provider(DynProvider::new(10, "Config", "new_config", vec![11], Vec::new()), ScopeId::root(), false)
        .unwrap();
    c.insert_provider(DynProvider::new(20, "Repo", "new_repo", vec![21], Vec::new()), user, true)
        .unwrap();
    let config = ProviderKey::singleton(10, ScopeId::root(), false);
    let repo = ProviderKey::singleton(20, user, true);
    let wave = vec![config, repo];
    c.begin_wave(&wave).unwrap();
    c.finish_wave(&wave, &vec![11, 21]);
    assert!(!c.is_constructing(config) && !c.is_constructing(repo));
    assert!(c.value_satisfies(10, ScopeId::root()));
    assert!(c.value_satisfies(21, user));
    assert!(c.value_satisfies(11, ScopeId::root()));
    assert!(!c.value_satisfies(20, ScopeId::root()));
    assert!(!c.value_satisfies(21, ScopeId::root()));
}

#[test]
fn nested_module_members_keep_depth_first_order() {
    const ROUTE: u64 = 60;
    const GROUP: u64 = 61;
    const ARC_GROUP: u64 = 62;
    fn aggregate() -> DynProvider {
        DynProvider::new(GROUP, "modrun::group::Group<Route>", "modrun::group::Group::from_vec", vec![ARC_GROUP], Vec::new())
    }
    let mut c = Container::new();
    let api = c.add_scope(ScopeId::root(), "api");
    let user = c.add_scope(api, "user");
    let order = c.add_scope(api, "order");
    let payment = c.add_scope(ScopeId::root(), "payment");
    for (ctor, scope) in [("user_route", user), ("order_route", order), ("payment_route", payment)] {
        c.insert_group_member(
            ROUTE,
            GROUP,
            "modrun::group::Group<Route>",
            ARC_GROUP,
            "alloc::sync::Arc<modrun::group::Group<Route>>",
            aggregate(),
            DynProvider::new(ROUTE, "Route", ctor, Vec::new(), Vec::new()),
            scope,
        )
        .unwrap();
    }
    let members = c.group_member_keys(ROUTE);
    assert_eq!(members.len(), 3);
    assert_eq!(members[0].scope, user);
    assert_eq!(members[1].scope, order);
    assert_eq!(members[2].scope, payment);
    assert!(members[0].ordinal < members[1].ordinal && members[1].ordinal < members[2].ordinal);
    c.validate(&Vec::new()).unwrap();
    let pending = c.collect_pending(&[(ARC_GROUP, "alloc::sync::Arc<modrun::group::Group<Route>>")], ScopeId::root()).unwrap();
    assert_eq!(pending.len(), 4);
    for k in members.iter() {
        c.store_group_member(*k);
    }
    assert_eq!(c.collect_group_members(ROUTE, "modrun::group::Group<Route>").unwrap(), members);
    for k in members.iter() {
        assert!(!c.take_group_member(*k));
    }
}

#[test]
fn group_members_are_collected_in_order_or_reported_missing() {
    const ROUTE: u64 = 50;
    const GROUP: u64 = 51;
    const ARC_GROUP: u64 = 52;
    fn aggregate() -> DynProvider {
        DynProvider::new(GROUP, "modrun::group::Group<Route>", "modrun::group::Group::from_vec", vec![ARC_GROUP], Vec::new())
    }
    let mut c = Container::new();
    for ctor in ["user_route", "order_route"] {
        c.insert_group_member(
            ROUTE,
            GROUP,
            "modrun::group::Group<Route>",
            ARC_GROUP,
            "alloc::sync::Arc<modrun::group::Group<Route>>",
            aggregate(),
            DynProvider::new(ROUTE, "Route", ctor, Vec::new(), Vec::new()),
            ScopeId::root(),
        )
        .unwrap();
    }
    let members = c.group_member_keys(ROUTE);
    assert_eq!(members.len(), 2);
    c.store_group_member(members[0]);
    let err = c.collect_group_members(ROUTE, "modrun::group::Group<Route>").unwrap_err();
    assert_eq!(err.message(), "dependency not constructed yet: modrun::group::Group<Route>");
    c.store_group_member(members[0]);
    c.store_group_member(members[1]);
    assert_eq!(c.collect_group_members(ROUTE, "modrun::group::Group<Route>").unwrap(), members);
    assert!(!c.take_group_member(members[0]));
}

#[test]
fn pending_follows_depth_first_order_and_reports_first_missing_type() {
    let mut c = Container::new();
    c.insert_provider(
        DynProvider::new(20, "Server", "new_server", vec![21], vec![(30, "Db"), (10, "Config")]),
        ScopeId::root(),
        false,
    )
    .unwrap();
    c.insert_provider(DynProvider::new(10, "Config", "new_config", vec![11], Vec::new()), ScopeId::root(), false)
        .unwrap();
    c.insert_provider(DynProvider::new(30, "Db", "open_db", vec![31], vec![(10, "Config")]), ScopeId::root(), false)
        .unwrap();
    let pending = c.collect_pending(&[(20, "Server")], ScopeId::root()).unwrap();
    let order: Vec<u64> = pending.iter().map(|k| k.type_id).collect();
    assert_eq!(order, vec![20, 30, 10]);

    let mut broken = Container::new();
    broken
        .insert_provider(
            DynProvider::new(20, "Server", "new_server", vec![21], vec![(30, "Db"), (40, "Cache")]),
            ScopeId::root(),
            false,
        )
        .unwrap();
    broken
        .insert_provider(DynProvider::new(30, "Db", "open_db", vec![31], vec![(50, "Pool")]), ScopeId::root(), false)
        .unwrap();
    let err = broken.collect_pending(&[(20, "Server")], ScopeId::root()).unwrap_err();
    assert_eq!(err.message(), "missing provider for type: Pool (from module '<root>')");
}
