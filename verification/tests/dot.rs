use modrun::container::Container;
use modrun::error::Error;
use modrun::dot::{display_type_name, dot_escape, label_type_name, render_dot, short_name};
use modrun::provider::{DynInvoker, DynProvider, ScopedInvoker};
use modrun::scope::ScopeId;

#[test]
fn dot_escape_handles_special_characters() {
    let escaped = dot_escape("a\"b\\c\nd");
    assert_eq!(escaped, "a\\\"b\\\\c\\nd");
}

#[test]
fn label_type_name_handles_arc_generics() {
    assert_eq!(
        label_type_name("alloc::sync::Arc<graph::Config>"),
        "Arc<graph::Config>"
    );
    assert_eq!(label_type_name("graph::Config"), "Config");
    assert_eq!(
        label_type_name("my::Wrapper<my::Config>"),
        "my::Wrapper<my::Config>"
    );
}

#[test]
fn names_drop_crate_and_path_prefixes() {
    assert_eq!(short_name("my::app::boot"), "boot");
    assert_eq!(short_name("boot"), "boot");
    assert_eq!(short_name("a:::b"), "b");
    assert_eq!(display_type_name("modrun::Group<u32>"), "Group<u32>");
    assert_eq!(display_type_name("other::Group<u32>"), "other::Group<u32>");
    assert_eq!(label_type_name("std::sync::Arc<Db>"), "Arc<Db>");
    assert_eq!(label_type_name("modrun::Lifecycle"), "Lifecycle");
    assert_eq!(dot_escape("x\ry"), "x\\ry");
}

#[test]
fn render_dot_draws_nodes_clusters_and_edges() {
    let mut c = Container::new();
    let user = c.add_scope(ScopeId::root(), "user");
    c.insert_value(1, "app::Config", 2, "alloc::sync::Arc<app::Config>", ScopeId::root(), false)
        .unwrap();
    c.insert_provider(
        DynProvider::new(10, "app::Repo", "app::new_repo", vec![11], vec![(1, "app::Config")]),
        user,
        false,
    )
    .unwrap();
    let invokers = vec![ScopedInvoker {
        scope: user,
        invoker: DynInvoker::new("app::boot", vec![(10, "app::Repo")]),
    }];
    let dot = render_dot(&c, &invokers);
    let expected = [
        "digraph modrun {\n  rankdir=LR;\n  node [shape=box];\n",
        "  n1 [label=\"Config\\n(supplied)\" tooltip=\"<root>::value:<root>:1:public\"];\n",
        "  n2 [label=\"Arc<app::Config>\\n(supplied)\" tooltip=\"<root>::value:<root>:2:public\"];\n",
        "  subgraph cluster_1 {\n",
        "    label=\"user\";\n",
        "    n0 [label=\"Repo\\nctor=new_repo\" tooltip=\"user::provider:user:Repo\"];\n",
        "    n3 [label=\"boot\\n(invoker)\" tooltip=\"user::invoker:0:boot\"];\n",
        "  }\n",
        "  n1 -> n0;\n",
        "  n0 -> n3;\n",
        "}\n",
    ]
    .concat();
    assert_eq!(dot, expected);
}

#[test]
fn render_dot_skips_framework_values_and_marks_private_providers() {
    let mut c = Container::new();
    c.seed_builtin(50, "modrun::Lifecycle", 51, "alloc::sync::Arc<modrun::Lifecycle>")
        .unwrap();
    c.insert_provider(
        DynProvider::new(10, "app::Db", "app::open", vec![11], vec![(50, "modrun::Lifecycle")]),
        ScopeId::root(),
        true,
    )
    .unwrap();
    let dot = render_dot(&c, &Vec::new());
    let expected = [
        "digraph modrun {\n  rankdir=LR;\n  node [shape=box];\n",
        "  n0 [label=\"Db\\nctor=open\\n(private)\" tooltip=\"<root>::provider:<root>:Db:private\"];\n",
        "}\n",
    ]
    .concat();
    assert_eq!(dot, expected);
}

const LIFECYCLE: u64 = 1000;
const ARC_LIFECYCLE: u64 = 1001;
const SHUTDOWNER: u64 = 1002;
const ARC_SHUTDOWNER: u64 = 1003;

/// A container as an application starts it: framework handles seeded.
fn app_container() -> Container {
    let mut c = Container::new();
    c.seed_builtin(LIFECYCLE, "modrun::lifecycle::Lifecycle", ARC_LIFECYCLE, "alloc::sync::Arc<modrun::lifecycle::Lifecycle>")
        .unwrap();
    c.seed_builtin(SHUTDOWNER, "modrun::shutdown::Shutdowner", ARC_SHUTDOWNER, "alloc::sync::Arc<modrun::shutdown::Shutdowner>")
        .unwrap();
    c
}

/// Validate, as a build does, then render.
fn validated_dot(mut c: Container, invokers: Vec<ScopedInvoker>) -> Result<String, Error> {
    c.validate(&invokers)?;
    Ok(render_dot(&c, &invokers))
}

fn invoker(scope: ScopeId, name: &'static str, deps: Vec<(u64, &'static str)>) -> ScopedInvoker {
    ScopedInvoker { scope, invoker: DynInvoker::new(name, deps) }
}

fn node_ids_with_label(dot: &str, needle: &str) -> Vec<String> {
    dot.lines()
        .filter_map(|line| {
            let trimmed = line.trim();
            let rest = trimmed.strip_prefix('n')?;
            let id = rest.split([' ', '[']).next()?;
            if trimmed.contains(needle) {
                Some(format!("n{id}"))
            } else {
                None
            }
        })
        .collect()
}

fn has_edge(dot: &str, from: &str, to: &str) -> bool {
    dot.lines().any(|line| line.contains(&format!("{from} -> {to}")))
}

#[test]
fn render_dot_simple_chain() {
    let mut c = app_container();
    c.insert_provider(DynProvider::new(10, "graph::Config", "graph::new_config", vec![11], Vec::new()), ScopeId::root(), false)
        .unwrap();
    c.insert_provider(
        DynProvider::new(20, "graph::Service", "graph::new_service", vec![21], vec![(10, "graph::Config")]),
        ScopeId::root(),
        false,
    )
    .unwrap();
    let dot = validated_dot(c, vec![invoker(ScopeId::root(), "graph::boot", vec![(20, "graph::Service")])]).unwrap();

    assert!(dot.starts_with("digraph modrun"));
    assert!(dot.contains(r#"label="Config\nctor=new_config""#));
    assert!(dot.contains(r#"label="Service\nctor=new_service""#));

    let config = node_ids_with_label(&dot, r"Config\nctor=new_config");
    let service = node_ids_with_label(&dot, r"Service\nctor=new_service");
    let boot = node_ids_with_label(&dot, r"\n(invoker)");
    assert_eq!(config.len(), 1);
    assert_eq!(service.len(), 1);
    assert!(!boot.is_empty());
    assert!(has_edge(&dot, &config[0], &service[0]));
    assert!(has_edge(&dot, &service[0], &boot[0]));
    assert!(
        !dot.contains("Lifecycle") && !dot.contains("Shutdowner"),
        "framework nodes should be omitted: {dot}"
    );
}

#[test]
fn render_dot_module_private_nodes() {
    let mut c = app_container();
    let user = c.add_scope(ScopeId::root(), "user");
    c.insert_provider(
        DynProvider::new(10, "graph::Repo", "graph::new_repo", vec![11], Vec::new()),
        user,
        true,
    )
    .unwrap();
    c.insert_provider(
        DynProvider::new(20, "graph::Svc", "graph::new_svc", vec![21], vec![(10, "graph::Repo")]),
        user,
        false,
    )
    .unwrap();
    let dot = validated_dot(c, vec![invoker(user, "graph::boot_user", vec![(20, "graph::Svc")])]).unwrap();

    assert!(dot.contains("subgraph cluster_"));
    assert!(dot.contains("label=\"user\";"));
    assert!(dot.contains(r"Repo\nctor=new_repo\n(private)"));
    assert!(dot.contains(r"Svc\nctor=new_svc"));
    assert!(dot.contains(r"boot_user\n(invoker)"));

    let repo = node_ids_with_label(&dot, r"Repo\nctor=new_repo\n(private)");
    let svc = node_ids_with_label(&dot, r"Svc\nctor=new_svc");
    assert_eq!(repo.len(), 1);
    assert_eq!(svc.len(), 1);
    assert!(has_edge(&dot, &repo[0], &svc[0]));
}

#[test]
fn render_dot_group_membership_edges() {
    const ROUTE: u64 = 30;
    const GROUP: u64 = 31;
    const ARC_GROUP: u64 = 32;
    const GROUP_NAME: &str = "modrun::group::Group<graph::Route>";
    const ARC_GROUP_NAME: &str = "alloc::sync::Arc<modrun::group::Group<graph::Route>>";
    fn aggregate() -> DynProvider {
        DynProvider::new(GROUP, GROUP_NAME, "modrun::group::Group::from_vec", vec![ARC_GROUP], Vec::new())
    }
    let mut c = app_container();
    let user = c.add_scope(ScopeId::root(), "user");
    c.insert_group_member(
        ROUTE,
        GROUP,
        GROUP_NAME,
        ARC_GROUP,
        ARC_GROUP_NAME,
        aggregate(),
        DynProvider::new(ROUTE, "graph::Route", "graph::user_route", Vec::new(), Vec::new()),
        user,
    )
    .unwrap();
    let order = c.add_scope(ScopeId::root(), "order");
    c.insert_group_member(
        ROUTE,
        GROUP,
        GROUP_NAME,
        ARC_GROUP,
        ARC_GROUP_NAME,
        aggregate(),
        DynProvider::new(ROUTE, "graph::Route", "graph::order_route", Vec::new(), Vec::new()),
        order,
    )
    .unwrap();
    let dot = validated_dot(c, vec![invoker(ScopeId::root(), "graph::boot", vec![(GROUP, GROUP_NAME)])]).unwrap();

    assert!(dot.contains("Group<"));
    assert!(dot.contains("style=dotted"));
    assert!(dot.contains("user_route"));
    assert!(dot.contains("order_route"));

    let group = node_ids_with_label(&dot, "group aggregate");
    let user = node_ids_with_label(&dot, "user_route");
    assert_eq!(group.len(), 1);
    assert_eq!(user.len(), 1);
    assert!(
        dot.lines().any(|line| {
            line.contains("style=dotted") && line.contains(&group[0]) && line.contains(&user[0])
        }),
        "expected dotted edge from member to group: {dot}"
    );
}

#[test]
fn render_dot_supply_and_arc_dependency() {
    let mut c = app_container();
    c.insert_value(10, "graph::Config", 11, "alloc::sync::Arc<graph::Config>", ScopeId::root(), false)
        .unwrap();
    c.insert_provider(
        DynProvider::new(20, "graph::Service", "graph::new_service", vec![21], vec![(11, "alloc::sync::Arc<graph::Config>")]),
        ScopeId::root(),
        false,
    )
    .unwrap();
    let dot = validated_dot(c, vec![invoker(ScopeId::root(), "graph::{{closure}}", vec![(20, "graph::Service")])]).unwrap();

    assert!(dot.contains(r"Config\n(supplied)"));
    assert!(dot.contains("Arc<"));
    assert!(dot.contains(r"Service\nctor=new_service"));

    let arc_config = node_ids_with_label(&dot, "Arc<graph::");
    let service = node_ids_with_label(&dot, r"Service\nctor=new_service");
    assert_eq!(arc_config.len(), 1, "dot:\n{dot}");
    assert_eq!(service.len(), 1);
    assert!(has_edge(&dot, &arc_config[0], &service[0]));
}

#[test]
fn render_dot_module_public_supply_edge() {
    let mut c = app_container();
    let settings = c.add_scope(ScopeId::root(), "settings");
    c.insert_value(10, "graph::Settings", 11, "alloc::sync::Arc<graph::Settings>", settings, false)
        .unwrap();
    c.insert_provider(
        DynProvider::new(20, "graph::Service", "graph::new_service", vec![21], vec![(10, "graph::Settings")]),
        settings,
        false,
    )
    .unwrap();
    let dot = validated_dot(c, vec![invoker(ScopeId::root(), "graph::{{closure}}", vec![(20, "graph::Service")])]).unwrap();

    assert!(dot.contains("label=\"settings\";"));
    assert!(dot.contains(r"Settings\n(supplied)"));

    let settings = node_ids_with_label(&dot, r"Settings\n(supplied)");
    let service = node_ids_with_label(&dot, r"Service\nctor=new_service");
    assert_eq!(settings.len(), 1, "dot:\n{dot}");
    assert_eq!(service.len(), 1);
    assert!(has_edge(&dot, &settings[0], &service[0]));
}

#[test]
fn render_dot_module_private_supply_edge() {
    let mut c = app_container();
    let auth = c.add_scope(ScopeId::root(), "auth");
    c.insert_value(10, "graph::Token", 11, "alloc::sync::Arc<graph::Token>", auth, true)
        .unwrap();
    c.insert_provider(
        DynProvider::new(20, "graph::Service", "graph::new_service", vec![21], vec![(10, "graph::Token")]),
        auth,
        false,
    )
    .unwrap();
    let dot = validated_dot(c, vec![invoker(ScopeId::root(), "graph::{{closure}}", vec![(20, "graph::Service")])]).unwrap();

    assert!(dot.contains("label=\"auth\";"));
    assert!(dot.contains(r"Token\n(supplied)"));

    let token = node_ids_with_label(&dot, r"Token\n(supplied)");
    let service = node_ids_with_label(&dot, r"Service\nctor=new_service");
    assert_eq!(token.len(), 1, "dot:\n{dot}");
    assert_eq!(service.len(), 1);
    assert!(has_edge(&dot, &token[0], &service[0]));
}

#[test]
fn render_dot_provide_private_with_arc_dependency() {
    let mut c = app_container();
    let domain = c.add_scope(ScopeId::root(), "domain");
    c.insert_provider(
        DynProvider::new(10, "graph::Config", "graph::new_config", vec![11], Vec::new()),
        domain,
        true,
    )
    .unwrap();
    c.insert_provider(
        DynProvider::new(20, "graph::Service", "graph::new_service", vec![21], vec![(11, "alloc::sync::Arc<graph::Config>")]),
        domain,
        false,
    )
    .unwrap();
    let dot = validated_dot(c, vec![invoker(ScopeId::root(), "graph::{{closure}}", vec![(20, "graph::Service")])]).unwrap();

    let config = node_ids_with_label(&dot, r"Config\nctor=new_config\n(private)");
    let service = node_ids_with_label(&dot, r"Service\nctor=new_service");
    assert_eq!(config.len(), 1);
    assert_eq!(service.len(), 1);
    assert!(has_edge(&dot, &config[0], &service[0]));
}

#[test]
fn render_dot_escapes_special_module_names() {
    let mut c = app_container();
    let weird = c.add_scope(ScopeId::root(), "we\"ird");
    c.insert_provider(DynProvider::new(10, "graph::Widget", "graph::make_widget", vec![11], Vec::new()), weird, false)
        .unwrap();
    let dot = validated_dot(c, Vec::new()).unwrap();

    assert!(dot.contains(r#"label="we\"ird";"#));
    assert!(dot.contains(r"Widget\nctor=make_widget"));
}

#[test]
fn render_dot_distinct_clusters_for_dash_and_underscore_modules() {
    let mut c = app_container();
    let dash = c.add_scope(ScopeId::root(), "a-b");
    c.insert_provider(DynProvider::new(10, "graph::A", "graph::make_a", vec![11], Vec::new()), dash, false)
        .unwrap();
    let underscore = c.add_scope(ScopeId::root(), "a_b");
    c.insert_provider(DynProvider::new(20, "graph::B", "graph::make_b", vec![21], Vec::new()), underscore, false)
        .unwrap();
    let dot = validated_dot(c, Vec::new()).unwrap();

    let cluster_lines: Vec<_> = dot.lines().filter(|line| line.contains("subgraph cluster_")).collect();
    assert_eq!(cluster_lines.len(), 2, "expected two clusters: {dot}");
    assert!(dot.contains("label=\"a-b\";"));
    assert!(dot.contains("label=\"a_b\";"));
}

#[test]
fn render_dot_reports_cycle_as_error() {
    let mut c = app_container();
    c.insert_provider(DynProvider::new(10, "graph::A", "graph::new_a", vec![11], vec![(20, "graph::B")]), ScopeId::root(), false)
        .unwrap();
    c.insert_provider(DynProvider::new(20, "graph::B", "graph::new_b", vec![21], vec![(10, "graph::A")]), ScopeId::root(), false)
        .unwrap();
    let err = validated_dot(c, Vec::new()).unwrap_err();

    let msg = err.message();
    assert!(msg.contains("cycle"), "unexpected: {msg}");
}

#[test]
fn render_dot_reports_missing_provider_as_error() {
    let mut c = app_container();
    c.insert_provider(
        DynProvider::new(10, "graph::NeedsConfig", "graph::needs", vec![11], vec![(20, "graph::Config")]),
        ScopeId::root(),
        false,
    )
    .unwrap();
    let err = validated_dot(c, Vec::new()).unwrap_err();

    let msg = err.message();
    assert!(msg.contains("needs a dependency nothing provides"), "unexpected: {msg}");
}

#[test]
fn render_dot_does_not_run_constructors() {
    let mut c = app_container();
    c.insert_provider(DynProvider::new(10, "graph::Boom", "graph::boom_ctor", vec![11], Vec::new()), ScopeId::root(), false)
        .unwrap();
    let invokers = vec![invoker(ScopeId::root(), "graph::{{closure}}", vec![(10, "graph::Boom")])];
    c.validate(&invokers).unwrap();
    let dot = render_dot(&c, &invokers);

    assert!(dot.contains("Boom"));
    // Nothing was built: no value of the type is held, and rendering again
    // gives the same document.
    assert!(!c.value_satisfies(10, ScopeId::root()));
    assert_eq!(render_dot(&c, &invokers), dot);
}

#[test]
fn render_dot_declares_each_node_once_root_nodes_outside_clusters() {
    let mut c = app_container();
    provide_root(&mut c);
    let user = c.add_scope(ScopeId::root(), "user");
    c.insert_provider(DynProvider::new(20, "graph::Repo", "graph::new_repo", vec![21], vec![(10, "graph::Config")]), user, false)
        .unwrap();
    let _empty = c.add_scope(ScopeId::root(), "empty");
    let invokers = vec![invoker(user, "graph::boot", vec![(20, "graph::Repo")])];
    c.validate(&invokers).unwrap();
    let dot = render_dot(&c, &invokers);
    let declarations: Vec<&str> = dot.lines().filter(|l| l.trim_start().starts_with('n') && l.contains(" [label=")).collect();
    assert_eq!(declarations.len(), 3);
    for i in 0..3 {
        let prefix = format!("n{i} [");
        assert_eq!(declarations.iter().filter(|l| l.trim_start().starts_with(&prefix)).count(), 1);
    }
    assert_eq!(dot.lines().filter(|l| l.contains("subgraph cluster_")).count(), 1);
    let cluster_at = dot.find("  subgraph cluster_1 {").unwrap();
    let config_at = dot.find("Config\\nctor=new_config").unwrap();
    assert!(config_at < cluster_at, "root node outside the cluster: {dot}");
    assert!(!dot.contains("label=\"empty\";"));
}

fn provide_root(c: &mut Container) {
    c.insert_provider(DynProvider::new(10, "graph::Config", "graph::new_config", vec![11], Vec::new()), ScopeId::root(), false)
        .unwrap();
}
