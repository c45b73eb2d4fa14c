use new_deps::diff::{diff_edges, sort_features, MetadataDiff, ReportEntry};
use new_deps::edges::{collect_dependencies, is_first_level};
use new_deps::features::propagate;
use new_deps::matcher::{best_match, normalize_source, package_qualifies, sources_match, strip_fragment};
use new_deps::snapshot::{Dependency, Feature, Node, Package, Snapshot};
use new_deps::text::{split_once_slash, text_less};

const REG: &str = "registry+https://github.com/rust-lang/crates.io-index";

fn s(x: &str) -> String {
    x.to_string()
}

fn dep(name: &str, req: &str) -> Dependency {
    Dependency { name: s(name), source: Some(s(REG)), req: s(req) }
}

fn path_dep(name: &str, req: &str) -> Dependency {
    Dependency { name: s(name), source: None, req: s(req) }
}

fn id(name: &str, version: &str) -> String {
    format!("{} {} ({})", name, version, REG)
}

fn pkg(name: &str, version: &str, deps: Vec<Dependency>, feats: Vec<(&str, Vec<&str>)>) -> Package {
    Package {
        id: id(name, version),
        name: s(name),
        version: s(version),
        source: Some(s(REG)),
        dependencies: deps,
        features: feats
            .into_iter()
            .map(|(n, acts)| Feature { name: s(n), activations: acts.into_iter().map(s).collect() })
            .collect(),
    }
}

fn app_pkg(deps: Vec<Dependency>) -> Package {
    Package {
        id: s("app 0.1.0 (path+file:///work/app)"),
        name: s("app"),
        version: s("0.1.0"),
        source: None,
        dependencies: deps,
        features: vec![],
    }
}

fn node(id: &str, feats: Vec<&str>, deps: Vec<String>) -> Node {
    Node { id: s(id), features: feats.into_iter().map(s).collect(), dependencies: deps }
}

const APP: &str = "app 0.1.0 (path+file:///work/app)";

/// The workspace `app` depends on `router`, which depends on `logger` with
/// the features `feats` through its feature `default`.
fn snapshot_with_logger(logger_version: &str, feats: Vec<&str>) -> Snapshot {
    let acts: Vec<String> = feats.iter().map(|f| format!("logger/{}", f)).collect();
    let acts_ref: Vec<&str> = acts.iter().map(|a| a.as_str()).collect();
    Snapshot {
        packages: vec![
            app_pkg(vec![dep("router", "^1")]),
            pkg("router", "1.0.0", vec![dep("logger", "*")], vec![("default", acts_ref)]),
            pkg("logger", logger_version, vec![], vec![]),
        ],
        nodes: vec![
            node(APP, vec![], vec![id("router", "1.0.0")]),
            node(&id("router", "1.0.0"), vec!["default"], vec![id("logger", logger_version)]),
            node(&id("logger", logger_version), feats, vec![]),
        ],
        workspace_members: vec![s(APP)],
    }
}

fn snapshot_without_logger() -> Snapshot {
    Snapshot {
        packages: vec![app_pkg(vec![dep("router", "^1")]), pkg("router", "1.0.0", vec![], vec![])],
        nodes: vec![
            node(APP, vec![], vec![id("router", "1.0.0")]),
            node(&id("router", "1.0.0"), vec![], vec![]),
        ],
        workspace_members: vec![s(APP)],
    }
}

/// The report as (dependency name, features, parent names).
fn named(new: &Snapshot, r: &[ReportEntry]) -> Vec<(String, Vec<String>, Vec<String>)> {
    r.iter()
        .map(|e| {
            (
                new.packages[e.dependency].name.clone(),
                e.features.clone(),
                e.parents.iter().map(|p| new.packages[*p].name.clone()).collect(),
            )
        })
        .collect()
}

fn report(old: Snapshot, new: Snapshot) -> Vec<(String, Vec<String>, Vec<String>)> {
    assert!(old.is_consistent() && new.is_consistent());
    let diff = MetadataDiff::new(old, new);
    let r = diff.collect_new_dependencies();
    named(&diff.new, &r)
}

#[test]
fn router_pulls_in_logger() {
    let got = report(snapshot_without_logger(), snapshot_with_logger("0.1.0", vec!["json"]));
    assert_eq!(got, vec![(s("logger"), vec![s("json")], vec![s("router")])]);
}

#[test]
fn subset_of_old_features_is_not_reported() {
    let old = snapshot_with_logger("0.1.0", vec!["a", "b"]);
    assert!(report(old, snapshot_with_logger("0.1.0", vec!["a"])).is_empty());
    let old = snapshot_with_logger("0.1.0", vec!["a", "b"]);
    assert!(report(old, snapshot_with_logger("0.1.0", vec![])).is_empty());
    let old = snapshot_with_logger("0.1.0", vec!["a", "b"]);
    assert!(report(old, snapshot_with_logger("0.1.0", vec!["b", "a"])).is_empty());
}

#[test]
fn superset_of_old_features_is_reported_whole() {
    let old = snapshot_with_logger("0.1.0", vec!["a", "b"]);
    let got = report(old, snapshot_with_logger("0.1.0", vec!["c", "b", "a"]));
    assert_eq!(got, vec![(s("logger"), vec![s("a"), s("b"), s("c")], vec![s("router")])]);
}

#[test]
fn version_bump_alone_is_not_reported() {
    let old = snapshot_with_logger("0.1.0", vec!["json"]);
    assert!(report(old, snapshot_with_logger("0.2.0", vec!["json"])).is_empty());
    let old = snapshot_with_logger("0.1.0", vec!["json", "color"]);
    assert!(report(old, snapshot_with_logger("0.2.0", vec!["json"])).is_empty());
}

#[test]
fn repeated_diffs_are_identical() {
    let a = report(snapshot_without_logger(), snapshot_with_logger("0.1.0", vec!["x", "json"]));
    let b = report(snapshot_without_logger(), snapshot_with_logger("0.1.0", vec!["x", "json"]));
    assert_eq!(a, b);
    assert_eq!(a, vec![(s("logger"), vec![s("json"), s("x")], vec![s("router")])]);
}

/// `app` depends on `router` and `server`; both pull in `logger` with
/// `json`; `router` declares it twice; `logger` pulls in `fmtlib`.
fn two_parents() -> Snapshot {
    Snapshot {
        packages: vec![
            app_pkg(vec![dep("server", "^2"), dep("router", "^1")]),
            pkg(
                "router",
                "1.0.0",
                vec![dep("logger", "^0.1"), dep("logger", "^0.1")],
                vec![("default", vec!["logger/json"])],
            ),
            pkg("server", "2.0.0", vec![dep("logger", "^0.1")], vec![("default", vec!["logger/json"])]),
            pkg("logger", "0.1.0", vec![dep("fmtlib", "^3")], vec![("json", vec![])]),
            pkg("fmtlib", "3.0.0", vec![], vec![]),
        ],
        nodes: vec![
            node(APP, vec![], vec![id("router", "1.0.0"), id("server", "2.0.0")]),
            node(&id("router", "1.0.0"), vec!["default"], vec![id("logger", "0.1.0")]),
            node(&id("server", "2.0.0"), vec!["default"], vec![id("logger", "0.1.0")]),
            node(&id("logger", "0.1.0"), vec!["json"], vec![id("fmtlib", "3.0.0")]),
            node(&id("fmtlib", "3.0.0"), vec![], vec![]),
        ],
        workspace_members: vec![s(APP)],
    }
}

#[test]
fn parents_are_grouped_in_first_seen_order() {
    let got = report(snapshot_without_logger(), two_parents());
    assert_eq!(got, vec![(s("logger"), vec![s("json")], vec![s("router"), s("server")])]);
}

#[test]
fn transitive_parents_give_no_edges() {
    let snap = two_parents();
    let edges = collect_dependencies(&snap);
    let parents: Vec<String> = edges.iter().map(|e| snap.packages[e.parent].name.clone()).collect();
    assert_eq!(parents, vec![s("router"), s("router"), s("server")]);
    assert!(!is_first_level(&snap, &id("logger", "0.1.0")));
    assert!(!is_first_level(&snap, &s(APP)));
    assert!(is_first_level(&snap, &id("server", "2.0.0")));
}

#[test]
fn report_is_sorted_by_name_then_features() {
    let old = snapshot_without_logger();
    let mut new = two_parents();
    new.packages[2].features.push(Feature { name: s("extra"), activations: vec![s("logger/color")] });
    new.nodes[2].features.push(s("extra"));
    new.packages.push(pkg("alpha", "1.0.0", vec![], vec![]));
    new.packages[2].dependencies.push(dep("alpha", "^1"));
    new.nodes.push(node(&id("alpha", "1.0.0"), vec![], vec![]));
    let got = report(old, new);
    assert_eq!(
        got,
        vec![
            (s("alpha"), vec![], vec![s("server")]),
            (s("logger"), vec![s("color"), s("json")], vec![s("server")]),
            (s("logger"), vec![s("json")], vec![s("router")]),
        ]
    );
}

#[test]
fn fragment_of_a_source_is_ignored() {
    let a = Some(s("git+https://github.com/acme/logger?branch=main#0a1b2c3"));
    let b = Some(s("git+https://github.com/acme/logger?branch=main"));
    assert!(sources_match(&a, &b));
    assert!(sources_match(&b, &a));
    let c = Some(s("git+https://github.com/acme/other?branch=main"));
    assert!(!sources_match(&a, &c));
    assert!(sources_match(&None, &None));
    assert!(!sources_match(&None, &b));
}

#[test]
fn source_is_normalized_by_the_url_parser() {
    assert_eq!(normalize_source("HTTPS://Example.COM/a#frag"), Some(s("https://example.com/a")));
    assert_eq!(normalize_source("not a url"), None);
    assert!(!sources_match(&Some(s("not a url")), &Some(s("not a url"))));
    assert_eq!(strip_fragment("a#b#c"), s("a"));
    assert_eq!(strip_fragment("abc"), s("abc"));
}

#[test]
fn highest_qualifying_version_is_chosen() {
    let pkgs = vec![
        pkg("logger", "0.1.10", vec![], vec![]),
        pkg("logger", "0.1.2", vec![], vec![]),
        pkg("logger", "0.2.0", vec![], vec![]),
        pkg("other", "0.1.50", vec![], vec![]),
    ];
    assert_eq!(best_match(&dep("logger", "^0.1"), &pkgs), Some(0));
    assert_eq!(best_match(&dep("logger", "*"), &pkgs), Some(2));
    assert_eq!(best_match(&dep("logger", "^0.3"), &pkgs), None);
    assert_eq!(best_match(&path_dep("logger", "*"), &pkgs), None);
    assert!(package_qualifies(&dep("logger", "=0.1.2"), &pkgs[1]));
    assert!(!package_qualifies(&dep("logger", "=0.1.2"), &pkgs[0]));
}

#[test]
fn equal_versions_keep_the_later_candidate() {
    let mut second = pkg("logger", "0.1.0", vec![], vec![]);
    second.id = s("logger 0.1.0 (second)");
    let pkgs = vec![pkg("logger", "0.1.0", vec![], vec![]), second];
    assert_eq!(best_match(&dep("logger", "^0.1"), &pkgs), Some(1));
}

#[test]
fn propagation_follows_enabled_features_only() {
    let parent = pkg(
        "router",
        "1.0.0",
        vec![],
        vec![
            ("default", vec!["logger/json", "std", "other/x", "logger/json"]),
            ("off", vec!["logger/color"]),
            ("more", vec!["logger/a/b"]),
        ],
    );
    let got = propagate(&parent, &vec![s("default"), s("more")], &s("logger"));
    assert_eq!(got, vec![s("json"), s("a/b")]);
    assert!(propagate(&parent, &vec![], &s("logger")).is_empty());
}

#[test]
fn text_helpers() {
    assert_eq!(split_once_slash("a/b/c"), Some((s("a"), s("b/c"))));
    assert_eq!(split_once_slash("abc"), None);
    assert!(text_less("abc", "abd"));
    assert!(text_less("ab", "abc"));
    assert!(!text_less("abc", "abc"));
    assert!(text_less("Z", "a"));
    assert_eq!(sort_features(&vec![s("b"), s("a"), s("c")]), vec![s("a"), s("b"), s("c")]);
}

#[test]
fn consistency_check_finds_missing_ids() {
    let mut snap = two_parents();
    assert!(snap.is_consistent());
    snap.nodes[0].dependencies.push(s("ghost 1.0.0"));
    assert!(!snap.is_consistent());
    assert_eq!(snap.find_package(&id("server", "2.0.0")), Some(2));
    assert_eq!(snap.find_package(&s("ghost 1.0.0")), None);
}

#[test]
fn diff_of_edges_directly() {
    let old = snapshot_without_logger();
    let new = two_parents();
    let r = diff_edges(&old, &new, &collect_dependencies(&old), &collect_dependencies(&new));
    assert_eq!(r.len(), 1);
    assert_eq!(r[0].dependency, 3);
    assert_eq!(r[0].parents, vec![1, 2]);
}
