//! The module graph and the update planner, driven through the
//! end-to-end scenarios: pure modify, add with existing missing deps,
//! remove cascading into modify, and a dependency switch.

use mako::module_graph::{Dependency, Module, ModuleAst, ModuleGraph, ModuleId, ModuleInfo,
    ResolveKind};
use mako::update::{apply_modify_results, build_by_remove, classify_paths, diff,
    expand_css_modules, filter_paths, finish_update, repair_missing_deps, ModifyRebuild,
    UpdateResult, UpdateType};

fn mid(s: &str) -> ModuleId {
    ModuleId::new(s.to_string())
}

fn dep(source: &str, order: usize) -> Dependency {
    Dependency { source: source.to_string(), resolve_type: ResolveKind::Static, order }
}

fn info(path: &str, missing: Vec<(&str, Dependency)>) -> ModuleInfo {
    ModuleInfo {
        ast: ModuleAst::Script,
        path: path.to_string(),
        raw_hash: 0,
        missing_deps: missing.into_iter().map(|(s, d)| (s.to_string(), d)).collect(),
        ignored_deps: Vec::new(),
        top_level_await: false,
        is_async: false,
    }
}

fn module(id: &str, missing: Vec<(&str, Dependency)>) -> Module {
    Module { id: mid(id), is_entry: false, info: Some(info(id, missing)), side_effects: false }
}

fn external(id: &str) -> Module {
    Module { id: mid(id), is_entry: false, info: None, side_effects: false }
}

fn ids(v: &Vec<ModuleId>) -> Vec<String> {
    let mut r: Vec<String> = v.iter().map(|m| m.id.clone()).collect();
    r.sort();
    r
}

#[test]
fn classify_add_modify_remove() {
    let mut g = ModuleGraph::new();
    g.add_module(module("a.js", vec![]));

    let classified = classify_paths(
        &g,
        &vec![
            ("a.js".to_string(), true),
            ("new.js".to_string(), true),
            ("gone.js".to_string(), false),
        ],
    );
    assert_eq!(classified[0].1, UpdateType::Modify);
    assert_eq!(classified[1].1, UpdateType::Add);
    assert_eq!(classified[2].1, UpdateType::Remove);
}

#[test]
fn classify_css_virtual_module_counts_as_known() {
    let mut g = ModuleGraph::new();
    g.add_module(module("style.css?asmodule", vec![]));

    let classified = classify_paths(&g, &vec![("style.css".to_string(), true)]);
    assert_eq!(classified[0].1, UpdateType::Modify);
}

#[test]
fn filter_drops_unknown_and_adds_css_twin() {
    let mut g = ModuleGraph::new();
    g.add_module(module("a.js", vec![]));
    g.add_module(module("style.css?asmodule", vec![]));

    let filtered = filter_paths(
        &g,
        &vec![
            ("a.js".to_string(), UpdateType::Modify),
            ("unknown.js".to_string(), UpdateType::Modify),
            ("style.css".to_string(), UpdateType::Modify),
        ],
    );
    let names: Vec<&str> = filtered.iter().map(|p| p.0.as_str()).collect();
    assert_eq!(names, vec!["a.js", "style.css?asmodule"]);
}

#[test]
fn expand_css_modules_queues_the_modules_twin() {
    let mut g = ModuleGraph::new();
    g.add_module(module("style.css?modules", vec![]));
    let mut modified = vec!["style.css?asmodule".to_string()];
    expand_css_modules(&g, &mut modified);
    assert_eq!(modified, vec!["style.css?asmodule".to_string(), "style.css?modules".to_string()]);
}

#[test]
fn diff_by_pair() {
    let origin = vec![(mid("b.js"), dep("./b", 0)), (mid("keep.js"), dep("./keep", 1))];
    let target = vec![(mid("c.js"), dep("./c", 0)), (mid("keep.js"), dep("./keep", 1))];
    let d = diff(&origin, &target);
    assert_eq!(d.added.len(), 1);
    assert_eq!(d.added[0].0.id, "c.js");
    assert_eq!(d.removed.len(), 1);
    assert_eq!(d.removed[0].0.id, "b.js");
}

#[test]
fn diff_sees_a_changed_dependency_label() {
    // same target module, different edge label: the old pair leaves and
    // the new pair arrives
    let origin = vec![(mid("b.js"), dep("./b", 0))];
    let target = vec![(mid("b.js"), dep("./b", 1))];
    let d = diff(&origin, &target);
    assert_eq!(d.added.len(), 1);
    assert_eq!(d.added[0].1.order, 1);
    assert_eq!(d.removed.len(), 1);
    assert_eq!(d.removed[0].1.order, 0);
}

// Pure modify: the graph has A -> B and B changes on disk. Only B is
// modified; nothing is added or removed.
#[test]
fn scenario_pure_modify() {
    let mut g = ModuleGraph::new();
    g.add_module(module("a.js", vec![]));
    g.add_module(module("b.js", vec![]));
    g.add_dependency(&mid("a.js"), &mid("b.js"), dep("./b", 0));
    let mut missing: Vec<ModuleId> = Vec::new();

    let classified = classify_paths(&g, &vec![("b.js".to_string(), true)]);
    assert_eq!(classified[0].1, UpdateType::Modify);

    let (removed_ids, affected) = build_by_remove(&mut g, &Vec::new());
    assert!(removed_ids.is_empty() && affected.is_empty());

    let rebuild = ModifyRebuild { module: module("b.js", vec![]), deps: Vec::new(), children: Vec::new() };
    let (modified_ids, add_paths) = apply_modify_results(&mut g, &mut missing, &vec![rebuild]);
    assert!(add_paths.is_empty());

    let result = finish_update(removed_ids, modified_ids, Vec::new());
    assert!(result.is_updated());
    assert_eq!(ids(&result.modified), vec!["b.js"]);
    assert!(result.added.is_empty());
    assert!(result.removed.is_empty());
}

// Add with existing missing deps: A waits for ./x; when ./x appears,
// A's missing map empties and A leaves the tracked set.
#[test]
fn scenario_add_with_existing_missing() {
    let mut g = ModuleGraph::new();
    g.add_module(module("a.js", vec![("./x", dep("./x", 0))]));
    let mut missing = vec![mid("a.js")];

    let classified = classify_paths(&g, &vec![("x.js".to_string(), true)]);
    assert_eq!(classified[0].1, UpdateType::Add);

    let promoted = repair_missing_deps(&mut g, &mut missing, &vec![(mid("a.js"), "./x".to_string())]);
    assert_eq!(promoted, vec!["a.js".to_string()]);
    assert!(missing.is_empty());
    let a = g.get_module(&mid("a.js"));
    assert!(a.info.as_ref().unwrap().missing_deps.is_empty());

    let result = finish_update(Vec::new(), vec![mid("a.js")], vec![mid("x.js")]);
    assert_eq!(ids(&result.added), vec!["x.js"]);
    assert_eq!(ids(&result.modified), vec!["a.js"]);
}

// Remove cascades into modify: A -> B and C -> B; deleting B removes it
// and queues A and C for re-analysis.
#[test]
fn scenario_remove_cascades_modify() {
    let mut g = ModuleGraph::new();
    g.add_module(module("a.js", vec![]));
    g.add_module(module("b.js", vec![]));
    g.add_module(module("c.js", vec![]));
    g.add_dependency(&mid("a.js"), &mid("b.js"), dep("./b", 0));
    g.add_dependency(&mid("c.js"), &mid("b.js"), dep("./b", 0));

    let (removed_ids, affected) = build_by_remove(&mut g, &vec![mid("b.js")]);
    assert_eq!(ids(&removed_ids), vec!["b.js"]);
    assert_eq!(ids(&affected), vec!["a.js", "c.js"]);
    assert!(!g.has_module(&mid("b.js")));
    assert!(g.get_dependencies(&mid("a.js")).is_empty());

    let result = finish_update(removed_ids, affected, Vec::new());
    assert_eq!(ids(&result.removed), vec!["b.js"]);
    assert_eq!(ids(&result.modified), vec!["a.js", "c.js"]);
}

// Dependency switch: A depended on B; its rebuild depends on C instead.
#[test]
fn scenario_dependency_switch() {
    let mut g = ModuleGraph::new();
    g.add_module(module("a.js", vec![]));
    g.add_module(module("b.js", vec![]));
    g.add_dependency(&mid("a.js"), &mid("b.js"), dep("./b", 0));
    let mut missing: Vec<ModuleId> = Vec::new();

    let rebuild = ModifyRebuild {
        module: module("a.js", vec![]),
        deps: vec![(mid("c.js"), dep("./c", 0))],
        children: vec![external("c.js")],
    };
    let (modified_ids, add_paths) = apply_modify_results(&mut g, &mut missing, &vec![rebuild]);
    assert_eq!(ids(&modified_ids), vec!["a.js"]);
    assert_eq!(add_paths, vec!["c.js".to_string()]);

    let deps_of_a = g.get_dependencies(&mid("a.js"));
    assert_eq!(deps_of_a.len(), 1);
    assert_eq!(deps_of_a[0].0.id, "c.js");
    assert!(g.has_module(&mid("c.js")));

    let result = finish_update(Vec::new(), modified_ids, vec![mid("c.js")]);
    assert_eq!(ids(&result.added), vec!["c.js"]);
    assert_eq!(ids(&result.modified), vec!["a.js"]);
}

// Every edge's endpoints stay present through any op sequence.
#[test]
fn graph_edges_stay_closed() {
    let mut g = ModuleGraph::new();
    g.add_module(module("a.js", vec![]));
    g.add_module(module("b.js", vec![]));
    g.add_module(module("c.js", vec![]));
    g.add_dependency(&mid("a.js"), &mid("b.js"), dep("./b", 0));
    g.add_dependency(&mid("b.js"), &mid("c.js"), dep("./c", 0));
    g.add_dependency(&mid("a.js"), &mid("c.js"), dep("./c2", 1));
    g.remove_dependency(&mid("a.js"), &mid("b.js"), &dep("./b", 0));
    g.replace_module(module("b.js", vec![]));
    g.remove_module_and_deps(&mid("c.js"));

    for edge in g.edges.iter() {
        assert!(g.has_module(&edge.from));
        assert!(g.has_module(&edge.to));
    }
    assert!(g.has_module(&mid("a.js")));
    assert!(g.has_module(&mid("b.js")));
    assert!(!g.has_module(&mid("c.js")));
}

// A module is tracked exactly while its missing-deps map is non-empty.
#[test]
fn missing_set_matches_graph() {
    let mut g = ModuleGraph::new();
    g.add_module(module("a.js", vec![("./x", dep("./x", 0)), ("./y", dep("./y", 1))]));
    g.add_module(module("b.js", vec![]));
    let mut missing = vec![mid("a.js")];

    repair_missing_deps(&mut g, &mut missing, &vec![(mid("a.js"), "./x".to_string())]);
    assert_eq!(ids(&missing), vec!["a.js"]);
    assert!(g.get_module(&mid("a.js")).has_missing_deps());

    repair_missing_deps(&mut g, &mut missing, &vec![(mid("a.js"), "./y".to_string())]);
    assert!(missing.is_empty());
    assert!(!g.get_module(&mid("a.js")).has_missing_deps());

    for m in g.modules().iter() {
        let in_missing_set = missing.iter().any(|x| *x == m.id);
        assert_eq!(in_missing_set, m.has_missing_deps());
    }
}

// added and modified are disjoint from removed in every change set.
#[test]
fn update_result_sets_disjoint() {
    let result = finish_update(vec![mid("gone.js")], vec![mid("a.js")], vec![mid("new.js")]);
    for r in result.removed.iter() {
        assert!(!result.added.iter().any(|x| *x == *r));
        assert!(!result.modified.iter().any(|x| *x == *r));
    }

    let empty = UpdateResult::new();
    assert!(!empty.is_updated());
}

#[test]
fn changed_modules_lists_added_then_modified() {
    let result = finish_update(Vec::new(), vec![mid("a.js")], vec![mid("new.js")]);
    let changes = result.changed_modules();
    assert_eq!(changes.len(), 2);
    assert_eq!(changes[0].id, "new.js");
    assert_eq!(changes[1].id, "a.js");
}
