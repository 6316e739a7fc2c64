//! The statement model, the statement graph, and the live-slice query.

use mako::ident::{is_ident_equal, is_ident_sym_equal, strip_context};
use mako::idents::{IdentMap, IdentSet};
use mako::statement::{any_ident_equal, ExportInfo, ExportInfoMatch, ExportSpecifierInfo,
    ImportInfo, ImportSpecifierInfo, Span, Statement};
use mako::statement_graph::{StatementGraph, UsedIdent};

fn plain_stmt(id: usize, defined: Vec<&str>, used: Vec<&str>, map: Vec<(&str, Vec<&str>)>) -> Statement {
    let mut defined_idents_map = IdentMap::new();
    for (k, vals) in map {
        defined_idents_map.insert(
            k.to_string(),
            IdentSet::from_vec(vals.into_iter().map(|v| v.to_string()).collect()),
        );
    }
    Statement {
        id,
        import_info: None,
        export_info: None,
        defined_idents: IdentSet::from_vec(defined.into_iter().map(|s| s.to_string()).collect()),
        used_idents: IdentSet::from_vec(used.into_iter().map(|s| s.to_string()).collect()),
        defined_idents_map,
        is_self_executed: false,
        has_side_effects: false,
        span: Span { lo: 0, hi: 0 },
    }
}

#[test]
fn ident_equality_is_two_tier() {
    assert_eq!(strip_context("foo#3"), "foo");
    assert_eq!(strip_context("foo"), "foo");
    assert!(is_ident_sym_equal("foo#1", "foo#2"));
    assert!(is_ident_equal("foo#2", "foo"));
    assert!(is_ident_equal("foo#2", "foo#2"));
    assert!(!is_ident_equal("foo#1", "foo#2"));
    assert!(!is_ident_sym_equal("foo", "bar"));
}

#[test]
fn import_find_define_specifier_prefers_first_match() {
    let info = ImportInfo {
        source: "./a.js".to_string(),
        specifiers: vec![
            ImportSpecifierInfo::Named { local: "x#1".to_string(), imported: None },
            ImportSpecifierInfo::Default("x#1".to_string()),
        ],
        stmt_id: 0,
    };
    match info.find_define_specifier("x#1") {
        Some(ImportSpecifierInfo::Named { .. }) => {},
        _ => panic!("expected the named specifier"),
    }
    assert!(info.find_define_specifier("y").is_none());
}

#[test]
fn namespace_import_matches_any_request() {
    let info = ImportInfo {
        source: "./a.js".to_string(),
        specifiers: vec![ImportSpecifierInfo::Namespace("ns#1".to_string())],
        stmt_id: 0,
    };
    assert!(info.find_define_specifier("anything").is_some());
}

#[test]
fn export_find_define_specifier_stops_at_ambiguous() {
    let info = ExportInfo {
        source: None,
        specifiers: vec![
            ExportSpecifierInfo::Ambiguous(vec!["known".to_string()]),
            ExportSpecifierInfo::Named { local: "x".to_string(), exported: None },
        ],
        stmt_id: 0,
    };
    // the ambiguous specifier lists "known", so that resolves
    assert!(info.find_define_specifier("known").is_some());
    // anything else short-circuits before reaching the named specifier
    assert!(info.find_define_specifier("x").is_none());
}

#[test]
fn matches_ident_is_three_valued() {
    let info = ExportInfo {
        source: None,
        specifiers: vec![
            ExportSpecifierInfo::Named { local: "a".to_string(), exported: Some("b".to_string()) },
            ExportSpecifierInfo::Ambiguous(vec!["c".to_string()]),
        ],
        stmt_id: 0,
    };
    assert_eq!(info.matches_ident("b"), ExportInfoMatch::Matched);
    assert_eq!(info.matches_ident("c"), ExportInfoMatch::Matched);
    assert_eq!(info.matches_ident("zzz"), ExportInfoMatch::Ambiguous);

    let concrete = ExportInfo {
        source: None,
        specifiers: vec![ExportSpecifierInfo::Default(None)],
        stmt_id: 0,
    };
    assert_eq!(concrete.matches_ident("default"), ExportInfoMatch::Matched);
    assert_eq!(concrete.matches_ident("other"), ExportInfoMatch::Unmatched);
}

#[test]
fn to_idents_strips_context() {
    let named = ExportSpecifierInfo::Named { local: "a#2".to_string(), exported: None };
    assert_eq!(named.to_idents(), vec!["a".to_string()]);
    let renamed = ExportSpecifierInfo::Named {
        local: "a#2".to_string(),
        exported: Some("b#3".to_string()),
    };
    assert_eq!(renamed.to_idents(), vec!["b".to_string()]);
    assert_eq!(ExportSpecifierInfo::Default(None).to_idents(), vec!["default".to_string()]);
    assert_eq!(ExportSpecifierInfo::Namespace("ns#1".to_string()).to_idents(), vec!["ns".to_string()]);
    assert!(ExportSpecifierInfo::All(vec![]).to_idents().is_empty());
    assert!(ExportSpecifierInfo::Ambiguous(vec![]).to_idents().is_empty());
    assert!(any_ident_equal(&vec!["x#1".to_string()], "x#1"));
}

#[test]
fn graph_edges_follow_def_use() {
    // s0 uses a which s1 defines; no self-loops.
    let stmts = vec![
        plain_stmt(0, vec!["r"], vec!["a", "r"], vec![("r", vec!["a"])]),
        plain_stmt(1, vec!["a"], vec![], vec![]),
    ];
    let g = StatementGraph::new(stmts);
    assert_eq!(g.edges.len(), 1);
    let (from, to, label) = (&g.edges[0].0, &g.edges[0].1, &g.edges[0].2);
    assert_eq!((*from, *to), (0, 1));
    assert!(label.idents.contains("a"));
    assert_eq!(label.idents.len(), 1);

    // the label stays inside used(from) and defined(to)
    for e in g.edges.iter() {
        for ident in e.2.idents.items.iter() {
            assert!(g.stmts[e.0].used_idents.contains(ident));
            assert!(g.stmts[e.1].defined_idents.contains(ident));
        }
    }
}

#[test]
fn add_edge_merges_labels() {
    let stmts = vec![
        plain_stmt(0, vec![], vec!["a", "b"], vec![]),
        plain_stmt(1, vec!["a", "b"], vec![], vec![]),
    ];
    let mut g = StatementGraph::new(stmts);
    assert_eq!(g.edges.len(), 1);
    g.add_edge(0, 1, IdentSet::from_vec(vec!["b".to_string()]));
    assert_eq!(g.edges.len(), 1);
    assert!(g.edges[0].2.idents.contains("a"));
    assert!(g.edges[0].2.idents.contains("b"));
}

#[test]
fn analyze_follows_ident_chains() {
    // s0 defines r from a; s1 defines a. Asking for r keeps both.
    let stmts = vec![
        plain_stmt(0, vec!["r"], vec!["a"], vec![("r", vec!["a"])]),
        plain_stmt(1, vec!["a"], vec![], vec![]),
    ];
    let g = StatementGraph::new(stmts);
    let result = g.analyze_used_statements_and_idents(vec![(
        0,
        vec![UsedIdent::SwcIdent("r".to_string())],
    )]);
    let s0 = result.get(0).unwrap();
    assert!(s0.contains("r"));
    let s1 = result.get(1).unwrap();
    assert!(s1.contains("a"));
}

#[test]
fn analyze_export_all_marks_star() {
    let stmts = vec![plain_stmt(0, vec![], vec![], vec![])];
    let g = StatementGraph::new(stmts);
    let result = g.analyze_used_statements_and_idents(vec![(0, vec![UsedIdent::ExportAll])]);
    let s0 = result.get(0).unwrap();
    assert!(s0.contains("*"));
    assert_eq!(s0.len(), 1);
}

#[test]
fn analyze_in_export_all_marks_specifier() {
    let stmts = vec![plain_stmt(0, vec![], vec![], vec![])];
    let g = StatementGraph::new(stmts);
    let result = g.analyze_used_statements_and_idents(vec![(
        0,
        vec![UsedIdent::InExportAll("./dep.js".to_string())],
    )]);
    let s0 = result.get(0).unwrap();
    assert!(s0.contains("./dep.js"));
}

#[test]
fn analyze_default_follows_used_idents() {
    // the default export's expression uses a, defined by s1
    let stmts = vec![
        plain_stmt(0, vec![], vec!["a"], vec![]),
        plain_stmt(1, vec!["a"], vec![], vec![]),
    ];
    let g = StatementGraph::new(stmts);
    let result = g.analyze_used_statements_and_idents(vec![(0, vec![UsedIdent::Default])]);
    assert!(result.get(0).is_some());
    let s1 = result.get(1).unwrap();
    assert!(s1.contains("a"));
}

// Running the produced mapping back through the query reproduces it.
#[test]
fn analyze_is_idempotent_on_its_result() {
    let stmts = vec![
        plain_stmt(0, vec!["r"], vec!["a"], vec![("r", vec!["a"])]),
        plain_stmt(1, vec!["a"], vec!["b"], vec![("a", vec!["b"])]),
        plain_stmt(2, vec!["b"], vec![], vec![]),
    ];
    let g = StatementGraph::new(stmts);
    let first = g.analyze_used_statements_and_idents(vec![(
        0,
        vec![UsedIdent::SwcIdent("r".to_string())],
    )]);

    let back: Vec<(usize, Vec<UsedIdent>)> = first
        .entries
        .iter()
        .map(|(sid, set)| {
            (
                *sid,
                set.items.iter().map(|s| UsedIdent::SwcIdent(s.clone())).collect(),
            )
        })
        .collect();
    let second = g.analyze_used_statements_and_idents(back);

    assert_eq!(first.entries.len(), second.entries.len());
    for (sid, set) in first.entries.iter() {
        let other = second.get(*sid).expect("entry kept");
        assert_eq!(set.len(), other.len());
        for ident in set.items.iter() {
            assert!(other.contains(ident));
        }
    }
}
