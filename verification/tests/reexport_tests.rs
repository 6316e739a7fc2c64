//! The re-export resolver, exercised over hand-built statement models
//! of the modules the scenarios describe. Identifiers carry the `#N`
//! context tags a parser pass would attach to local bindings.

use mako::idents::{IdentMap, IdentSet};
use mako::reexport::TreeShakeModule;
use mako::statement::{ExportInfo, ExportSpecifierInfo, ImportInfo, ImportSpecifierInfo, Span,
    Statement};
use mako::statement_graph::StatementGraph;

fn stmt(id: usize, import_info: Option<ImportInfo>, export_info: Option<ExportInfo>) -> Statement {
    Statement {
        id,
        import_info,
        export_info,
        defined_idents: IdentSet::new(),
        used_idents: IdentSet::new(),
        defined_idents_map: IdentMap::new(),
        is_self_executed: false,
        has_side_effects: false,
        span: Span { lo: 0, hi: 0 },
    }
}

fn tsm(stmts: Vec<Statement>) -> TreeShakeModule {
    TreeShakeModule { stmt_graph: StatementGraph { stmts, edges: Vec::new() } }
}

fn import(id: usize, source: &str, specifiers: Vec<ImportSpecifierInfo>) -> Statement {
    stmt(
        id,
        Some(ImportInfo { source: source.to_string(), specifiers, stmt_id: id }),
        None,
    )
}

fn export_from(id: usize, source: &str, specifiers: Vec<ExportSpecifierInfo>) -> Statement {
    stmt(
        id,
        None,
        Some(ExportInfo { source: Some(source.to_string()), specifiers, stmt_id: id }),
    )
}

fn export_local(id: usize, specifiers: Vec<ExportSpecifierInfo>) -> Statement {
    stmt(id, None, Some(ExportInfo { source: None, specifiers, stmt_id: id }))
}

#[test]
fn test_find_import_default_export_named() {
    // import a from "./a.js"; export {a};
    let tsm = tsm(vec![
        import(0, "./a.js", vec![ImportSpecifierInfo::Default("a#2".to_string())]),
        export_local(
            1,
            vec![ExportSpecifierInfo::Named { local: "a#2".to_string(), exported: None }],
        ),
    ]);

    let re_export_source = tsm.find_export_source(&"a".to_string());

    assert_eq!(
        re_export_source.unwrap().describe(),
        "ReExport from ./a.js by Default"
    );
}

#[test]
fn test_find_import_default_export_default() {
    // import a from "./a.js"; export default a;
    let tsm = tsm(vec![
        import(0, "./a.js", vec![ImportSpecifierInfo::Default("a#2".to_string())]),
        export_local(1, vec![ExportSpecifierInfo::Default(Some("a#2".to_string()))]),
    ]);

    let re_export_source = tsm.find_export_source(&"default".to_string());

    assert_eq!(
        re_export_source.unwrap().describe(),
        "ReExport from ./a.js by Default"
    );
}

#[test]
fn test_find_import_named_export_default() {
    // import {a} from "./a.js"; export default a;
    let tsm = tsm(vec![
        import(
            0,
            "./a.js",
            vec![ImportSpecifierInfo::Named { local: "a#2".to_string(), imported: None }],
        ),
        export_local(1, vec![ExportSpecifierInfo::Default(Some("a#2".to_string()))]),
    ]);

    let re_export_source = tsm.find_export_source(&"default".to_string());

    assert_eq!(
        re_export_source.unwrap().describe(),
        r#"ReExport from ./a.js by Named("a")"#
    );
}

#[test]
fn test_find_import_named_renamed_export_default() {
    // import {z as a} from "./a.js"; export default a;
    let tsm = tsm(vec![
        import(
            0,
            "./a.js",
            vec![ImportSpecifierInfo::Named {
                local: "a#2".to_string(),
                imported: Some("z".to_string()),
            }],
        ),
        export_local(1, vec![ExportSpecifierInfo::Default(Some("a#2".to_string()))]),
    ]);

    let re_export_source = tsm.find_export_source(&"default".to_string());

    assert_eq!(
        re_export_source.unwrap().describe(),
        r#"ReExport from ./a.js by Named("z")"#
    );
}

#[test]
fn test_find_import_namespace_export_default() {
    // import * as a from "./a.js"; export default a;
    let tsm = tsm(vec![
        import(0, "./a.js", vec![ImportSpecifierInfo::Namespace("a#2".to_string())]),
        export_local(1, vec![ExportSpecifierInfo::Default(Some("a#2".to_string()))]),
    ]);

    let re_export_source = tsm.find_export_source(&"a".to_string());

    assert!(re_export_source.is_none());
}

#[test]
fn test_find_import_namespace_export_named() {
    // import * as a from "./a.js"; export { a };  (a re-exported
    // namespace binding is a sourceless namespace specifier)
    let tsm = tsm(vec![
        import(0, "./a.js", vec![ImportSpecifierInfo::Namespace("a#2".to_string())]),
        export_local(1, vec![ExportSpecifierInfo::Namespace("a#2".to_string())]),
    ]);

    let re_export_source = tsm.find_export_source(&"a".to_string());

    assert!(re_export_source.is_none());
}

#[test]
fn test_find_import_named_export_named() {
    // import { a } from "./a.js"; export { a };
    let tsm = tsm(vec![
        import(
            0,
            "./a.js",
            vec![ImportSpecifierInfo::Named { local: "a#2".to_string(), imported: None }],
        ),
        export_local(
            1,
            vec![ExportSpecifierInfo::Named { local: "a#2".to_string(), exported: None }],
        ),
    ]);

    let re_export_source = tsm.find_export_source(&"a".to_string());

    assert_eq!(
        re_export_source.unwrap().describe(),
        r#"ReExport from ./a.js by Named("a")"#
    );
}

#[test]
fn test_find_import_named_export_renamed() {
    // import { a } from "./a.js"; export { a as b };
    let tsm = tsm(vec![
        import(
            0,
            "./a.js",
            vec![ImportSpecifierInfo::Named { local: "a#2".to_string(), imported: None }],
        ),
        export_local(
            1,
            vec![ExportSpecifierInfo::Named {
                local: "a#2".to_string(),
                exported: Some("b".to_string()),
            }],
        ),
    ]);

    let re_export_source = tsm.find_export_source(&"b".to_string());

    assert_eq!(
        re_export_source.unwrap().describe(),
        r#"ReExport from ./a.js by Named("a")"#
    );
}

#[test]
fn test_find_import_renamed_export_renamed() {
    // import { a as b } from "./a.js"; export { b as c };
    let tsm = tsm(vec![
        import(
            0,
            "./a.js",
            vec![ImportSpecifierInfo::Named {
                local: "b#2".to_string(),
                imported: Some("a".to_string()),
            }],
        ),
        export_local(
            1,
            vec![ExportSpecifierInfo::Named {
                local: "b#2".to_string(),
                exported: Some("c".to_string()),
            }],
        ),
    ]);

    let re_export_source = tsm.find_export_source(&"c".to_string());

    assert_eq!(
        re_export_source.unwrap().describe(),
        r#"ReExport from ./a.js by Named("a")"#
    );
}

#[test]
fn test_find_export_default_from() {
    // export { default }  from "./a.js"
    let tsm = tsm(vec![export_from(
        0,
        "./a.js",
        vec![ExportSpecifierInfo::Named { local: "default".to_string(), exported: None }],
    )]);

    let re_export_source = tsm.find_export_source(&"default".to_string());

    assert_eq!(
        re_export_source.unwrap().describe(),
        r#"ReExport from ./a.js by Default"#
    );
}

#[test]
fn test_find_export_default_as_from() {
    // export { default as a }  from "./a.js"
    let tsm = tsm(vec![export_from(
        0,
        "./a.js",
        vec![ExportSpecifierInfo::Named {
            local: "default".to_string(),
            exported: Some("a".to_string()),
        }],
    )]);

    let re_export_source = tsm.find_export_source(&"a".to_string());

    assert_eq!(
        re_export_source.unwrap().describe(),
        r#"ReExport from ./a.js by Default"#
    );
}

#[test]
fn test_find_export_named_from() {
    // export { a }  from "./a.js"
    let tsm = tsm(vec![export_from(
        0,
        "./a.js",
        vec![ExportSpecifierInfo::Named { local: "a".to_string(), exported: None }],
    )]);

    let re_export_source = tsm.find_export_source(&"a".to_string());

    assert_eq!(
        re_export_source.unwrap().describe(),
        r#"ReExport from ./a.js by Named("a")"#
    );
}

#[test]
fn test_find_export_named_as_from() {
    // export { b as a }  from "./a.js"
    let tsm = tsm(vec![export_from(
        0,
        "./a.js",
        vec![ExportSpecifierInfo::Named {
            local: "b".to_string(),
            exported: Some("a".to_string()),
        }],
    )]);

    let re_export_source = tsm.find_export_source(&"a".to_string());

    assert_eq!(
        re_export_source.unwrap().describe(),
        r#"ReExport from ./a.js by Named("b")"#
    );
}

#[test]
fn test_find_export_star_as_from() {
    // export * as a from "./a.js"
    let tsm = tsm(vec![export_from(
        0,
        "./a.js",
        vec![ExportSpecifierInfo::Namespace("a".to_string())],
    )]);

    let re_export_source = tsm.find_export_source(&"a".to_string());

    assert_eq!(
        re_export_source.unwrap().describe(),
        r#"ReExport from ./a.js by Namespace"#
    );
}

#[test]
fn test_find_export_default_local_ident() {
    // const a=1; export default a
    let mut decl = stmt(0, None, None);
    decl.defined_idents = IdentSet::from_vec(vec!["a#2".to_string()]);
    let tsm = tsm(vec![
        decl,
        export_local(1, vec![ExportSpecifierInfo::Default(Some("a#2".to_string()))]),
    ]);

    let re_export_source = tsm.find_export_source(&"default".to_string());

    assert_eq!(re_export_source.unwrap().describe(), r#"Direct Export Default"#);
}

#[test]
fn test_find_export_default_function() {
    // export default function test(){}
    let tsm = tsm(vec![export_local(
        0,
        vec![ExportSpecifierInfo::Default(Some("test#2".to_string()))],
    )]);

    let re_export_source = tsm.find_export_source(&"default".to_string());

    assert_eq!(re_export_source.unwrap().describe(), r#"Direct Export Default"#);
}

#[test]
fn test_find_export_default_class() {
    // export default class Test{}
    let tsm = tsm(vec![export_local(
        0,
        vec![ExportSpecifierInfo::Default(Some("Test#2".to_string()))],
    )]);

    let re_export_source = tsm.find_export_source(&"default".to_string());

    assert_eq!(re_export_source.unwrap().describe(), r#"Direct Export Default"#);
}

#[test]
fn test_find_export_named_class() {
    // export class TestClass{}
    let tsm = tsm(vec![export_local(
        0,
        vec![ExportSpecifierInfo::Named { local: "TestClass#2".to_string(), exported: None }],
    )]);

    let re_export_source = tsm.find_export_source(&"TestClass".to_string());

    assert_eq!(
        re_export_source.unwrap().describe(),
        r#"Direct Export Named("TestClass")"#
    );
}

#[test]
fn test_find_export_named_fn() {
    // export function fnTest(){}
    let tsm = tsm(vec![export_local(
        0,
        vec![ExportSpecifierInfo::Named { local: "fnTest#2".to_string(), exported: None }],
    )]);

    let re_export_source = tsm.find_export_source(&"fnTest".to_string());

    assert_eq!(
        re_export_source.unwrap().describe(),
        r#"Direct Export Named("fnTest")"#
    );
}

#[test]
fn test_find_export_dec_expr() {
    // export const a = 1
    let tsm = tsm(vec![export_local(
        0,
        vec![ExportSpecifierInfo::Named { local: "a#2".to_string(), exported: None }],
    )]);

    let re_export_source = tsm.find_export_source(&"a".to_string());

    assert_eq!(re_export_source.unwrap().describe(), r#"Direct Export Named("a")"#);
}

#[test]
fn test_ambiguous_export_short_circuits() {
    // A module re-exporting the unknown surface of a CommonJS file:
    // resolution gives up without consulting the import table.
    let tsm = tsm(vec![
        import(0, "./other.js", vec![ImportSpecifierInfo::Namespace("whatever#2".to_string())]),
        export_from(1, "./cjs", vec![ExportSpecifierInfo::Ambiguous(Vec::new())]),
    ]);

    let re_export_source = tsm.find_export_source(&"whatever".to_string());

    assert!(re_export_source.is_none());
}

#[test]
fn to_re_export_type_named_export_from() {
    // export { a as b } from "./a.js"
    let st = export_from(
        0,
        "./a.js",
        vec![ExportSpecifierInfo::Named {
            local: "a#2".to_string(),
            exported: Some("b".to_string()),
        }],
    );
    let alias = st.to_re_export_type("b").unwrap();
    assert_eq!(alias.local, "a");
    assert_eq!(alias.exported.as_deref(), Some("b"));
    assert_eq!(alias.source.as_deref(), Some("./a.js"));
}

#[test]
fn to_re_export_type_through_import() {
    // import { a as b } from "./a.js"
    let st = import(
        0,
        "./a.js",
        vec![ImportSpecifierInfo::Named {
            local: "b#2".to_string(),
            imported: Some("a".to_string()),
        }],
    );
    let alias = st.to_re_export_type("b").unwrap();
    assert_eq!(alias.local, "b");
    assert_eq!(alias.exported.as_deref(), Some("a"));
    assert_eq!(alias.source.as_deref(), Some("./a.js"));
}

#[test]
fn to_re_export_type_gives_up_on_unresolved_forms() {
    // export * from "./a.js" without a concrete member list
    let star = export_from(0, "./a.js", vec![ExportSpecifierInfo::All(Vec::new())]);
    assert!(star.to_re_export_type("a").is_none());

    // an ambiguous CommonJS surface
    let ambiguous = export_from(0, "./cjs", vec![ExportSpecifierInfo::Ambiguous(Vec::new())]);
    assert!(ambiguous.to_re_export_type("a").is_none());

    // a namespace-aliased binding
    let ns = import(0, "./a.js", vec![ImportSpecifierInfo::Namespace("a#2".to_string())]);
    assert!(ns.to_re_export_type("a").is_none());
}
