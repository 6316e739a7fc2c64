//! Re-export resolution: for an identifier exported by a module, find
//! the module (if any) that actually owns the value, and under what name.

use vstd::prelude::*;

use crate::ident::{ident_eq, ident_sym_eq, is_ident_equal, is_ident_sym_equal, str_eq,
    strip_context, sym_of};
use crate::statement::{first_export_match, first_import_match, ExportSpecifierInfo,
    ImportSpecifierInfo, Statement};
use crate::statement_graph::StatementGraph;

verus! {

/// How a re-exported value is reached: by a named export, the default
/// export, or a whole namespace.
#[derive(Debug, Clone, PartialEq, Eq)]
pub enum ReExportType {
    Named(String),
    Default,
    Namespace,
}

/// Resolver output: `source == None` means the identifier is locally
/// originated (a direct export); `Some(s)` means the value flows through
/// the import/export specifier source `s`.
#[derive(Debug, Clone)]
pub struct ReExportSource {
    pub re_export_type: ReExportType,
    pub source: Option<String>,
}

/// Mathematical image of `ReExportType`.
pub enum ReExportTypeView {
    Named(Seq<char>),
    Default,
    Namespace,
}

/// Mathematical image of `ReExportSource`.
pub struct ReExportSourceView {
    pub ty: ReExportTypeView,
    pub source: Option<Seq<char>>,
}

impl View for ReExportType {
    type V = ReExportTypeView;

    open spec fn view(&self) -> ReExportTypeView {
        match *self {
            ReExportType::Named(s) => ReExportTypeView::Named(s@),
            ReExportType::Default => ReExportTypeView::Default,
            ReExportType::Namespace => ReExportTypeView::Namespace,
        }
    }
}

/// The views of an optional string.
pub open spec fn opt_str_view(o: Option<String>) -> Option<Seq<char>> {
    match o {
        Some(s) => Some(s@),
        None => None,
    }
}

impl View for ReExportSource {
    type V = ReExportSourceView;

    open spec fn view(&self) -> ReExportSourceView {
        ReExportSourceView { ty: self.re_export_type@, source: opt_str_view(self.source) }
    }
}

/// The views of an optional resolver result.
pub open spec fn opt_source_view(r: Option<ReExportSource>) -> Option<ReExportSourceView> {
    match r {
        Some(v) => Some(v@),
        None => None,
    }
}

/// What scanning one statement's exports decides: return a final answer,
/// remember a locally bound ident (and the export type it was reached
/// by) for the import scan, or move on to the next statement.
pub enum ExportScanStep {
    Found(Option<ReExportSourceView>),
    Local(Seq<char>, ReExportTypeView),
    Skip,
}

/// Whether `ident` occurs in `ids` by symbol-only equality.
pub open spec fn some_ident_sym_eq(ids: Seq<String>, ident: Seq<char>) -> bool {
    exists|i: int| 0 <= i < ids.len() && ident_sym_eq(ids[i]@, ident)
}

/// What the matched export specifier decides for `ident`, given the
/// export's source.
pub open spec fn export_specifier_step(
    sp: ExportSpecifierInfo,
    source: Option<String>,
    ident: Seq<char>,
) -> ExportScanStep {
    match source {
        Some(src) => match sp {
            ExportSpecifierInfo::All(ids) => if some_ident_sym_eq(ids@, ident) {
                ExportScanStep::Found(
                    Some(
                        ReExportSourceView {
                            ty: ReExportTypeView::Named(sym_of(ident)),
                            source: Some(src@),
                        },
                    ),
                )
            } else {
                ExportScanStep::Skip
            },
            ExportSpecifierInfo::Ambiguous(_) => ExportScanStep::Skip,
            ExportSpecifierInfo::Named { local, exported } => {
                let hit = match exported {
                    Some(e) => ident_sym_eq(e@, ident),
                    None => ident_sym_eq(ident, local@),
                };
                if hit {
                    let ty = if sym_of(local@) == "default"@ {
                        ReExportTypeView::Default
                    } else {
                        ReExportTypeView::Named(sym_of(local@))
                    };
                    ExportScanStep::Found(
                        Some(ReExportSourceView { ty, source: Some(src@) }),
                    )
                } else {
                    ExportScanStep::Skip
                }
            },
            ExportSpecifierInfo::Default(_) => ExportScanStep::Found(None),
            ExportSpecifierInfo::Namespace(name) => if sym_of(name@) == ident {
                ExportScanStep::Found(
                    Some(
                        ReExportSourceView {
                            ty: ReExportTypeView::Namespace,
                            source: Some(src@),
                        },
                    ),
                )
            } else {
                ExportScanStep::Found(None)
            },
        },
        None => match sp {
            ExportSpecifierInfo::All(_) => ExportScanStep::Skip,
            ExportSpecifierInfo::Named { local, exported } => match exported {
                Some(e) => if ident_sym_eq(e@, ident) {
                    ExportScanStep::Local(local@, ReExportTypeView::Named(sym_of(e@)))
                } else {
                    ExportScanStep::Skip
                },
                None => if ident_sym_eq(ident, local@) {
                    ExportScanStep::Local(local@, ReExportTypeView::Named(sym_of(local@)))
                } else {
                    ExportScanStep::Skip
                },
            },
            ExportSpecifierInfo::Default(opt) => if ident == "default"@ {
                match opt {
                    Some(d) => ExportScanStep::Local(d@, ReExportTypeView::Default),
                    None => ExportScanStep::Found(
                        Some(
                            ReExportSourceView {
                                ty: ReExportTypeView::Default,
                                source: None,
                            },
                        ),
                    ),
                }
            } else {
                ExportScanStep::Skip
            },
            ExportSpecifierInfo::Namespace(_) => ExportScanStep::Found(None),
            ExportSpecifierInfo::Ambiguous(_) => ExportScanStep::Found(None),
        },
    }
}

/// What one statement decides for `ident`.
pub open spec fn export_stmt_step(stmt: Statement, ident: Seq<char>) -> ExportScanStep {
    match stmt.export_info {
        None => ExportScanStep::Skip,
        Some(ei) => match first_export_match(ei.specifiers@, ident) {
            None => ExportScanStep::Skip,
            Some(k) => export_specifier_step(ei.specifiers@[k], ei.source, ident),
        },
    }
}

/// The first decision among statements `i..`, or `Skip` if none decides.
pub open spec fn export_scan_from(stmts: Seq<Statement>, ident: Seq<char>, i: int) -> ExportScanStep
    decreases stmts.len() - i,
{
    if i < 0 || i >= stmts.len() {
        ExportScanStep::Skip
    } else {
        match export_stmt_step(stmts[i], ident) {
            ExportScanStep::Skip => export_scan_from(stmts, ident, i + 1),
            step => step,
        }
    }
}

/// What the import specifier that binds `l` decides: `None` is "keep
/// scanning".
pub open spec fn import_specifier_step(
    sp: ImportSpecifierInfo,
    source: Seq<char>,
    l: Seq<char>,
) -> Option<ReExportSourceView> {
    match sp {
        ImportSpecifierInfo::Namespace(_) => Some(
            ReExportSourceView { ty: ReExportTypeView::Namespace, source: Some(source) },
        ),
        ImportSpecifierInfo::Named { local, imported } => if ident_sym_eq(l, local@) {
            let next = match imported {
                Some(im) => im@,
                None => l,
            };
            Some(
                ReExportSourceView {
                    ty: ReExportTypeView::Named(sym_of(next)),
                    source: Some(source),
                },
            )
        } else {
            None
        },
        ImportSpecifierInfo::Default(name) => if l == name@ {
            Some(ReExportSourceView { ty: ReExportTypeView::Default, source: Some(source) })
        } else {
            None
        },
    }
}

/// What one statement's imports decide for the local ident `l`.
pub open spec fn import_stmt_step(stmt: Statement, l: Seq<char>) -> Option<ReExportSourceView> {
    match stmt.import_info {
        None => None,
        Some(ii) => match first_import_match(ii.specifiers@, l) {
            None => None,
            Some(k) => import_specifier_step(ii.specifiers@[k], ii.source@, l),
        },
    }
}

/// The first import decision among statements `i..`.
pub open spec fn import_scan_from(stmts: Seq<Statement>, l: Seq<char>, i: int) -> Option<
    ReExportSourceView,
>
    decreases stmts.len() - i,
{
    if i < 0 || i >= stmts.len() {
        None
    } else {
        match import_stmt_step(stmts[i], l) {
            None => import_scan_from(stmts, l, i + 1),
            step => step,
        }
    }
}

/// The full resolution: scan exports first; a remembered local ident is
/// chased through the imports; a local binding with no matching import
/// is a direct export.
pub open spec fn resolve_export_source(stmts: Seq<Statement>, ident: Seq<char>) -> Option<
    ReExportSourceView,
> {
    match export_scan_from(stmts, ident, 0) {
        ExportScanStep::Found(r) => r,
        ExportScanStep::Local(l, ty) => match import_scan_from(stmts, l, 0) {
            Some(r) => Some(r),
            None => Some(ReExportSourceView { ty, source: None }),
        },
        ExportScanStep::Skip => None,
    }
}

/// Executable counterpart of `ExportScanStep`.
enum ScanDecision {
    Found(Option<ReExportSource>),
    Local(String, ReExportType),
    Nothing,
}

spec fn decision_view(d: ScanDecision) -> ExportScanStep {
    match d {
        ScanDecision::Found(r) => ExportScanStep::Found(opt_source_view(r)),
        ScanDecision::Local(l, t) => ExportScanStep::Local(l@, t@),
        ScanDecision::Nothing => ExportScanStep::Skip,
    }
}

/// Clones an optional source string.
fn clone_opt_str(o: &Option<String>) -> (r: Option<String>)
    ensures
        r == *o,
{
    match o {
        Some(s) => Some(s.clone()),
        None => None,
    }
}

/// Whether `ident` occurs in `ids` by symbol-only equality, executably.
fn any_ident_sym_equal(ids: &Vec<String>, ident: &str) -> (r: bool)
    ensures
        r == some_ident_sym_eq(ids@, ident@),
{
    let n = ids.len();
    let mut i: usize = 0;
    while i < n
        invariant
            0 <= i <= n,
            n == ids@.len(),
            forall|k: int| 0 <= k < i ==> !ident_sym_eq(ids@[k]@, ident@),
        decreases n - i,
    {
        if is_ident_sym_equal(ids[i].as_str(), ident) {
            return true;
        }
        i = i + 1;
    }
    false
}

/// What `stmt`'s exports decide for `ident`.
fn export_stmt_decide(stmt: &Statement, ident: &str) -> (r: ScanDecision)
    ensures
        decision_view(r) == export_stmt_step(*stmt, ident@),
{
    if let Some(ei) = &stmt.export_info {
        if let Some(sp) = ei.find_define_specifier(ident) {
            proof {
                assert(first_export_match(ei.specifiers@, ident@) is Some);
            }
            let ghost k = choose|k: int| first_export_match(ei.specifiers@, ident@) == Some(k);
            proof {
                assert(*sp == ei.specifiers@[k]);
            }
            if let Some(src) = &ei.source {
                match sp {
                    ExportSpecifierInfo::All(all_exports) => {
                        if any_ident_sym_equal(all_exports, ident) {
                            ScanDecision::Found(
                                Some(
                                    ReExportSource {
                                        re_export_type: ReExportType::Named(strip_context(ident)),
                                        source: Some(src.clone()),
                                    },
                                ),
                            )
                        } else {
                            ScanDecision::Nothing
                        }
                    },
                    ExportSpecifierInfo::Ambiguous(_) => {
                        // Ambiguous usually means mixed with CommonJS;
                        // such modules always keep their side effects.
                        ScanDecision::Nothing
                    },
                    ExportSpecifierInfo::Named { exported, local } => {
                        let stripped_local = strip_context(local.as_str());
                        let hit = match exported {
                            Some(exported_name) => is_ident_sym_equal(exported_name.as_str(), ident),
                            None => is_ident_sym_equal(ident, local.as_str()),
                        };
                        if hit {
                            let ty = if str_eq(stripped_local.as_str(), "default") {
                                ReExportType::Default
                            } else {
                                ReExportType::Named(stripped_local)
                            };
                            ScanDecision::Found(
                                Some(
                                    ReExportSource {
                                        re_export_type: ty,
                                        source: Some(src.clone()),
                                    },
                                ),
                            )
                        } else {
                            ScanDecision::Nothing
                        }
                    },
                    ExportSpecifierInfo::Default(_) => {
                        // `export default from "x"` is unsupported when the
                        // export carries a source.
                        ScanDecision::Found(None)
                    },
                    ExportSpecifierInfo::Namespace(name) => {
                        let stripped_name = strip_context(name.as_str());
                        if str_eq(stripped_name.as_str(), ident) {
                            ScanDecision::Found(
                                Some(
                                    ReExportSource {
                                        re_export_type: ReExportType::Namespace,
                                        source: Some(src.clone()),
                                    },
                                ),
                            )
                        } else {
                            ScanDecision::Found(None)
                        }
                    },
                }
            } else {
                match sp {
                    ExportSpecifierInfo::All(_) => ScanDecision::Nothing,
                    ExportSpecifierInfo::Named { exported, local } => {
                        match exported {
                            Some(exported_name) => {
                                if is_ident_sym_equal(exported_name.as_str(), ident) {
                                    ScanDecision::Local(
                                        local.clone(),
                                        ReExportType::Named(strip_context(exported_name.as_str())),
                                    )
                                } else {
                                    ScanDecision::Nothing
                                }
                            },
                            None => {
                                if is_ident_sym_equal(ident, local.as_str()) {
                                    ScanDecision::Local(
                                        local.clone(),
                                        ReExportType::Named(strip_context(local.as_str())),
                                    )
                                } else {
                                    ScanDecision::Nothing
                                }
                            },
                        }
                    },
                    ExportSpecifierInfo::Default(export_default_ident) => {
                        if str_eq(ident, "default") {
                            match export_default_ident {
                                Some(default_ident) => ScanDecision::Local(
                                    default_ident.clone(),
                                    ReExportType::Default,
                                ),
                                None => ScanDecision::Found(
                                    Some(
                                        ReExportSource {
                                            re_export_type: ReExportType::Default,
                                            source: None,
                                        },
                                    ),
                                ),
                            }
                        } else {
                            ScanDecision::Nothing
                        }
                    },
                    // These never happen for an export without a source.
                    ExportSpecifierInfo::Namespace(_) => ScanDecision::Found(None),
                    ExportSpecifierInfo::Ambiguous(_) => ScanDecision::Found(None),
                }
            }
        } else {
            ScanDecision::Nothing
        }
    } else {
        ScanDecision::Nothing
    }
}

/// The first export decision among all statements.
fn export_scan(stmts: &Vec<Statement>, ident: &str) -> (r: ScanDecision)
    ensures
        decision_view(r) == export_scan_from(stmts@, ident@, 0),
{
    let n = stmts.len();
    let mut i: usize = 0;
    while i < n
        invariant
            0 <= i <= n,
            n == stmts@.len(),
            export_scan_from(stmts@, ident@, 0) == export_scan_from(stmts@, ident@, i as int),
        decreases n - i,
    {
        let d = export_stmt_decide(&stmts[i], ident);
        match d {
            ScanDecision::Nothing => {},
            _ => {
                return d;
            },
        }
        i = i + 1;
    }
    ScanDecision::Nothing
}

/// What `stmt`'s imports decide for the remembered local ident.
fn import_stmt_decide(stmt: &Statement, local: &str) -> (r: Option<ReExportSource>)
    ensures
        opt_source_view(r) == import_stmt_step(*stmt, local@),
{
    if let Some(import_info) = &stmt.import_info {
        if let Some(sp) = import_info.find_define_specifier(local) {
            proof {
                assert(first_import_match(import_info.specifiers@, local@) is Some);
            }
            let ghost k = choose|k: int|
                first_import_match(import_info.specifiers@, local@) == Some(k);
            proof {
                assert(*sp == import_info.specifiers@[k]);
            }
            match sp {
                ImportSpecifierInfo::Namespace(_) => Some(
                    ReExportSource {
                        re_export_type: ReExportType::Namespace,
                        source: Some(import_info.source.clone()),
                    },
                ),
                ImportSpecifierInfo::Named { imported, local: imported_local } => {
                    if is_ident_sym_equal(local, imported_local.as_str()) {
                        let next_name = match imported {
                            Some(im) => im.clone(),
                            None => local.to_owned(),
                        };
                        Some(
                            ReExportSource {
                                re_export_type: ReExportType::Named(
                                    strip_context(next_name.as_str()),
                                ),
                                source: Some(import_info.source.clone()),
                            },
                        )
                    } else {
                        None
                    }
                },
                ImportSpecifierInfo::Default(name) => {
                    if str_eq(local, name.as_str()) {
                        Some(
                            ReExportSource {
                                re_export_type: ReExportType::Default,
                                source: Some(import_info.source.clone()),
                            },
                        )
                    } else {
                        None
                    }
                },
            }
        } else {
            None
        }
    } else {
        None
    }
}

/// The first import decision among all statements.
fn import_scan(stmts: &Vec<Statement>, local: &str) -> (r: Option<ReExportSource>)
    ensures
        opt_source_view(r) == import_scan_from(stmts@, local@, 0),
{
    let n = stmts.len();
    let mut i: usize = 0;
    while i < n
        invariant
            0 <= i <= n,
            n == stmts@.len(),
            import_scan_from(stmts@, local@, 0) == import_scan_from(stmts@, local@, i as int),
        decreases n - i,
    {
        let d = import_stmt_decide(&stmts[i], local);
        if d.is_some() {
            return d;
        }
        i = i + 1;
    }
    None
}

/// A module as the tree-shaker sees it: the owner of a statement graph.
#[derive(Debug)]
pub struct TreeShakeModule {
    pub stmt_graph: StatementGraph,
}

impl TreeShakeModule {
    /// Resolves where the value exported by this module under `ident`
    /// really originates.
    pub fn find_export_source(&self, ident: &String) -> (r: Option<ReExportSource>)
        ensures
            opt_source_view(r) == resolve_export_source(self.stmt_graph.stmts@, ident@),
    {
        match export_scan(&self.stmt_graph.stmts, ident.as_str()) {
            ScanDecision::Found(r) => r,
            ScanDecision::Local(local, ty) => {
                match import_scan(&self.stmt_graph.stmts, local.as_str()) {
                    Some(r2) => Some(r2),
                    None => Some(ReExportSource { re_export_type: ty, source: None }),
                }
            },
            ScanDecision::Nothing => None,
        }
    }
}

/// The text of a `ReExportTypeView`, as `describe` prints it.
pub open spec fn type_describe(t: ReExportTypeView) -> Seq<char> {
    match t {
        ReExportTypeView::Named(s) => "Named(\""@ + s + "\")"@,
        ReExportTypeView::Default => "Default"@,
        ReExportTypeView::Namespace => "Namespace"@,
    }
}

/// The text of a resolver result: where the value comes from and how.
pub open spec fn describe_view(v: ReExportSourceView) -> Seq<char> {
    match v.source {
        Some(src) => "ReExport from "@ + src + " by "@ + type_describe(v.ty),
        None => "Direct Export "@ + type_describe(v.ty),
    }
}

impl ReExportSource {
    /// A human-readable account of the resolution.
    pub fn describe(&self) -> (r: String)
        ensures
            r@ == describe_view(self@),
    {
        let ty_s: String = match &self.re_export_type {
            ReExportType::Named(s) => "Named(\"".to_owned().concat(s.as_str()).concat("\")"),
            ReExportType::Default => "Default".to_owned(),
            ReExportType::Namespace => "Namespace".to_owned(),
        };
        match &self.source {
            Some(src) => "ReExport from ".to_owned().concat(src.as_str()).concat(" by ").concat(
                ty_s.as_str(),
            ),
            None => "Direct Export ".to_owned().concat(ty_s.as_str()),
        }
    }
}

/// A statement-level re-export binding: the local name it travels
/// through, the exported alias if any, and the source module if the
/// export carries one.
#[derive(Debug, Clone)]
pub struct ReExportAlias {
    pub local: String,
    pub exported: Option<String>,
    pub source: Option<String>,
}

/// Mathematical image of `ReExportAlias`.
pub struct ReExportAliasView {
    pub local: Seq<char>,
    pub exported: Option<Seq<char>>,
    pub source: Option<Seq<char>>,
}

impl View for ReExportAlias {
    type V = ReExportAliasView;

    open spec fn view(&self) -> ReExportAliasView {
        ReExportAliasView {
            local: self.local@,
            exported: opt_str_view(self.exported),
            source: opt_str_view(self.source),
        }
    }
}

/// The views of an optional alias.
pub open spec fn opt_alias_view(r: Option<ReExportAlias>) -> Option<ReExportAliasView> {
    match r {
        Some(a) => Some(a@),
        None => None,
    }
}

/// What one specifier decides for the statement-level alias scan.
pub enum AliasScan {
    Found(Option<ReExportAliasView>),
    Skip,
}

/// What an export specifier decides. Forms whose member set is not
/// statically known (`All` without a concrete list, `Ambiguous`) and
/// the sourceless default re-export shape give the resolution up.
pub open spec fn alias_export_step(
    sp: ExportSpecifierInfo,
    source: Option<String>,
    ident: Seq<char>,
) -> AliasScan {
    match sp {
        ExportSpecifierInfo::All(_) => AliasScan::Found(None),
        ExportSpecifierInfo::Named { local, exported } => match exported {
            Some(e) => if ident_eq(ident, e@) {
                AliasScan::Found(
                    Some(
                        ReExportAliasView {
                            local: sym_of(local@),
                            exported: Some(sym_of(e@)),
                            source: opt_str_view(source),
                        },
                    ),
                )
            } else {
                AliasScan::Skip
            },
            None => if ident_eq(ident, local@) {
                AliasScan::Found(
                    Some(
                        ReExportAliasView {
                            local: sym_of(local@),
                            exported: None,
                            source: opt_str_view(source),
                        },
                    ),
                )
            } else {
                AliasScan::Skip
            },
        },
        ExportSpecifierInfo::Default(_) => AliasScan::Found(None),
        ExportSpecifierInfo::Namespace(_) => AliasScan::Skip,
        ExportSpecifierInfo::Ambiguous(_) => AliasScan::Found(None),
    }
}

/// The first export-specifier decision at or after `i`.
pub open spec fn alias_export_scan_from(
    specs: Seq<ExportSpecifierInfo>,
    source: Option<String>,
    ident: Seq<char>,
    i: int,
) -> AliasScan
    decreases specs.len() - i,
{
    if i < 0 || i >= specs.len() {
        AliasScan::Skip
    } else {
        match alias_export_step(specs[i], source, ident) {
            AliasScan::Skip => alias_export_scan_from(specs, source, ident, i + 1),
            step => step,
        }
    }
}

/// What an import specifier decides. A namespace-aliased re-export is
/// not resolved.
pub open spec fn alias_import_step(
    sp: ImportSpecifierInfo,
    source: String,
    ident: Seq<char>,
) -> AliasScan {
    match sp {
        ImportSpecifierInfo::Namespace(_) => AliasScan::Found(None),
        ImportSpecifierInfo::Named { local, imported } => if ident_sym_eq(local@, ident) {
            AliasScan::Found(
                Some(
                    ReExportAliasView {
                        local: sym_of(local@),
                        exported: match imported {
                            Some(im) => Some(sym_of(im@)),
                            None => None,
                        },
                        source: Some(source@),
                    },
                ),
            )
        } else {
            AliasScan::Skip
        },
        ImportSpecifierInfo::Default(_) => AliasScan::Found(None),
    }
}

/// The first import-specifier decision at or after `i`.
pub open spec fn alias_import_scan_from(
    specs: Seq<ImportSpecifierInfo>,
    source: String,
    ident: Seq<char>,
    i: int,
) -> AliasScan
    decreases specs.len() - i,
{
    if i < 0 || i >= specs.len() {
        AliasScan::Skip
    } else {
        match alias_import_step(specs[i], source, ident) {
            AliasScan::Skip => alias_import_scan_from(specs, source, ident, i + 1),
            step => step,
        }
    }
}

/// What `to_re_export_type` returns: the export specifiers decide
/// first, then the import specifiers; otherwise nothing.
pub open spec fn stmt_re_export_alias(stmt: Statement, ident: Seq<char>) -> Option<
    ReExportAliasView,
> {
    let ex = match stmt.export_info {
        Some(ei) => alias_export_scan_from(ei.specifiers@, ei.source, ident, 0),
        None => AliasScan::Skip,
    };
    match ex {
        AliasScan::Found(r) => r,
        AliasScan::Skip => match stmt.import_info {
            Some(ii) => match alias_import_scan_from(ii.specifiers@, ii.source, ident, 0) {
                AliasScan::Found(r) => r,
                AliasScan::Skip => None,
            },
            None => None,
        },
    }
}

impl Statement {
    /// The re-export binding this statement gives `ref_ident`, if any.
    /// Forms whose resolution is not statically known (a concrete-less
    /// `export *`, an ambiguous surface, default re-export shapes and
    /// namespace-aliased bindings) yield nothing.
    pub fn to_re_export_type(&self, ref_ident: &str) -> (r: Option<ReExportAlias>)
        ensures
            opt_alias_view(r) == stmt_re_export_alias(*self, ref_ident@),
    {
        if let Some(export_info) = &self.export_info {
            let n = export_info.specifiers.len();
            let mut i: usize = 0;
            while i < n
                invariant
                    0 <= i <= n,
                    n == export_info.specifiers@.len(),
                    self.export_info == Some(*export_info),
                    alias_export_scan_from(export_info.specifiers@, export_info.source, ref_ident@, 0)
                        == alias_export_scan_from(
                        export_info.specifiers@,
                        export_info.source,
                        ref_ident@,
                        i as int,
                    ),
                decreases n - i,
            {
                match &export_info.specifiers[i] {
                    ExportSpecifierInfo::All(_) => {
                        return None;
                    },
                    ExportSpecifierInfo::Named { local, exported } => {
                        match exported {
                            Some(exported_name) => {
                                if is_ident_equal(ref_ident, exported_name.as_str()) {
                                    return Some(
                                        ReExportAlias {
                                            local: strip_context(local.as_str()),
                                            exported: Some(strip_context(exported_name.as_str())),
                                            source: clone_opt_str(&export_info.source),
                                        },
                                    );
                                }
                            },
                            None => {
                                if is_ident_equal(ref_ident, local.as_str()) {
                                    return Some(
                                        ReExportAlias {
                                            local: strip_context(local.as_str()),
                                            exported: None,
                                            source: clone_opt_str(&export_info.source),
                                        },
                                    );
                                }
                            },
                        }
                    },
                    ExportSpecifierInfo::Default(_) => {
                        return None;
                    },
                    ExportSpecifierInfo::Namespace(_) => {},
                    ExportSpecifierInfo::Ambiguous(_) => {
                        return None;
                    },
                }
                i = i + 1;
            }
        }
        if let Some(import_info) = &self.import_info {
            let n = import_info.specifiers.len();
            let mut i: usize = 0;
            while i < n
                invariant
                    0 <= i <= n,
                    n == import_info.specifiers@.len(),
                    self.import_info == Some(*import_info),
                    (self.export_info matches Some(ei) ==> alias_export_scan_from(
                        ei.specifiers@,
                        ei.source,
                        ref_ident@,
                        0,
                    ) is Skip),
                    alias_import_scan_from(import_info.specifiers@, import_info.source, ref_ident@, 0)
                        == alias_import_scan_from(
                        import_info.specifiers@,
                        import_info.source,
                        ref_ident@,
                        i as int,
                    ),
                decreases n - i,
            {
                match &import_info.specifiers[i] {
                    ImportSpecifierInfo::Namespace(_) => {
                        return None;
                    },
                    ImportSpecifierInfo::Named { local, imported } => {
                        if is_ident_sym_equal(local.as_str(), ref_ident) {
                            let exported = match imported {
                                Some(im) => Some(strip_context(im.as_str())),
                                None => None,
                            };
                            return Some(
                                ReExportAlias {
                                    local: strip_context(local.as_str()),
                                    exported,
                                    source: Some(import_info.source.clone()),
                                },
                            );
                        }
                    },
                    ImportSpecifierInfo::Default(_) => {
                        return None;
                    },
                }
                i = i + 1;
            }
        }
        None
    }
}

} // verus!
