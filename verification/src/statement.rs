//! Per-statement analysis records: import/export specifiers and the
//! queries the re-export resolver and tree-shaker run over them.

use vstd::prelude::*;

use crate::ident::{ident_eq, is_ident_equal, str_eq, strip_context, sym_of};
use crate::idents::{IdentMap, IdentSet};

verus! {

/// Zero-based index of a statement into the module body.
pub type StatementId = usize;

#[derive(Debug, Clone, PartialEq, Eq)]
pub enum ImportSpecifierInfo {
    /// `import * as x from "src"`
    Namespace(String),
    /// `import { x } from "src"` or `import { y as x } from "src"`
    Named { local: String, imported: Option<String> },
    /// `import x from "src"`
    Default(String),
}

#[derive(Debug, Clone)]
pub struct ImportInfo {
    pub source: String,
    pub specifiers: Vec<ImportSpecifierInfo>,
    pub stmt_id: StatementId,
}

/// Whether an import specifier binds `ident` in module scope.
/// A namespace import matches any request: it exposes the whole namespace.
pub open spec fn import_specifier_matches(sp: ImportSpecifierInfo, ident: Seq<char>) -> bool {
    match sp {
        ImportSpecifierInfo::Namespace(_) => true,
        ImportSpecifierInfo::Named { local, imported: _ } => ident_eq(ident, local@),
        ImportSpecifierInfo::Default(local) => ident == local@,
    }
}

/// Index of the first import specifier at or after `i` that binds `ident`.
pub open spec fn first_import_match_from(
    specs: Seq<ImportSpecifierInfo>,
    ident: Seq<char>,
    i: int,
) -> Option<int>
    decreases specs.len() - i,
{
    if i < 0 || i >= specs.len() {
        None
    } else if import_specifier_matches(specs[i], ident) {
        Some(i)
    } else {
        first_import_match_from(specs, ident, i + 1)
    }
}

/// Index of the first import specifier that binds `ident`.
pub open spec fn first_import_match(specs: Seq<ImportSpecifierInfo>, ident: Seq<char>) -> Option<
    int,
> {
    first_import_match_from(specs, ident, 0)
}

impl ImportInfo {
    /// The specifier that binds `ident` in this import, if any.
    pub fn find_define_specifier(&self, ident: &str) -> (r: Option<&ImportSpecifierInfo>)
        ensures
            match first_import_match(self.specifiers@, ident@) {
                Some(i) => r matches Some(sp) && *sp == self.specifiers@[i],
                None => r is None,
            },
    {
        let n = self.specifiers.len();
        let mut k: usize = 0;
        while k < n
            invariant
                0 <= k <= n,
                n == self.specifiers@.len(),
                first_import_match(self.specifiers@, ident@) == first_import_match_from(
                    self.specifiers@,
                    ident@,
                    k as int,
                ),
            decreases n - k,
        {
            let sp = &self.specifiers[k];
            let matched = match sp {
                ImportSpecifierInfo::Namespace(_) => true,
                ImportSpecifierInfo::Named { local, imported: _ } => is_ident_equal(
                    ident,
                    local.as_str(),
                ),
                ImportSpecifierInfo::Default(local_name) => str_eq(ident, local_name.as_str()),
            };
            if matched {
                proof {
                    assert(import_specifier_matches(self.specifiers@[k as int], ident@));
                }
                return Some(sp);
            }
            k = k + 1;
        }
        None
    }
}

#[derive(Debug, Clone)]
pub enum ExportSpecifierInfo {
    /// `export * from "src"`, with the concrete member list when known.
    All(Vec<String>),
    /// `export { x }`, `export { x as y }`, with or without a source.
    Named { local: String, exported: Option<String> },
    /// `export default <expr>`, with the local ident when the expression
    /// is a plain identifier, function or class.
    Default(Option<String>),
    /// `export * as x from "src"`
    Namespace(String),
    /// The concrete export set cannot be determined statically
    /// (CommonJS interop).
    Ambiguous(Vec<String>),
}

/// The name under which a `Named` specifier exports: the alias when
/// present, else the local name.
pub open spec fn export_name(local: String, exported: Option<String>) -> Seq<char> {
    match exported {
        Some(e) => e@,
        None => local@,
    }
}

/// Whether `ident` occurs in `ids`, by full identifier equality.
pub open spec fn some_ident_eq(ids: Seq<String>, ident: Seq<char>) -> bool {
    exists|i: int| 0 <= i < ids.len() && ident_eq(ident, ids[i]@)
}

/// Whether an export specifier exports `ident`.
pub open spec fn export_specifier_matches(sp: ExportSpecifierInfo, ident: Seq<char>) -> bool {
    match sp {
        ExportSpecifierInfo::Default(_) => ident == "default"@,
        ExportSpecifierInfo::Named { local, exported } => ident_eq(
            ident,
            export_name(local, exported),
        ),
        ExportSpecifierInfo::Namespace(ns) => ident_eq(ident, ns@),
        ExportSpecifierInfo::All(ids) => some_ident_eq(ids@, ident),
        ExportSpecifierInfo::Ambiguous(ids) => some_ident_eq(ids@, ident),
    }
}

/// Index of the first export specifier at or after `i` that exports
/// `ident`. An `Ambiguous` specifier that does not list `ident`
/// short-circuits the search.
pub open spec fn first_export_match_from(
    specs: Seq<ExportSpecifierInfo>,
    ident: Seq<char>,
    i: int,
) -> Option<int>
    decreases specs.len() - i,
{
    if i < 0 || i >= specs.len() {
        None
    } else if export_specifier_matches(specs[i], ident) {
        Some(i)
    } else if specs[i] is Ambiguous {
        None
    } else {
        first_export_match_from(specs, ident, i + 1)
    }
}

/// Index of the first export specifier that exports `ident`.
pub open spec fn first_export_match(specs: Seq<ExportSpecifierInfo>, ident: Seq<char>) -> Option<
    int,
> {
    first_export_match_from(specs, ident, 0)
}

/// Whether `ident` occurs in `ids`, executably.
pub fn any_ident_equal(ids: &Vec<String>, ident: &str) -> (r: bool)
    ensures
        r == some_ident_eq(ids@, ident@),
{
    let n = ids.len();
    let mut i: usize = 0;
    while i < n
        invariant
            0 <= i <= n,
            n == ids@.len(),
            forall|k: int| 0 <= k < i ==> !ident_eq(ident@, ids@[k]@),
        decreases n - i,
    {
        if is_ident_equal(ident, ids[i].as_str()) {
            return true;
        }
        i = i + 1;
    }
    false
}

impl ExportSpecifierInfo {
    /// The idents this specifier contributes to the module's export
    /// surface, stripped of context. `All` and `Ambiguous` contribute
    /// none: their member sets are not statically known.
    pub fn to_idents(&self) -> (r: Vec<String>)
        ensures
            match *self {
                ExportSpecifierInfo::All(_) => r@.len() == 0,
                ExportSpecifierInfo::Named { local, exported } => r@.len() == 1 && r@[0]@ == sym_of(
                    export_name(local, exported),
                ),
                ExportSpecifierInfo::Default(_) => r@.len() == 1 && r@[0]@ == "default"@,
                ExportSpecifierInfo::Namespace(ns) => r@.len() == 1 && r@[0]@ == sym_of(ns@),
                ExportSpecifierInfo::Ambiguous(_) => r@.len() == 0,
            },
    {
        match self {
            ExportSpecifierInfo::All(_) => Vec::new(),
            ExportSpecifierInfo::Named { local, exported } => {
                let name = match exported {
                    Some(exp) => strip_context(exp.as_str()),
                    None => strip_context(local.as_str()),
                };
                let mut r = Vec::new();
                r.push(name);
                r
            },
            ExportSpecifierInfo::Default(_) => {
                let mut r = Vec::new();
                r.push("default".to_owned());
                r
            },
            ExportSpecifierInfo::Namespace(ns) => {
                let mut r = Vec::new();
                r.push(strip_context(ns.as_str()));
                r
            },
            ExportSpecifierInfo::Ambiguous(_) => Vec::new(),
        }
    }
}

#[derive(Debug, Clone)]
pub struct ExportInfo {
    pub source: Option<String>,
    pub specifiers: Vec<ExportSpecifierInfo>,
    pub stmt_id: StatementId,
}

#[derive(Debug, Clone, Copy, PartialEq, Eq, Structural)]
pub enum ExportInfoMatch {
    Matched,
    Unmatched,
    Ambiguous,
}

/// Whether some specifier exports `ident`.
pub open spec fn any_export_match(specs: Seq<ExportSpecifierInfo>, ident: Seq<char>) -> bool {
    exists|i: int| 0 <= i < specs.len() && export_specifier_matches(#[trigger] specs[i], ident)
}

/// Whether some specifier is `Ambiguous`.
pub open spec fn any_ambiguous(specs: Seq<ExportSpecifierInfo>) -> bool {
    exists|i: int| 0 <= i < specs.len() && (#[trigger] specs[i]) is Ambiguous
}

impl ExportInfo {
    /// The specifier whose exported name matches `ident`, if any.
    /// An `Ambiguous` specifier that does not list `ident` ends the
    /// search with `None`.
    pub fn find_define_specifier(&self, ident: &str) -> (r: Option<&ExportSpecifierInfo>)
        ensures
            match first_export_match(self.specifiers@, ident@) {
                Some(i) => r matches Some(sp) && *sp == self.specifiers@[i],
                None => r is None,
            },
    {
        let n = self.specifiers.len();
        let mut k: usize = 0;
        while k < n
            invariant
                0 <= k <= n,
                n == self.specifiers@.len(),
                first_export_match(self.specifiers@, ident@) == first_export_match_from(
                    self.specifiers@,
                    ident@,
                    k as int,
                ),
            decreases n - k,
        {
            let sp = &self.specifiers[k];
            match sp {
                ExportSpecifierInfo::Default(_) => {
                    if str_eq(ident, "default") {
                        return Some(sp);
                    }
                },
                ExportSpecifierInfo::Named { local, exported } => {
                    let exported_ident = match exported {
                        Some(exp) => exp,
                        None => local,
                    };
                    if is_ident_equal(ident, exported_ident.as_str()) {
                        return Some(sp);
                    }
                },
                ExportSpecifierInfo::Namespace(ns) => {
                    if is_ident_equal(ident, ns.as_str()) {
                        return Some(sp);
                    }
                },
                ExportSpecifierInfo::All(exported_idents) => {
                    if any_ident_equal(exported_idents, ident) {
                        return Some(sp);
                    }
                },
                ExportSpecifierInfo::Ambiguous(idents) => {
                    if any_ident_equal(idents, ident) {
                        return Some(sp);
                    }
                    return None;
                },
            }
            k = k + 1;
        }
        None
    }

    /// Three-valued export query: a concrete match wins; `Ambiguous` is
    /// reported only when no specifier matched but an `Ambiguous`
    /// specifier could have.
    pub fn matches_ident(&self, ident: &str) -> (r: ExportInfoMatch)
        ensures
            (r == ExportInfoMatch::Matched) == any_export_match(self.specifiers@, ident@),
            (r == ExportInfoMatch::Ambiguous) == (!any_export_match(self.specifiers@, ident@)
                && any_ambiguous(self.specifiers@)),
            (r == ExportInfoMatch::Unmatched) == (!any_export_match(self.specifiers@, ident@)
                && !any_ambiguous(self.specifiers@)),
    {
        let mut res = ExportInfoMatch::Unmatched;
        let n = self.specifiers.len();
        let mut k: usize = 0;
        while k < n
            invariant
                0 <= k <= n,
                n == self.specifiers@.len(),
                forall|j: int|
                    0 <= j < k ==> !export_specifier_matches(
                        #[trigger] self.specifiers@[j],
                        ident@,
                    ),
                (res == ExportInfoMatch::Ambiguous) == exists|j: int|
                    0 <= j < k && self.specifiers@[j] is Ambiguous,
                res == ExportInfoMatch::Ambiguous || res == ExportInfoMatch::Unmatched,
            decreases n - k,
        {
            let sp = &self.specifiers[k];
            match sp {
                ExportSpecifierInfo::Default(_) => {
                    if str_eq(ident, "default") {
                        proof {
                            assert(export_specifier_matches(self.specifiers@[k as int], ident@));
                        }
                        return ExportInfoMatch::Matched;
                    }
                },
                ExportSpecifierInfo::Named { local, exported } => {
                    let exported_ident = match exported {
                        Some(exp) => exp,
                        None => local,
                    };
                    if is_ident_equal(ident, exported_ident.as_str()) {
                        proof {
                            assert(export_specifier_matches(self.specifiers@[k as int], ident@));
                        }
                        return ExportInfoMatch::Matched;
                    }
                },
                ExportSpecifierInfo::Namespace(ns) => {
                    if is_ident_equal(ident, ns.as_str()) {
                        proof {
                            assert(export_specifier_matches(self.specifiers@[k as int], ident@));
                        }
                        return ExportInfoMatch::Matched;
                    }
                },
                ExportSpecifierInfo::All(exported_idents) => {
                    if any_ident_equal(exported_idents, ident) {
                        proof {
                            assert(export_specifier_matches(self.specifiers@[k as int], ident@));
                        }
                        return ExportInfoMatch::Matched;
                    }
                },
                ExportSpecifierInfo::Ambiguous(idents) => {
                    if any_ident_equal(idents, ident) {
                        proof {
                            assert(export_specifier_matches(self.specifiers@[k as int], ident@));
                        }
                        return ExportInfoMatch::Matched;
                    }
                    res = ExportInfoMatch::Ambiguous;
                },
            }
            k = k + 1;
        }
        res
    }
}

/// A byte range in the module's source text.
#[derive(Debug, Clone, Copy, PartialEq, Eq, Structural)]
pub struct Span {
    pub lo: u32,
    pub hi: u32,
}

/// Analysis record for one top-level item of a module.
#[derive(Debug)]
pub struct Statement {
    pub id: StatementId,
    pub import_info: Option<ImportInfo>,
    pub export_info: Option<ExportInfo>,
    /// Bindings this statement introduces in module scope.
    pub defined_idents: IdentSet,
    /// Identifiers referenced by this statement's expressions.
    pub used_idents: IdentSet,
    /// For each defined ident, the other idents used to compute it.
    pub defined_idents_map: IdentMap,
    /// Must be kept on any tree-shake even if none of its defined
    /// idents are used.
    pub is_self_executed: bool,
    pub has_side_effects: bool,
    pub span: Span,
}

impl Statement {
    pub open spec fn wf(&self) -> bool {
        &&& self.defined_idents.wf()
        &&& self.used_idents.wf()
        &&& self.defined_idents_map.wf()
        &&& self.defined_idents_map@.dom().subset_of(self.defined_idents@)
    }
}

} // verus!
