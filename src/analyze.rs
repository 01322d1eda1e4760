use vstd::prelude::*;
use vstd::string::*;

use crate::aliases::{add_import_aliases, alias_lookup, bind_imports, has_string_import, import_binding_text, lemma_with_import_aliases_bind, Alias};
use crate::exports::{
    lemma_local_exports_prefix, lemma_source_re_exports_prefix,
    decl_names, default_decl_export_name, export_view, exports_view, item_exports, item_re_exports, local_export_name,
    local_exports, pack_default, plain_exports, re_export_view, re_exports_view, source_re_export_item, source_re_exports,
    ExportView, ReExportView,
};
use crate::registry::{lemma_module_id_stable, re_exports_resolved, ExportName, ModuleData, ModuleDataCollection, ModuleId, ReExport, ReExportName};
use crate::rewrite::{changes_view, edits_fit, is_plain, lemma_fits_two, node_edits, node_transpiles, opt_concat, ChangeView, RewriteContext, RewriteError, TextChangeCollector};
use crate::syntax::{has_await, has_function_scoped_node, ExportSpecifier, ImportSpecifier, Node, NodeKind, Program};
use crate::text_change::{apply_outcome, changes_in_bounds, lemma_disjoint_changes_apply, ChangeConflict};

verus! {

/// Why packing failed.
#[derive(Clone, Debug, PartialEq, Eq)]
pub enum PackError {
    /// The module names a dependency that the graph did not resolve.
    Unresolved(String),
    /// The graph has no root, or more than one.
    RootCount,
    /// The module is of a kind the packer cannot include.
    UnsupportedModule(String),
    /// The module holds a construct the packer does not handle.
    UnsupportedSyntax(String),
    /// Two of the module's text changes overlap, or one leaves its text.
    EditConflict(String, ChangeConflict),
    /// The transpiler failed on the module, with its message.
    Transpile(String, String),
}

/// The item is an import or export declaration rather than a statement.
pub open spec fn is_module_decl(k: NodeKind) -> bool {
    match k {
        NodeKind::ImportDecl { .. } | NodeKind::ExportDefaultExpr | NodeKind::ExportDefaultDecl { .. }
        | NodeKind::ExportDecl { .. } | NodeKind::NamedExport { .. } | NodeKind::ExportAll { .. } => true,
        _ => false,
    }
}

/// Some top-level item (a statement, or the declaration or expression of an
/// export) awaits outside any function.
pub open spec fn module_has_tla(body: Seq<Node>) -> bool {
    exists|i: int| 0 <= i < body.len() && #[trigger] has_await(body[i])
}

/// Whether some top-level item awaits outside any function.
pub fn find_top_level_await(body: &Vec<Node>) -> (r: bool)
    ensures
        r == module_has_tla(body@),
{
    let n = body.len();
    let mut i: usize = 0;
    while i < n
        invariant
            n == body@.len(),
            i <= n,
            forall|k: int| 0 <= k < i ==> !#[trigger] has_await(body@[k]),
        decreases n - i,
    {
        if has_function_scoped_node(&body[i]) {
            return true;
        }
        i = i + 1;
    }
    false
}

proof fn lemma_resolved_extend(keys: Seq<Seq<char>>, more: Seq<Seq<char>>, d: ModuleData)
    requires
        re_exports_resolved(keys, d),
        keys.len() <= more.len(),
        forall|i: int| 0 <= i < keys.len() ==> #[trigger] more[i] == keys[i],
    ensures
        re_exports_resolved(more, d),
{
    assert forall|i: int| 0 <= i < d.re_exports@.len() implies {
        let r = #[trigger] d.re_exports@[i];
        &&& r.module_id.0 < more.len()
        &&& more[r.module_id.0 as int] == r.specifier@
    } by {
        let r = d.re_exports@[i];
        assert(more[r.module_id.0 as int] == keys[r.module_id.0 as int]);
    }
}

/// The registry only grows: earlier modules keep their specifier.
pub open spec fn keys_extend(before: Seq<Seq<char>>, after: Seq<Seq<char>>) -> bool {
    &&& before.len() <= after.len()
    &&& forall|i: int| 0 <= i < before.len() ==> #[trigger] after[i] == before[i]
}

/// Meets a dependency: its number, created on first sight.
fn dependency_id(coll: &mut ModuleDataCollection, dep: &String) -> (r: ModuleId)
    requires
        old(coll).wf(),
    ensures
        final(coll).wf(),
        keys_extend(old(coll).keys(), final(coll).keys()),
        r.0 < final(coll).keys().len(),
        final(coll).keys()[r.0 as int] == dep@,
        forall|i: int| 0 <= i < old(coll).entries().len() ==> #[trigger] final(coll).entries()[i] == old(coll).entries()[i],
{
    let id = coll.get_mut(dep);
    proof {
        lemma_key_at_index(*coll, dep@);
    }
    id
}

/// The specifier that `index_of` finds is the one at that index.
proof fn lemma_key_at_index(coll: ModuleDataCollection, s: Seq<char>)
    requires
        coll.wf(),
        coll.index_of(s) is Some,
    ensures
        0 <= coll.index_of(s)->0 < coll.keys().len(),
        coll.keys()[coll.index_of(s)->0] == s,
{
}

/// The item imports or re-exports a dependency that the graph did not resolve.
pub open spec fn item_unresolved(k: NodeKind, is_root: bool) -> bool {
    match k {
        NodeKind::ImportDecl { resolved, type_only, .. } => !type_only && resolved is None,
        NodeKind::NamedExport { has_src, resolved, type_only, .. } => !is_root && !type_only && has_src && resolved is None,
        NodeKind::ExportAll { resolved, type_only } => !is_root && !type_only && resolved is None,
        _ => false,
    }
}

/// Some item of the body names a dependency that the graph did not resolve.
pub open spec fn body_unresolved(body: Seq<Node>, is_root: bool) -> bool {
    exists|i: int| 0 <= i < body.len() && item_unresolved((#[trigger] body[i]).kind, is_root)
}

/// Why a top-level item could not be recorded.
#[derive(Clone, Copy, Debug, PartialEq, Eq, Structural)]
pub enum ItemError {
    Unresolved,
    Unsupported,
}

/// What recording an item keeps of the registry and of the module's data.
pub open spec fn record_post(
    coll0: ModuleDataCollection,
    coll: ModuleDataCollection,
    data0: ModuleData,
    data: ModuleData,
) -> bool {
    &&& coll.wf()
    &&& keys_extend(coll0.keys(), coll.keys())
    &&& forall|i: int| 0 <= i < coll0.entries().len() ==> #[trigger] coll.entries()[i] == coll0.entries()[i]
    &&& data.wf()
    &&& re_exports_resolved(coll.keys(), data)
    &&& data.id == data0.id
    &&& data.has_tla == data0.has_tla
    &&& data.requires_transpile == data0.requires_transpile
    &&& data.text_changes == data0.text_changes
}

/// Records what one top-level item of a module that is not the root exports.
pub fn record_item_exports(
    coll: &mut ModuleDataCollection,
    data: &mut ModuleData,
    node: &Node,
    aliases: &Vec<Alias>,
) -> (r: Result<(), ItemError>)
    requires
        old(coll).wf(),
        old(data).wf(),
        re_exports_resolved(old(coll).keys(), *old(data)),
    ensures
        record_post(*old(coll), *final(coll), *old(data), *final(data)),
        !is_module_decl(node.kind) ==> r is Ok && *final(data) == *old(data) && *final(coll) == *old(coll),
        r == Err::<(), ItemError>(ItemError::Unresolved) ==> item_unresolved(node.kind, false),
        item_exports(node.kind, aliases@) is Some && item_re_exports(node.kind) is Some ==> r is Ok,
        r is Ok ==> item_exports(node.kind, aliases@) is Some && item_re_exports(node.kind) is Some
            && exports_view(final(data).exports@) == exports_view(old(data).exports@) + item_exports(
            node.kind,
            aliases@,
        )->0 && re_exports_view(final(data).re_exports@) == re_exports_view(old(data).re_exports@)
            + item_re_exports(node.kind)->0,
{
    let ghost ev0 = exports_view(data.exports@);
    let ghost rv0 = re_exports_view(data.re_exports@);
    proof {
        assert(ev0 + Seq::<ExportView>::empty() =~= ev0);
        assert(rv0 + Seq::<(ReExportView, Seq<char>)>::empty() =~= rv0);
    }
    match &node.kind {
        NodeKind::ExportDefaultDecl { decl } => {
            if let Some(e) = default_decl_export_name(decl, aliases) {
                let ghost v = export_view(e);
                data.exports.push(e);
                proof {
                    assert(exports_view(data.exports@) =~= ev0 + seq![v]);
                }
            }
            Ok(())
        },
        NodeKind::ExportDefaultExpr => {
            let e = ExportName {
                local_name: String::from_str("__pack_default__"),
                export_name: Some(String::from_str("default")),
            };
            assert(export_view(e) == ExportView { local: pack_default(), exported: Some("default"@) });
            data.exports.push(e);
            proof {
                assert(exports_view(data.exports@) =~= ev0 + seq![export_view(e)]);
            }
            Ok(())
        },
        NodeKind::ExportDecl { decl } => {
            let names = match decl_names(decl) {
                Ok(names) => names,
                Err(_) => {
                    return Err(ItemError::Unsupported);
                },
            };
            let ghost ns = names.deep_view();
            let n = names.len();
            let mut i: usize = 0;
            proof {
                assert(plain_exports(ns.subrange(0, 0)) =~= Seq::<ExportView>::empty());
            }
            while i < n
                invariant
                    n == names@.len(),
                    ns == names.deep_view(),
                    i <= n,
                    data.wf(),
                    data.id == old(data).id,
                    data.has_tla == old(data).has_tla,
                    data.requires_transpile == old(data).requires_transpile,
                    data.text_changes == old(data).text_changes,
                    data.re_exports == old(data).re_exports,
                    *coll == *old(coll),
                    exports_view(data.exports@) == ev0 + plain_exports(ns.subrange(0, i as int)),
                decreases n - i,
            {
                let ghost before = data.exports@;
                let name = names[i].clone();
                assert(name@ == ns[i as int]);
                data.add_export_name(name);
                proof {
                    assert(plain_exports(ns.subrange(0, i as int + 1)) =~= plain_exports(ns.subrange(0, i as int)).push(
                        ExportView { local: ns[i as int], exported: None },
                    ));
                    assert(exports_view(data.exports@) =~= exports_view(before).push(
                        ExportView { local: ns[i as int], exported: None },
                    ));
                }
                i = i + 1;
            }
            proof {
                assert(ns.subrange(0, n as int) =~= ns);
            }
            Ok(())
        },
        NodeKind::NamedExport { has_src, resolved, type_only, specifiers } => {
            if *type_only {
                return Ok(());
            }
            if *has_src {
                let dep = match resolved {
                    Some(d) => d,
                    None => {
                        return Err(ItemError::Unresolved);
                    },
                };
                let dep_number = dependency_id(coll, dep);
                proof {
                    lemma_resolved_extend(old(coll).keys(), coll.keys(), *data);
                    assert(specifiers@.subrange(0, 0) =~= Seq::<ExportSpecifier>::empty());
                }
                let n = specifiers.len();
                let mut i: usize = 0;
                while i < n
                    invariant
                        n == specifiers@.len(),
                        i <= n,
                        coll.wf(),
                        keys_extend(old(coll).keys(), coll.keys()),
                        forall|k: int| 0 <= k < old(coll).entries().len() ==> #[trigger] coll.entries()[k] == old(coll).entries()[k],
                        dep_number.0 < coll.keys().len(),
                        coll.keys()[dep_number.0 as int] == dep@,
                        data.wf(),
                        re_exports_resolved(coll.keys(), *data),
                        data.id == old(data).id,
                        data.has_tla == old(data).has_tla,
                        data.requires_transpile == old(data).requires_transpile,
                        data.text_changes == old(data).text_changes,
                        data.exports == old(data).exports,
                        is_module_decl(node.kind),
                        source_re_exports(specifiers@.subrange(0, i as int), dep@) is Some,
                        item_re_exports(node.kind) == source_re_exports(specifiers@, dep@),
                        item_exports(node.kind, aliases@) == Some(Seq::<ExportView>::empty()),
                        re_exports_view(data.re_exports@) == rv0 + source_re_exports(specifiers@.subrange(0, i as int), dep@)->0,
                    decreases n - i,
                {
                    let ghost pre = specifiers@.subrange(0, i as int + 1);
                    proof {
                        assert(pre.drop_last() =~= specifiers@.subrange(0, i as int));
                        assert(pre.last() == specifiers@[i as int]);
                    }
                    match source_re_export_item(&specifiers[i], dep, dep_number) {
                        Ok(Some(re)) => {
                            let ghost before = data.re_exports@;
                            let ghost rv = re_export_view(re);
                            data.re_exports.push(re);
                            proof {
                                assert forall|k: int| 0 <= k < data.re_exports@.len() implies {
                                    let r = #[trigger] data.re_exports@[k];
                                    &&& r.module_id.0 < coll.keys().len()
                                    &&& coll.keys()[r.module_id.0 as int] == r.specifier@
                                } by {
                                    if k < before.len() {
                                        assert(data.re_exports@[k] == before[k]);
                                    }
                                }
                                assert(re_exports_view(data.re_exports@) =~= re_exports_view(before).push(rv));
                            }
                        },
                        Ok(None) => {},
                        Err(_) => {
                            proof {
                                lemma_source_re_exports_prefix(specifiers@, dep@, i as int + 1);
                            }
                            return Err(ItemError::Unsupported);
                        },
                    }
                    i = i + 1;
                }
                proof {
                    assert(specifiers@.subrange(0, n as int) =~= specifiers@);
                }
                Ok(())
            } else {
                proof {
                    assert(specifiers@.subrange(0, 0) =~= Seq::<ExportSpecifier>::empty());
                }
                let n = specifiers.len();
                let mut i: usize = 0;
                while i < n
                    invariant
                        n == specifiers@.len(),
                        i <= n,
                        data.wf(),
                        re_exports_resolved(coll.keys(), *data),
                        data.id == old(data).id,
                        data.has_tla == old(data).has_tla,
                        data.requires_transpile == old(data).requires_transpile,
                        data.text_changes == old(data).text_changes,
                        data.re_exports == old(data).re_exports,
                        *coll == *old(coll),
                        coll.wf(),
                        is_module_decl(node.kind),
                        local_exports(specifiers@.subrange(0, i as int), aliases@) is Some,
                        item_exports(node.kind, aliases@) == local_exports(specifiers@, aliases@),
                        exports_view(data.exports@) == ev0 + local_exports(specifiers@.subrange(0, i as int), aliases@)->0,
                    decreases n - i,
                {
                    let ghost pre = specifiers@.subrange(0, i as int + 1);
                    proof {
                        assert(pre.drop_last() =~= specifiers@.subrange(0, i as int));
                        assert(pre.last() == specifiers@[i as int]);
                    }
                    match local_export_name(&specifiers[i], aliases) {
                        Some(e) => {
                            let ghost before = data.exports@;
                            let ghost v = export_view(e);
                            data.exports.push(e);
                            proof {
                                assert(exports_view(data.exports@) =~= exports_view(before).push(v));
                            }
                        },
                        None => {
                            proof {
                                lemma_local_exports_prefix(specifiers@, aliases@, i as int + 1);
                            }
                            return Err(ItemError::Unsupported);
                        },
                    }
                    i = i + 1;
                }
                proof {
                    assert(specifiers@.subrange(0, n as int) =~= specifiers@);
                }
                Ok(())
            }
        },
        NodeKind::ExportAll { resolved, type_only } => {
            if *type_only {
                return Ok(());
            }
            let dep = match resolved {
                Some(d) => d,
                None => {
                    return Err(ItemError::Unresolved);
                },
            };
            let dep_number = dependency_id(coll, dep);
            proof {
                lemma_resolved_extend(old(coll).keys(), coll.keys(), *data);
            }
            let ghost before = data.re_exports@;
            let re = ReExport { name: ReExportName::All, specifier: dep.clone(), module_id: dep_number };
            assert(re_export_view(re) == (ReExportView::All, dep@));
            data.re_exports.push(re);
            proof {
                assert forall|k: int| 0 <= k < data.re_exports@.len() implies {
                    let r = #[trigger] data.re_exports@[k];
                    &&& r.module_id.0 < coll.keys().len()
                    &&& coll.keys()[r.module_id.0 as int] == r.specifier@
                } by {
                    if k < before.len() {
                        assert(data.re_exports@[k] == before[k]);
                    }
                }
                assert(re_exports_view(data.re_exports@) =~= rv0 + seq![(ReExportView::All, dep@)]);
            }
            Ok(())
        },
        _ => Ok(()),
    }
}

fn syntax_error(specifier: &String, e: RewriteError) -> (r: PackError)
    ensures
        r == match e {
            RewriteError::Conflict(c) => PackError::EditConflict(*specifier, c),
            RewriteError::MissingToken => PackError::UnsupportedSyntax(*specifier),
        },
{
    match e {
        RewriteError::Conflict(c) => PackError::EditConflict(specifier.clone(), c),
        RewriteError::MissingToken => PackError::UnsupportedSyntax(specifier.clone()),
    }
}

/// What the analysis of a module leaves in the registry for it.
pub open spec fn analyzed(coll: ModuleDataCollection, specifier: Seq<char>, program: Program, is_root_module: bool) -> bool {
    match coll.index_of(specifier) {
        Some(i) => {
            let d = coll.entries()[i];
            &&& d.has_tla == module_has_tla(program.body@)
            &&& changes_in_bounds(d.text_changes@, program.source@.len())
            &&& (is_root_module ==> d.exports@.len() == 0 && d.re_exports@.len() == 0)
        },
        None => false,
    }
}

/// The module has no import or export and no syntax to rewrite.
pub open spec fn plain_body(body: Seq<Node>) -> bool {
    forall|i: int| 0 <= i < body.len() ==> !is_module_decl(body[i].kind) && is_plain(#[trigger] body[i], Seq::empty())
}

/// The registry holds no change, export or transpile mark for the module.
pub open spec fn untouched(coll: ModuleDataCollection, specifier: Seq<char>) -> bool {
    match coll.index_of(specifier) {
        Some(i) => {
            let d = coll.entries()[i];
            &&& d.text_changes@.len() == 0
            &&& !d.requires_transpile
            &&& d.exports@.len() == 0
            &&& d.re_exports@.len() == 0
        },
        None => false,
    }
}

/// The module number the registry gives a dependency.
pub open spec fn dep_id(c: ModuleDataCollection, d: Seq<char>) -> ModuleId {
    ModuleId(c.index_of(d)->0 as usize)
}

/// The text the import declarations of the body bind `(sym, scope)` to,
/// each dependency's namespace named by its module number.
pub open spec fn body_import_lookup(c: ModuleDataCollection, body: Seq<Node>, sym: Seq<char>, scope: u64) -> Option<Seq<char>>
    decreases body.len(),
{
    if body.len() == 0 {
        None
    } else {
        let prev = body_import_lookup(c, body.drop_last(), sym, scope);
        match body.last().kind {
            NodeKind::ImportDecl { resolved: Some(d), type_only, specifiers } => if type_only {
                prev
            } else {
                bind_imports(specifiers@, dep_id(c, d@), sym, scope, prev)
            },
            _ => prev,
        }
    }
}

/// Every dependency that an import of the body names is in the registry.
pub open spec fn imports_known(c: ModuleDataCollection, body: Seq<Node>) -> bool {
    forall|i: int|
        0 <= i < body.len() ==> match (#[trigger] body[i]).kind {
            NodeKind::ImportDecl { resolved: Some(d), type_only, .. } => !type_only ==> c.index_of(d@) is Some,
            _ => true,
        }
}

pub proof fn lemma_import_lookup_stable(
    c1: ModuleDataCollection,
    c2: ModuleDataCollection,
    body: Seq<Node>,
    sym: Seq<char>,
    scope: u64,
)
    requires
        c1.wf(),
        c2.wf(),
        keys_extend(c1.keys(), c2.keys()),
        imports_known(c1, body),
    ensures
        body_import_lookup(c1, body, sym, scope) == body_import_lookup(c2, body, sym, scope),
    decreases body.len(),
{
    if body.len() > 0 {
        assert(imports_known(c1, body.drop_last())) by {
            assert forall|i: int| 0 <= i < body.drop_last().len() implies match (#[trigger] body.drop_last()[i]).kind {
                NodeKind::ImportDecl { resolved: Some(d), type_only, .. } => !type_only ==> c1.index_of(d@) is Some,
                _ => true,
            } by {
                assert(body.drop_last()[i] == body[i]);
            }
        }
        lemma_import_lookup_stable(c1, c2, body.drop_last(), sym, scope);
        let last = body.last();
        assert(body[body.len() - 1] == last);
        match last.kind {
            NodeKind::ImportDecl { resolved: Some(d), type_only, .. } => {
                if !type_only {
                    lemma_module_id_stable(c1, c2, d@);
                }
            },
            _ => {},
        }
    }
}

/// The changes that rewriting the items of a body records, in order.
pub open spec fn body_edits(cx: RewriteContext, body: Seq<Node>) -> Option<Seq<ChangeView>>
    decreases body.len(),
{
    if body.len() == 0 {
        Some(Seq::empty())
    } else {
        opt_concat(body_edits(cx, body.drop_last()), node_edits(cx, body.last()))
    }
}

/// Rewriting some item of the body needs a full emit.
pub open spec fn body_transpiles(cx: RewriteContext, body: Seq<Node>) -> bool
    decreases body.len(),
{
    body.len() > 0 && (body_transpiles(cx, body.drop_last()) || node_transpiles(cx, body.last()))
}

/// What the items of a body export, in order.
pub open spec fn body_exports(body: Seq<Node>, aliases: Seq<Alias>) -> Option<Seq<ExportView>>
    decreases body.len(),
{
    if body.len() == 0 {
        Some(Seq::empty())
    } else {
        match (body_exports(body.drop_last(), aliases), item_exports(body.last().kind, aliases)) {
            (Some(a), Some(b)) => Some(a + b),
            _ => None,
        }
    }
}

/// What the items of a body re-export, in order.
pub open spec fn body_re_exports(body: Seq<Node>) -> Option<Seq<(ReExportView, Seq<char>)>>
    decreases body.len(),
{
    if body.len() == 0 {
        Some(Seq::empty())
    } else {
        match (body_re_exports(body.drop_last()), item_re_exports(body.last().kind)) {
            (Some(a), Some(b)) => Some(a + b),
            _ => None,
        }
    }
}

/// The alias table binds exactly what the imports of the body bind.
pub open spec fn imported_aliases(c: ModuleDataCollection, body: Seq<Node>, aliases: Seq<Alias>) -> bool {
    forall|sym: Seq<char>, scope: u64|
        #[trigger] alias_lookup(aliases, sym, scope) == body_import_lookup(c, body, sym, scope)
}

/// The registry's changes for the module are the rewrite of its body under
/// the alias table, and so is its transpile mark; its exports and
/// re-exports are what its items record (none for the root).
pub open spec fn rewritten(c: ModuleDataCollection, specifier: Seq<char>, program: Program, aliases: Seq<Alias>, is_root: bool) -> bool {
    let cx = RewriteContext { aliases, source: program.source@, tokens: program.tokens@, is_root };
    match c.index_of(specifier) {
        Some(i) => {
            let d = c.entries()[i];
            &&& body_edits(cx, program.body@) == Some(changes_view(d.text_changes@))
            &&& d.requires_transpile == body_transpiles(cx, program.body@)
            &&& if is_root {
                d.exports@.len() == 0 && d.re_exports@.len() == 0
            } else {
                &&& body_exports(program.body@, aliases) == Some(exports_view(d.exports@))
                &&& body_re_exports(program.body@) == Some(re_exports_view(d.re_exports@))
            }
        },
        None => false,
    }
}

/// Some import of the body names a binding by a string.
pub open spec fn body_string_import(body: Seq<Node>) -> bool {
    exists|i: int|
        0 <= i < body.len() && match (#[trigger] body[i]).kind {
            NodeKind::ImportDecl { resolved, type_only, specifiers } => !type_only && resolved is Some
                && has_string_import(specifiers@, ModuleId(0)),
            _ => false,
        }
}

proof fn lemma_string_import_any_dep(specs: Seq<ImportSpecifier>, d1: ModuleId, d2: ModuleId)
    ensures
        has_string_import(specs, d1) == has_string_import(specs, d2),
{
    assert forall|i: int| 0 <= i < specs.len() implies (import_binding_text(specs[i], d1) is Err) == (
    import_binding_text(specs[i], d2) is Err) by {}
    if has_string_import(specs, d1) {
        let i = choose|i: int| 0 <= i < specs.len() && #[trigger] import_binding_text(specs[i], d1) is Err;
        assert(import_binding_text(specs[i], d2) is Err);
    }
    if has_string_import(specs, d2) {
        let i = choose|i: int| 0 <= i < specs.len() && #[trigger] import_binding_text(specs[i], d2) is Err;
        assert(import_binding_text(specs[i], d1) is Err);
    }
}

/// Under the alias table `a`, the module's edits are defined, lie within
/// its text and do not overlap, and (but for the root) its export records
/// are defined.
pub open spec fn rewrite_fits(program: Program, a: Seq<Alias>, is_root: bool) -> bool {
    let cx = RewriteContext { aliases: a, source: program.source@, tokens: program.tokens@, is_root };
    &&& edits_fit(Seq::empty(), body_edits(cx, program.body@), program.source@.len() as int)
    &&& (!is_root ==> body_exports(program.body@, a) is Some && body_re_exports(program.body@) is Some)
}

/// The module can be analyzed: every dependency it names is resolved, no
/// import binding is named by a string, and under any alias table its
/// imports may build the rewrite and the export records fit.
pub open spec fn analysis_ok(program: Program, is_root: bool) -> bool {
    &&& !body_unresolved(program.body@, is_root)
    &&& !body_string_import(program.body@)
    &&& forall|c: ModuleDataCollection, a: Seq<Alias>|
        #[trigger] imported_aliases(c, program.body@, a) ==> rewrite_fits(program, a, is_root)
}

proof fn lemma_body_edits_prefix(cx: RewriteContext, body: Seq<Node>, k: int, len: int)
    requires
        0 <= k <= body.len(),
        edits_fit(Seq::empty(), body_edits(cx, body), len),
    ensures
        edits_fit(Seq::empty(), body_edits(cx, body.subrange(0, k)), len),
    decreases body.len() - k,
{
    if k < body.len() {
        lemma_body_edits_prefix(cx, body, k + 1, len);
        let pre = body.subrange(0, k + 1);
        assert(pre.drop_last() =~= body.subrange(0, k));
        lemma_fits_two(Seq::empty(), body_edits(cx, body.subrange(0, k)), node_edits(cx, body[k]), len);
    } else {
        assert(body.subrange(0, k) =~= body);
    }
}

proof fn lemma_body_exports_prefix(body: Seq<Node>, a: Seq<Alias>, k: int)
    requires
        0 <= k <= body.len(),
        body_exports(body.subrange(0, k), a) is None || body_re_exports(body.subrange(0, k)) is None,
    ensures
        body_exports(body, a) is None || body_re_exports(body) is None,
    decreases body.len() - k,
{
    if k < body.len() {
        assert(body.subrange(0, k + 1).drop_last() =~= body.subrange(0, k));
        lemma_body_exports_prefix(body, a, k + 1);
    } else {
        assert(body.subrange(0, k) =~= body);
    }
}

/// The analysis left everything it promises for the module in the registry:
/// its flags and bounds, every dependency its imports name, and its rewrite
/// and export records under the alias table its imports build.
pub open spec fn analyzed_fully(c: ModuleDataCollection, specifier: Seq<char>, program: Program, is_root: bool) -> bool {
    &&& analyzed(c, specifier, program, is_root)
    &&& imports_known(c, program.body@)
    &&& exists|a: Seq<Alias>| imported_aliases(c, program.body@, a) && #[trigger] rewritten(c, specifier, program, a, is_root)
}

pub proof fn lemma_imports_known_extend(c0: ModuleDataCollection, c1: ModuleDataCollection, body: Seq<Node>)
    requires
        c0.wf(),
        c1.wf(),
        keys_extend(c0.keys(), c1.keys()),
        imports_known(c0, body),
    ensures
        imports_known(c1, body),
{
    assert forall|i: int| 0 <= i < body.len() implies match (#[trigger] body[i]).kind {
        NodeKind::ImportDecl { resolved: Some(d), type_only, .. } => !type_only ==> c1.index_of(d@) is Some,
        _ => true,
    } by {
        match body[i].kind {
            NodeKind::ImportDecl { resolved: Some(d), type_only, .. } => {
                if !type_only {
                    lemma_module_id_stable(c0, c1, d@);
                }
            },
            _ => {},
        }
    }
}

/// A later analysis that leaves a module's entry as it was keeps all that
/// the module's analysis promised.
pub proof fn lemma_analyzed_fully_kept(
    c0: ModuleDataCollection,
    c1: ModuleDataCollection,
    s: Seq<char>,
    program: Program,
    is_root: bool,
)
    requires
        c0.wf(),
        c1.wf(),
        keys_extend(c0.keys(), c1.keys()),
        analyzed_fully(c0, s, program, is_root),
        c1.entries()[c0.index_of(s)->0] == c0.entries()[c0.index_of(s)->0],
    ensures
        analyzed_fully(c1, s, program, is_root),
{
    lemma_module_id_stable(c0, c1, s);
    lemma_imports_known_extend(c0, c1, program.body@);
    let a = choose|a: Seq<Alias>| imported_aliases(c0, program.body@, a) && #[trigger] rewritten(c0, s, program, a, is_root);
    assert forall|sym: Seq<char>, scope: u64| #[trigger] alias_lookup(a, sym, scope) == body_import_lookup(c1, program.body@, sym, scope) by {
        lemma_import_lookup_stable(c0, c1, program.body@, sym, scope);
    }
    assert(rewritten(c1, s, program, a, is_root));
}

/// Analyzes one module: binds its imports to the namespace objects of its
/// dependencies, records its exports (none for the root), and records the
/// text changes that erase its module syntax and type-only syntax.
pub fn analyze_esm_module(
    coll: &mut ModuleDataCollection,
    specifier: &String,
    program: &Program,
    is_root_module: bool,
) -> (r: Result<(), PackError>)
    requires
        old(coll).wf(),
    ensures
        final(coll).wf(),
        keys_extend(old(coll).keys(), final(coll).keys()),
        r is Ok ==> analyzed_fully(*final(coll), specifier@, *program, is_root_module),
        r is Err ==> !(r->Err_0 is RootCount) && !(r->Err_0 is UnsupportedModule) && !(r->Err_0 is Transpile),
        r is Err && r->Err_0 is Unresolved ==> body_unresolved(program.body@, is_root_module),
        analysis_ok(*program, is_root_module) ==> r is Ok,
        r is Ok ==> !body_unresolved(program.body@, is_root_module),
        r is Ok && plain_body(program.body@) ==> untouched(*final(coll), specifier@),
        forall|i: int|
            0 <= i < old(coll).entries().len() && old(coll).keys()[i] != specifier@
                ==> #[trigger] final(coll).entries()[i] == old(coll).entries()[i],
        r is Ok ==> exists|aliases: Seq<Alias>|
            imported_aliases(*final(coll), program.body@, aliases) && #[trigger] rewritten(
                *final(coll),
                specifier@,
                *program,
                aliases,
                is_root_module,
            ),
{
    let mut aliases: Vec<Alias> = Vec::new();
    let n = program.body.len();
    let mut i: usize = 0;
    while i < n
        invariant
            n == program.body@.len(),
            i <= n,
            coll.wf(),
            keys_extend(old(coll).keys(), coll.keys()),
            plain_body(program.body@) ==> aliases@.len() == 0,
            coll.entries().len() >= old(coll).entries().len(),
            forall|k: int|
                0 <= k < old(coll).entries().len() && old(coll).keys()[k] != specifier@ ==> #[trigger] coll.entries()[k]
                    == old(coll).entries()[k],
            imports_known(*coll, program.body@.subrange(0, i as int)),
            imported_aliases(*coll, program.body@.subrange(0, i as int), aliases@),
            forall|k: int| 0 <= k < i ==> !item_unresolved(#[trigger] program.body@[k].kind, true),
            !body_string_import(program.body@.subrange(0, i as int)),
        decreases n - i,
    {
        let ghost pre = program.body@.subrange(0, i as int + 1);
        let ghost coll0 = *coll;
        let ghost table0 = aliases@;
        proof {
            assert(pre.drop_last() =~= program.body@.subrange(0, i as int));
            assert(pre.last() == program.body@[i as int]);
        }
        if let NodeKind::ImportDecl { resolved, type_only, specifiers } = &program.body[i].kind {
            if !*type_only {
                let dep = match resolved {
                    Some(d) => d,
                    None => {
                        proof {
                            assert(item_unresolved(program.body@[i as int].kind, is_root_module));
                        }
                        return Err(PackError::Unresolved(specifier.clone()));
                    },
                };
                let dep_number = dependency_id(coll, dep);
                proof {
                    coll.lemma_index_of(dep@, dep_number.0 as int);
                    assert(dep_number == dep_id(*coll, dep@));
                }
                if add_import_aliases(&mut aliases, specifiers, dep_number).is_err() {
                    proof {
                        lemma_string_import_any_dep(specifiers@, dep_number, ModuleId(0));
                        assert(body_string_import(program.body@)) by {
                            let b = program.body@;
                            assert(match b[i as int].kind {
                                NodeKind::ImportDecl { resolved, type_only, specifiers } => !type_only && resolved is Some
                                    && has_string_import(specifiers@, ModuleId(0)),
                                _ => false,
                            });
                        }
                    }
                    return Err(PackError::UnsupportedSyntax(specifier.clone()));
                }
                proof {
                    lemma_string_import_any_dep(specifiers@, dep_number, ModuleId(0));
                }
                proof {
                    assert forall|sym: Seq<char>, scope: u64| #[trigger] alias_lookup(aliases@, sym, scope) == body_import_lookup(*coll, pre, sym, scope) by {
                        lemma_with_import_aliases_bind(table0, specifiers@, dep_number, sym, scope);
                        lemma_import_lookup_stable(coll0, *coll, program.body@.subrange(0, i as int), sym, scope);
                        assert(alias_lookup(table0, sym, scope) == body_import_lookup(coll0, program.body@.subrange(0, i as int), sym, scope));
                    }
                    assert forall|k: int| 0 <= k < pre.len() implies match (#[trigger] pre[k]).kind {
                        NodeKind::ImportDecl { resolved: Some(d), type_only, .. } => !type_only ==> coll.index_of(d@) is Some,
                        _ => true,
                    } by {
                        if k < i {
                            assert(pre[k] == program.body@.subrange(0, i as int)[k]);
                            match pre[k].kind {
                                NodeKind::ImportDecl { resolved: Some(d), type_only, .. } => {
                                    if !type_only {
                                        lemma_module_id_stable(coll0, *coll, d@);
                                    }
                                },
                                _ => {},
                            }
                        }
                    }
                }
            } else {
                proof {
                    assert forall|sym: Seq<char>, scope: u64| #[trigger] alias_lookup(aliases@, sym, scope) == body_import_lookup(*coll, pre, sym, scope) by {}
                    assert forall|k: int| 0 <= k < pre.len() implies match (#[trigger] pre[k]).kind {
                        NodeKind::ImportDecl { resolved: Some(d), type_only, .. } => !type_only ==> coll.index_of(d@) is Some,
                        _ => true,
                    } by {
                        if k < i {
                            assert(pre[k] == program.body@.subrange(0, i as int)[k]);
                        }
                    }
                }
            }
        } else {
            proof {
                assert forall|sym: Seq<char>, scope: u64| #[trigger] alias_lookup(aliases@, sym, scope) == body_import_lookup(*coll, pre, sym, scope) by {}
                assert forall|k: int| 0 <= k < pre.len() implies match (#[trigger] pre[k]).kind {
                    NodeKind::ImportDecl { resolved: Some(d), type_only, .. } => !type_only ==> coll.index_of(d@) is Some,
                    _ => true,
                } by {
                    if k < i {
                        assert(pre[k] == program.body@.subrange(0, i as int)[k]);
                    }
                }
            }
        }
        i = i + 1;
    }
    proof {
        assert(program.body@.subrange(0, n as int) =~= program.body@);
    }
    // the module's own number comes after those of its imports
    let ghost coll_deps = *coll;
    let id = coll.get_mut(specifier);
    proof {
        lemma_key_at_index(*coll, specifier@);
        lemma_imports_known_extend(coll_deps, *coll, program.body@);
        assert forall|k: int| 0 <= k < coll_deps.entries().len() implies #[trigger] coll.entries()[k] == coll_deps.entries()[k] by {
            if coll_deps.index_of(specifier@) is None {
                assert(coll.entries().drop_last()[k] == coll_deps.entries()[k]);
            }
        }
        assert forall|sym: Seq<char>, scope: u64| #[trigger] alias_lookup(aliases@, sym, scope) == body_import_lookup(*coll, program.body@, sym, scope) by {
            lemma_import_lookup_stable(coll_deps, *coll, program.body@, sym, scope);
        }
    }
    let ghost coll_imports = *coll;
    proof {
        assert(imported_aliases(coll_imports, program.body@, aliases@));
        assert(forall|k: int| 0 <= k < n ==> !item_unresolved(#[trigger] program.body@[k].kind, true));
    }
    let has_tla = find_top_level_await(&program.body);
    let mut data = ModuleData::new(id);
    data.has_tla = has_tla;
    proof {
        assert(exports_view(data.exports@) =~= Seq::<ExportView>::empty());
        assert(re_exports_view(data.re_exports@) =~= Seq::<(ReExportView, Seq<char>)>::empty());
        assert(program.body@.subrange(0, 0) =~= Seq::<Node>::empty());
    }
    if !is_root_module {
        let mut i: usize = 0;
        while i < n
            invariant
                n == program.body@.len(),
                i <= n,
                coll.wf(),
                keys_extend(old(coll).keys(), coll.keys()),
                id.0 < coll.keys().len(),
                coll.keys()[id.0 as int] == specifier@,
                data.wf(),
                re_exports_resolved(coll.keys(), data),
                data.id == id,
                data.has_tla == has_tla,
                !data.requires_transpile,
                data.text_changes@.len() == 0,
                plain_body(program.body@) ==> data.exports@.len() == 0 && data.re_exports@.len() == 0,
                keys_extend(coll_imports.keys(), coll.keys()),
                !is_root_module,
                imported_aliases(coll_imports, program.body@, aliases@),
                forall|k: int| 0 <= k < n ==> !item_unresolved(#[trigger] program.body@[k].kind, true),
                forall|k: int| 0 <= k < i ==> !item_unresolved(#[trigger] program.body@[k].kind, false),
                body_exports(program.body@.subrange(0, i as int), aliases@) == Some(exports_view(data.exports@)),
                body_re_exports(program.body@.subrange(0, i as int)) == Some(re_exports_view(data.re_exports@)),
                coll.entries().len() >= old(coll).entries().len(),
                forall|k: int|
                    0 <= k < old(coll).entries().len() && old(coll).keys()[k] != specifier@ ==> #[trigger] coll.entries()[k]
                        == old(coll).entries()[k],
            decreases n - i,
        {
            let ghost pre = program.body@.subrange(0, i as int + 1);
            proof {
                assert(pre.drop_last() =~= program.body@.subrange(0, i as int));
                assert(pre.last() == program.body@[i as int]);
            }
            match record_item_exports(coll, &mut data, &program.body[i], &aliases) {
                Ok(()) => {
                    proof {
                        assert(!item_unresolved(program.body@[i as int].kind, true));
                        assert(!item_unresolved(program.body@[i as int].kind, false));
                    }
                },
                Err(ItemError::Unresolved) => {
                    proof {
                        assert(item_unresolved(program.body@[i as int].kind, is_root_module));
                    }
                    return Err(PackError::Unresolved(specifier.clone()));
                },
                Err(ItemError::Unsupported) => {
                    proof {
                        lemma_body_exports_prefix(program.body@, aliases@, i as int + 1);
                        assert(!rewrite_fits(*program, aliases@, is_root_module));
                    }
                    return Err(PackError::UnsupportedSyntax(specifier.clone()));
                },
            }
            i = i + 1;
        }
        proof {
            assert(program.body@.subrange(0, n as int) =~= program.body@);
        }
    }
    let source = program.source.as_str();
    let source_len = source.unicode_len();
    let mut collector = TextChangeCollector {
        module_data: data,
        replace_ids: &aliases,
        source,
        source_len,
        tokens: &program.tokens,
        is_root_module,
    };
    let ghost c0 = collector;
    let mut i: usize = 0;
    while i < n
        invariant
            n == program.body@.len(),
            i <= n,
            collector.extends(&c0),
            c0.wf(),
            coll.wf(),
            keys_extend(old(coll).keys(), coll.keys()),
            id.0 < coll.keys().len(),
            coll.keys()[id.0 as int] == specifier@,
            c0.module_data.id == id,
            c0.module_data.has_tla == module_has_tla(program.body@),
            c0.source@ == program.source@,
            re_exports_resolved(coll.keys(), c0.module_data),
            is_root_module ==> c0.module_data.exports@.len() == 0 && c0.module_data.re_exports@.len() == 0,
            plain_body(program.body@) ==> collector.module_data.text_changes@.len() == 0
                && !collector.module_data.requires_transpile && c0.module_data.exports@.len() == 0
                && c0.module_data.re_exports@.len() == 0 && collector.replace_ids@.len() == 0,
            collector.replace_ids == &aliases,
            keys_extend(coll_imports.keys(), coll.keys()),
            imported_aliases(coll_imports, program.body@, aliases@),
            !body_unresolved(program.body@, is_root_module),
            c0.edits() == Seq::<ChangeView>::empty(),
            !is_root_module ==> body_exports(program.body@, aliases@) == Some(exports_view(c0.module_data.exports@))
                && body_re_exports(program.body@) == Some(re_exports_view(c0.module_data.re_exports@)),
            !c0.module_data.requires_transpile,
            c0.cx() == (RewriteContext { aliases: aliases@, source: program.source@, tokens: program.tokens@, is_root: is_root_module }),
            body_edits(c0.cx(), program.body@.subrange(0, i as int)) == Some(collector.edits()),
            collector.module_data.requires_transpile == body_transpiles(c0.cx(), program.body@.subrange(0, i as int)),
            coll.entries().len() >= old(coll).entries().len(),
            forall|k: int|
                0 <= k < old(coll).entries().len() && old(coll).keys()[k] != specifier@ ==> #[trigger] coll.entries()[k]
                    == old(coll).entries()[k],
        decreases n - i,
    {
        proof {
            if plain_body(program.body@) {
                assert(is_plain(program.body@[i as int], Seq::empty()));
                assert(collector.replace_ids@ =~= Seq::<Alias>::empty());
            }
        }
        let ghost pre = program.body@.subrange(0, i as int + 1);
        let ghost edits0 = collector.edits();
        proof {
            assert(pre.drop_last() =~= program.body@.subrange(0, i as int));
            assert(pre.last() == program.body@[i as int]);
            assert(collector.cx() == c0.cx());
        }
        proof {
            let cx = c0.cx();
            let len = program.source@.len() as int;
            if rewrite_fits(*program, aliases@, is_root_module) {
                lemma_body_edits_prefix(cx, program.body@, i as int + 1, len);
                lemma_fits_two(Seq::empty(), body_edits(cx, program.body@.subrange(0, i as int)), node_edits(cx, program.body@[i as int]), len);
                assert(Seq::<ChangeView>::empty() + collector.edits() =~= collector.edits());
            }
        }
        match collector.visit(&program.body[i]) {
            Ok(()) => {},
            Err(e) => {
                return Err(syntax_error(specifier, e));
            },
        }
        proof {
            assert(body_edits(c0.cx(), pre) == Some(collector.edits()));
        }
        i = i + 1;
    }
    proof {
        assert(program.body@.subrange(0, n as int) =~= program.body@);
    }
    let data = collector.module_data;
    proof {
        assert(re_exports_resolved(coll.keys(), data));
    }
    let ghost final_data = data;
    coll.set(data);
    proof {
        coll.lemma_index_of(specifier@, id.0 as int);
        assert forall|sym: Seq<char>, scope: u64| #[trigger] alias_lookup(aliases@, sym, scope) == body_import_lookup(*coll, program.body@, sym, scope) by {
            lemma_import_lookup_stable(coll_imports, *coll, program.body@, sym, scope);
        }
        assert(coll.entries()[id.0 as int] == final_data);
        assert(rewritten(*coll, specifier@, *program, aliases@, is_root_module));
        lemma_imports_known_extend(coll_imports, *coll, program.body@);
    }
    Ok(())
}

/// The changes recorded for an analyzed module lie within its text and do
/// not overlap, so applying them never fails.
pub proof fn lemma_analyzed_changes_apply(
    coll: ModuleDataCollection,
    specifier: Seq<char>,
    program: Program,
    is_root_module: bool,
)
    requires
        coll.wf(),
        analyzed(coll, specifier, program, is_root_module),
    ensures
        apply_outcome(program.source@, coll.entries()[coll.index_of(specifier)->0].text_changes@) is Ok,
{
    let i = coll.index_of(specifier)->0;
    assert(coll.entries()[i].wf());
    lemma_disjoint_changes_apply(program.source@, coll.entries()[i].text_changes@);
}

} // verus!
