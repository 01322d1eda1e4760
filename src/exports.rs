use vstd::prelude::*;
use vstd::string::*;

use crate::aliases::{alias_lookup, lookup_alias, Alias};
use crate::registry::{ExportName, ModuleId, ReExport, ReExportName};
use crate::syntax::{DefaultDecl, ExportSpecifier, ExportedDecl, Ident, ModuleExportName, NodeKind, ObjectPatProp, PropKey, VarPattern};

verus! {

/// An export record as plain text: the local name, and the exported name
/// where it differs.
pub struct ExportView {
    pub local: Seq<char>,
    pub exported: Option<Seq<char>>,
}

pub open spec fn opt_view(s: Option<String>) -> Option<Seq<char>> {
    match s {
        Some(t) => Some(t@),
        None => None,
    }
}

pub open spec fn export_view(e: ExportName) -> ExportView {
    ExportView { local: e.local_name@, exported: opt_view(e.export_name) }
}

pub open spec fn exports_view(es: Seq<ExportName>) -> Seq<ExportView> {
    es.map_values(|e: ExportName| export_view(e))
}

/// A re-export record as plain text.
pub enum ReExportView {
    Named(ExportView),
    Namespace(Seq<char>),
    All,
}

pub open spec fn re_export_view(r: ReExport) -> (ReExportView, Seq<char>) {
    (
        match r.name {
            ReExportName::Named(e) => ReExportView::Named(export_view(e)),
            ReExportName::Namespace(s) => ReExportView::Namespace(s@),
            ReExportName::All => ReExportView::All,
        },
        r.specifier@,
    )
}

pub open spec fn re_exports_view(rs: Seq<ReExport>) -> Seq<(ReExportView, Seq<char>)> {
    rs.map_values(|r: ReExport| re_export_view(r))
}

/// The text of an identifier name; `None` for a string name.
pub open spec fn ident_name(n: ModuleExportName) -> Option<Seq<char>> {
    match n {
        ModuleExportName::Ident(i) => Some(i.sym@),
        ModuleExportName::Str(_) => None,
    }
}

/// The name bound by the local default binding.
pub open spec fn pack_default() -> Seq<char> {
    "__pack_default__"@
}

/// The names an object pattern property binds; `None` where unsupported.
pub open spec fn prop_names(p: ObjectPatProp) -> Option<Seq<Seq<char>>> {
    match p {
        ObjectPatProp::KeyValue(PropKey::Ident(s)) => Some(seq![s@]),
        ObjectPatProp::KeyValue(PropKey::Str(_)) => None,
        ObjectPatProp::KeyValue(PropKey::Other) => Some(Seq::empty()),
        ObjectPatProp::Assign(s) => Some(seq![s@]),
        ObjectPatProp::Rest(Some(s)) => Some(seq![s@]),
        ObjectPatProp::Rest(None) => None,
    }
}

pub open spec fn props_names(ps: Seq<ObjectPatProp>) -> Option<Seq<Seq<char>>>
    decreases ps.len(),
{
    if ps.len() == 0 {
        Some(Seq::empty())
    } else {
        match (props_names(ps.drop_last()), prop_names(ps.last())) {
            (Some(a), Some(b)) => Some(a + b),
            _ => None,
        }
    }
}

pub open spec fn pattern_names(p: VarPattern) -> Option<Seq<Seq<char>>> {
    match p {
        VarPattern::Ident(s) => Some(seq![s@]),
        VarPattern::Object(ps) => props_names(ps@),
        VarPattern::Other => None,
    }
}

pub open spec fn patterns_names(ps: Seq<VarPattern>) -> Option<Seq<Seq<char>>>
    decreases ps.len(),
{
    if ps.len() == 0 {
        Some(Seq::empty())
    } else {
        match (patterns_names(ps.drop_last()), pattern_names(ps.last())) {
            (Some(a), Some(b)) => Some(a + b),
            _ => None,
        }
    }
}

/// The names `export <declaration>` exports; `None` where unsupported.
/// Ambient (`declare`) and body-less declarations export nothing.
pub open spec fn decl_export_names(d: ExportedDecl) -> Option<Seq<Seq<char>>> {
    match d {
        ExportedDecl::Class { name, declare } => Some(if declare { Seq::empty() } else { seq![name@] }),
        ExportedDecl::Fn { name, declare, has_body } => Some(
            if declare || !has_body {
                Seq::empty()
            } else {
                seq![name@]
            },
        ),
        ExportedDecl::Var { declare, patterns } => if declare {
            Some(Seq::empty())
        } else {
            patterns_names(patterns@)
        },
        ExportedDecl::TsEnum { name, declare } => Some(if declare { Seq::empty() } else { seq![name@] }),
        ExportedDecl::TsModule { name, declare } => Some(
            match name {
                Some(n) if !declare => seq![n@],
                _ => Seq::empty(),
            },
        ),
        ExportedDecl::TypeOnly => Some(Seq::empty()),
    }
}

/// Exports each name under itself.
pub open spec fn plain_exports(names: Seq<Seq<char>>) -> Seq<ExportView> {
    names.map_values(|n: Seq<char>| ExportView { local: n, exported: None })
}

/// The local name an identifier exports: its import alias where it has one.
pub open spec fn local_name_of(i: Ident, aliases: Seq<Alias>) -> Seq<char> {
    match alias_lookup(aliases, i.sym@, i.scope) {
        Some(t) => t,
        None => i.sym@,
    }
}

/// What `export default <declaration>` records; `None` for an interface.
pub open spec fn default_decl_export(d: DefaultDecl, aliases: Seq<Alias>) -> Option<ExportView> {
    match d {
        DefaultDecl::Class(Some(i)) | DefaultDecl::Fn(Some(i)) => Some(
            ExportView { local: local_name_of(i, aliases), exported: Some("default"@) },
        ),
        DefaultDecl::Class(None) | DefaultDecl::Fn(None) => Some(
            ExportView { local: pack_default(), exported: Some("default"@) },
        ),
        DefaultDecl::Interface => None,
    }
}

/// What one item of `export { .. }` without a source records; `None` where
/// unsupported. An imported name is exported through its alias, under its
/// own spelling unless renamed.
pub open spec fn local_export(s: ExportSpecifier, aliases: Seq<Alias>) -> Option<ExportView> {
    match s {
        ExportSpecifier::Named { orig: ModuleExportName::Ident(i), exported, .. } => {
            let local = local_name_of(i, aliases);
            let as_export = if local != i.sym@ {
                Some(i.sym@)
            } else {
                None
            };
            match exported {
                None => Some(ExportView { local, exported: as_export }),
                Some(ModuleExportName::Ident(e)) => Some(ExportView { local, exported: Some(e.sym@) }),
                Some(ModuleExportName::Str(_)) => None,
            }
        },
        _ => None,
    }
}

pub open spec fn local_exports(ss: Seq<ExportSpecifier>, aliases: Seq<Alias>) -> Option<Seq<ExportView>>
    decreases ss.len(),
{
    if ss.len() == 0 {
        Some(Seq::empty())
    } else {
        match (local_exports(ss.drop_last(), aliases), local_export(ss.last(), aliases)) {
            (Some(a), Some(b)) => Some(a.push(b)),
            _ => None,
        }
    }
}

/// What one item of `export { .. } from "dep"` records: `Ok(None)` for a
/// type-only item, `Err` where unsupported.
pub open spec fn source_re_export(s: ExportSpecifier) -> Result<Option<ReExportView>, ()> {
    match s {
        ExportSpecifier::Named { orig, exported, type_only } => if type_only {
            Ok(None)
        } else {
            match (ident_name(orig), exported) {
                (Some(o), None) => Ok(Some(ReExportView::Named(ExportView { local: o, exported: None }))),
                (Some(o), Some(ModuleExportName::Ident(e))) => Ok(
                    Some(ReExportView::Named(ExportView { local: o, exported: Some(e.sym@) })),
                ),
                _ => Err(()),
            }
        },
        ExportSpecifier::Namespace { name } => match ident_name(name) {
            Some(n) => Ok(Some(ReExportView::Namespace(n))),
            None => Err(()),
        },
        ExportSpecifier::Default => Err(()),
    }
}

pub open spec fn source_re_exports(ss: Seq<ExportSpecifier>, dep: Seq<char>) -> Option<Seq<(ReExportView, Seq<char>)>>
    decreases ss.len(),
{
    if ss.len() == 0 {
        Some(Seq::empty())
    } else {
        match (source_re_exports(ss.drop_last(), dep), source_re_export(ss.last())) {
            (Some(a), Ok(Some(b))) => Some(a.push((b, dep))),
            (Some(a), Ok(None)) => Some(a),
            _ => None,
        }
    }
}

fn push_names_of_prop(names: &mut Vec<String>, p: &ObjectPatProp) -> (r: Result<(), ()>)
    ensures
        match prop_names(*p) {
            Some(b) => r is Ok && final(names).deep_view() == old(names).deep_view() + b,
            None => r is Err,
        },
{
    match p {
        ObjectPatProp::KeyValue(PropKey::Ident(s)) | ObjectPatProp::Assign(s) | ObjectPatProp::Rest(Some(s)) => {
            names.push(s.clone());
            proof {
                assert(names.deep_view() =~= old(names).deep_view() + seq![s@]);
            }
            Ok(())
        },
        ObjectPatProp::KeyValue(PropKey::Other) => {
            assert(names.deep_view() =~= old(names).deep_view() + Seq::<Seq<char>>::empty());
            Ok(())
        },
        _ => Err(()),
    }
}

fn push_names_of_pattern(names: &mut Vec<String>, p: &VarPattern) -> (r: Result<(), ()>)
    ensures
        match pattern_names(*p) {
            Some(b) => r is Ok && final(names).deep_view() == old(names).deep_view() + b,
            None => r is Err,
        },
{
    match p {
        VarPattern::Ident(s) => {
            names.push(s.clone());
            proof {
                assert(names.deep_view() =~= old(names).deep_view() + seq![s@]);
            }
            Ok(())
        },
        VarPattern::Object(props) => {
            let n = props.len();
            let mut i: usize = 0;
            assert(props@.subrange(0, 0) =~= Seq::<ObjectPatProp>::empty());
            assert(names.deep_view() =~= old(names).deep_view() + Seq::<Seq<char>>::empty());
            while i < n
                invariant
                    n == props@.len(),
                    pattern_names(*p) == props_names(props@),
                    i <= n,
                    props_names(props@.subrange(0, i as int)) is Some,
                    names.deep_view() == old(names).deep_view() + props_names(props@.subrange(0, i as int))->0,
                decreases n - i,
            {
                let ghost before = names.deep_view();
                let r = push_names_of_prop(names, &props[i]);
                proof {
                    let pre = props@.subrange(0, i as int + 1);
                    assert(pre.drop_last() =~= props@.subrange(0, i as int));
                    assert(pre.last() == props@[i as int]);
                }
                if r.is_err() {
                    proof {
                        let pre = props@.subrange(0, i as int + 1);
                        lemma_props_names_prefix(props@, i as int + 1);
                    }
                    return Err(());
                }
                proof {
                    let a = props_names(props@.subrange(0, i as int))->0;
                    let b = prop_names(props@[i as int])->0;
                    assert(names.deep_view() =~= old(names).deep_view() + (a + b));
                }
                i = i + 1;
            }
            assert(props@.subrange(0, n as int) =~= props@);
            Ok(())
        },
        VarPattern::Other => Err(()),
    }
}

proof fn lemma_props_names_prefix(ps: Seq<ObjectPatProp>, k: int)
    requires
        0 <= k <= ps.len(),
        props_names(ps.subrange(0, k)) is None,
    ensures
        props_names(ps) is None,
    decreases ps.len() - k,
{
    if k < ps.len() {
        let pre = ps.subrange(0, k + 1);
        assert(pre.drop_last() =~= ps.subrange(0, k));
        lemma_props_names_prefix(ps, k + 1);
    } else {
        assert(ps.subrange(0, k) =~= ps);
    }
}

proof fn lemma_patterns_names_prefix(ps: Seq<VarPattern>, k: int)
    requires
        0 <= k <= ps.len(),
        patterns_names(ps.subrange(0, k)) is None,
    ensures
        patterns_names(ps) is None,
    decreases ps.len() - k,
{
    if k < ps.len() {
        let pre = ps.subrange(0, k + 1);
        assert(pre.drop_last() =~= ps.subrange(0, k));
        lemma_patterns_names_prefix(ps, k + 1);
    } else {
        assert(ps.subrange(0, k) =~= ps);
    }
}

/// The names an exported declaration binds, in order.
pub fn decl_names(d: &ExportedDecl) -> (r: Result<Vec<String>, ()>)
    ensures
        match decl_export_names(*d) {
            Some(b) => r is Ok && r->Ok_0.deep_view() == b,
            None => r is Err,
        },
{
    let mut names: Vec<String> = Vec::new();
    match d {
        ExportedDecl::Class { name, declare } | ExportedDecl::TsEnum { name, declare } => {
            if !*declare {
                names.push(name.clone());
            }
        },
        ExportedDecl::Fn { name, declare, has_body } => {
            if !*declare && *has_body {
                names.push(name.clone());
            }
        },
        ExportedDecl::TsModule { name, declare } => {
            if !*declare {
                if let Some(n) = name {
                    names.push(n.clone());
                }
            }
        },
        ExportedDecl::Var { declare, patterns } => {
            if !*declare {
                let n = patterns.len();
                let mut i: usize = 0;
                assert(patterns@.subrange(0, 0) =~= Seq::<VarPattern>::empty());
                assert(names.deep_view() =~= Seq::<Seq<char>>::empty());
                while i < n
                    invariant
                        n == patterns@.len(),
                        decl_export_names(*d) == patterns_names(patterns@),
                        i <= n,
                        patterns_names(patterns@.subrange(0, i as int)) is Some,
                        names.deep_view() == patterns_names(patterns@.subrange(0, i as int))->0,
                    decreases n - i,
                {
                    let r = push_names_of_pattern(&mut names, &patterns[i]);
                    proof {
                        let pre = patterns@.subrange(0, i as int + 1);
                        assert(pre.drop_last() =~= patterns@.subrange(0, i as int));
                        assert(pre.last() == patterns@[i as int]);
                    }
                    if r.is_err() {
                        proof {
                            lemma_patterns_names_prefix(patterns@, i as int + 1);
                        }
                        return Err(());
                    }
                    i = i + 1;
                }
                assert(patterns@.subrange(0, n as int) =~= patterns@);
            }
        },
        ExportedDecl::TypeOnly => {},
    }
    proof {
        match *d {
            ExportedDecl::Var { .. } => {},
            _ => {
                if names@.len() == 1 {
                    assert(names.deep_view() =~= seq![names@[0]@]);
                } else {
                    assert(names.deep_view() =~= Seq::<Seq<char>>::empty());
                }
            },
        }
    }
    Ok(names)
}

/// The local name an identifier exports: its import alias where it has one.
fn local_name(i: &Ident, aliases: &Vec<Alias>) -> (r: String)
    ensures
        r@ == local_name_of(*i, aliases@),
{
    match lookup_alias(aliases, i) {
        Some(t) => t.clone(),
        None => i.sym.clone(),
    }
}

/// What `export default <declaration>` records; nothing for an interface.
pub fn default_decl_export_name(d: &DefaultDecl, aliases: &Vec<Alias>) -> (r: Option<ExportName>)
    ensures
        match default_decl_export(*d, aliases@) {
            Some(v) => r is Some && export_view(r->0) == v,
            None => r is None,
        },
{
    let local = match d {
        DefaultDecl::Class(Some(i)) | DefaultDecl::Fn(Some(i)) => local_name(i, aliases),
        DefaultDecl::Class(None) | DefaultDecl::Fn(None) => String::from_str("__pack_default__"),
        DefaultDecl::Interface => {
            return None;
        },
    };
    Some(ExportName { local_name: local, export_name: Some(String::from_str("default")) })
}

/// What one item of `export { .. }` without a source records.
pub fn local_export_name(s: &ExportSpecifier, aliases: &Vec<Alias>) -> (r: Option<ExportName>)
    ensures
        match local_export(*s, aliases@) {
            Some(v) => r is Some && export_view(r->0) == v,
            None => r is None,
        },
{
    match s {
        ExportSpecifier::Named { orig: ModuleExportName::Ident(i), exported, .. } => {
            let local = local_name(i, aliases);
            let as_export = if local != i.sym {
                Some(i.sym.clone())
            } else {
                None
            };
            match exported {
                None => Some(ExportName { local_name: local, export_name: as_export }),
                Some(ModuleExportName::Ident(e)) => Some(
                    ExportName { local_name: local, export_name: Some(e.sym.clone()) },
                ),
                Some(ModuleExportName::Str(_)) => None,
            }
        },
        _ => None,
    }
}

/// What one item of `export { .. } from "dep"` records.
pub fn source_re_export_item(s: &ExportSpecifier, dep: &String, dep_id: ModuleId) -> (r: Result<Option<ReExport>, ()>)
    ensures
        match (source_re_export(*s), r) {
            (Ok(Some(v)), Ok(Some(x))) => re_export_view(x) == (v, dep@) && x.module_id == dep_id,
            (Ok(None), Ok(None)) => true,
            (Err(_), Err(_)) => true,
            _ => false,
        },
{
    match s {
        ExportSpecifier::Named { orig, exported, type_only } => {
            if *type_only {
                return Ok(None);
            }
            let o = match orig {
                ModuleExportName::Ident(i) => i.sym.clone(),
                ModuleExportName::Str(_) => {
                    return Err(());
                },
            };
            let e = match exported {
                None => None,
                Some(ModuleExportName::Ident(e)) => Some(e.sym.clone()),
                Some(ModuleExportName::Str(_)) => {
                    return Err(());
                },
            };
            Ok(
                Some(
                    ReExport {
                        name: ReExportName::Named(ExportName { local_name: o, export_name: e }),
                        specifier: dep.clone(),
                        module_id: dep_id,
                    },
                ),
            )
        },
        ExportSpecifier::Namespace { name } => match name {
            ModuleExportName::Ident(i) => Ok(
                Some(
                    ReExport {
                        name: ReExportName::Namespace(i.sym.clone()),
                        specifier: dep.clone(),
                        module_id: dep_id,
                    },
                ),
            ),
            ModuleExportName::Str(_) => Err(()),
        },
        ExportSpecifier::Default => Err(()),
    }
}

/// What a top-level item of a module that is not the root exports; `None`
/// where unsupported.
pub open spec fn item_exports(k: NodeKind, aliases: Seq<Alias>) -> Option<Seq<ExportView>> {
    match k {
        NodeKind::ExportDefaultDecl { decl } => Some(
            match default_decl_export(decl, aliases) {
                Some(v) => seq![v],
                None => Seq::empty(),
            },
        ),
        NodeKind::ExportDefaultExpr => Some(seq![ExportView { local: pack_default(), exported: Some("default"@) }]),
        NodeKind::ExportDecl { decl } => match decl_export_names(decl) {
            Some(ns) => Some(plain_exports(ns)),
            None => None,
        },
        NodeKind::NamedExport { has_src, type_only, specifiers, .. } => if type_only || has_src {
            Some(Seq::empty())
        } else {
            local_exports(specifiers@, aliases)
        },
        _ => Some(Seq::empty()),
    }
}

/// What a top-level item of a module that is not the root re-exports, each
/// with the specifier of its source; `None` where unresolved or unsupported.
pub open spec fn item_re_exports(k: NodeKind) -> Option<Seq<(ReExportView, Seq<char>)>> {
    match k {
        NodeKind::NamedExport { has_src, resolved, type_only, specifiers } => if type_only || !has_src {
            Some(Seq::empty())
        } else {
            match resolved {
                Some(d) => source_re_exports(specifiers@, d@),
                None => None,
            }
        },
        NodeKind::ExportAll { resolved, type_only } => if type_only {
            Some(Seq::empty())
        } else {
            match resolved {
                Some(d) => Some(seq![(ReExportView::All, d@)]),
                None => None,
            }
        },
        _ => Some(Seq::empty()),
    }
}

pub proof fn lemma_local_exports_prefix(ss: Seq<ExportSpecifier>, aliases: Seq<Alias>, k: int)
    requires
        0 <= k <= ss.len(),
        local_exports(ss.subrange(0, k), aliases) is None,
    ensures
        local_exports(ss, aliases) is None,
    decreases ss.len() - k,
{
    if k < ss.len() {
        assert(ss.subrange(0, k + 1).drop_last() =~= ss.subrange(0, k));
        lemma_local_exports_prefix(ss, aliases, k + 1);
    } else {
        assert(ss.subrange(0, k) =~= ss);
    }
}

pub proof fn lemma_source_re_exports_prefix(ss: Seq<ExportSpecifier>, dep: Seq<char>, k: int)
    requires
        0 <= k <= ss.len(),
        source_re_exports(ss.subrange(0, k), dep) is None,
    ensures
        source_re_exports(ss, dep) is None,
    decreases ss.len() - k,
{
    if k < ss.len() {
        assert(ss.subrange(0, k + 1).drop_last() =~= ss.subrange(0, k));
        lemma_source_re_exports_prefix(ss, dep, k + 1);
    } else {
        assert(ss.subrange(0, k) =~= ss);
    }
}

} // verus!
