use vstd::prelude::*;
use vstd::string::*;

use crate::rewrite::RewriteContext;
use crate::aliases::Alias;
use crate::analyze::{imported_aliases, rewritten, analysis_ok, analyze_esm_module, analyzed, analyzed_fully, body_transpiles, body_unresolved, lemma_analyzed_fully_kept, keys_extend, lemma_analyzed_changes_apply, untouched, PackError};
use crate::emit::{
    display_specifier, displayed_specifier, export_lines, get_root_dir, is_file, is_file_specifier, json_block,
    json_block_text, module_block, module_block_text, namespace_decl, namespace_decl_text, opt_text, re_export_lines,
    remote_import, remote_import_text, root_dir_of,
};
use crate::registry::{
    lemma_module_id_stable, lemma_sorted_export_names, sorted_export_names, ModuleData, ModuleDataCollection, ReExport,
    ReExportName,
};
use crate::syntax::Program;
use crate::text::{trim, trimmed};
use crate::text_change::{apply_outcome, apply_text_changes, sorted_changes, ChangeConflict, TextChange};

verus! {

/// How packing treats modules outside the file system.
pub struct PackOptions {
    /// If the packing should include remote modules or leave them as external.
    pub include_remote: bool,
}

/// A module of the graph, as the graph's loader gave it.
pub enum ModuleSource {
    /// A script module and its syntax.
    Esm(Program),
    /// A JSON module and its text.
    Json(String),
    /// An npm, node or external module, which the packer cannot include.
    Unsupported,
}

pub struct GraphModule {
    pub specifier: String,
    pub source: ModuleSource,
}

/// A resolved module graph: its roots, and its modules in the order a walk
/// from the roots first meets them.
pub struct ModuleGraph {
    pub roots: Vec<String>,
    pub modules: Vec<GraphModule>,
}

fn copy_changes(v: &Vec<TextChange>) -> (r: Vec<TextChange>)
    ensures
        r@ == v@,
{
    let mut out: Vec<TextChange> = Vec::new();
    let n = v.len();
    let mut i: usize = 0;
    while i < n
        invariant
            n == v@.len(),
            i <= n,
            out@ == v@.subrange(0, i as int),
        decreases n - i,
    {
        out.push(v[i].duplicate());
        proof {
            assert(out@ =~= v@.subrange(0, i as int + 1));
        }
        i = i + 1;
    }
    assert(v@.subrange(0, n as int) =~= v@);
    out
}

/// The module is analyzed and inlined rather than kept external.
pub open spec fn is_inlined(specifier: Seq<char>, include_remote: bool) -> bool {
    include_remote || is_file_specifier(specifier)
}

/// Some module of the graph cannot be packed.
pub open spec fn has_unsupported_module(ms: Seq<GraphModule>) -> bool {
    exists|i: int| 0 <= i < ms.len() && (#[trigger] ms[i]).source is Unsupported
}

/// Some inlined script module imports or re-exports a dependency that the
/// graph did not resolve.
pub open spec fn has_unresolved_import(ms: Seq<GraphModule>, root: Seq<char>, include_remote: bool) -> bool {
    exists|i: int|
        0 <= i < ms.len() && (#[trigger] ms[i]).source is Esm && is_inlined(ms[i].specifier@, include_remote)
            && body_unresolved(ms[i].source->Esm_0.body@, ms[i].specifier@ == root)
}

/// No two modules of the walk share a specifier: a walk meets each module once.
pub open spec fn distinct_modules(ms: Seq<GraphModule>) -> bool {
    forall|i: int, j: int|
        0 <= i < ms.len() && 0 <= j < ms.len() && i != j ==> #[trigger] ms[i].specifier@ != #[trigger] ms[j].specifier@
}

/// The registry a packing run builds: every module numbered, every inlined
/// script module analyzed.
pub open spec fn graph_registry(c: ModuleDataCollection, ms: Seq<GraphModule>, root: Seq<char>, include_remote: bool) -> bool {
    &&& c.wf()
    &&& forall|i: int| 0 <= i < ms.len() ==> (#[trigger] c.index_of(ms[i].specifier@)) is Some
    &&& forall|i: int|
        0 <= i < ms.len() && (#[trigger] ms[i]).source is Esm && is_inlined(ms[i].specifier@, include_remote)
            ==> analyzed_fully(c, ms[i].specifier@, ms[i].source->Esm_0, ms[i].specifier@ == root)
}

/// The data the registry holds for a module.
pub open spec fn entry_of(c: ModuleDataCollection, s: Seq<char>) -> ModuleData {
    c.entries()[c.index_of(s)->0]
}

/// What shapes the output besides the registry: the root, whether remote
/// modules are inlined, and the folder specifiers are shown relative to.
pub struct Layout {
    pub root: Seq<char>,
    pub include_remote: bool,
    pub root_dir: Option<Seq<char>>,
}

/// What the declaration section holds for one module; `nonempty` tells
/// whether text comes before it.
pub open spec fn decl_piece(c: ModuleDataCollection, m: GraphModule, l: Layout, nonempty: bool) -> Seq<char> {
    let s = m.specifier@;
    let code = entry_of(c, s).id.code_name();
    if !is_inlined(s, l.include_remote) {
        remote_import_text(code, s)
    } else {
        match m.source {
            ModuleSource::Esm(_) => {
                let names = sorted_export_names(c, s);
                if names.len() > 0 && s != l.root {
                    namespace_decl_text(code, names)
                } else {
                    Seq::empty()
                }
            },
            ModuleSource::Json(j) => (if nonempty {
                "\n"@
            } else {
                Seq::empty()
            }) + json_block_text(displayed_specifier(l.root_dir, s), code, j@),
            ModuleSource::Unsupported => Seq::empty(),
        }
    }
}

/// The declarations of the modules, in walk order.
pub open spec fn decl_section(c: ModuleDataCollection, ms: Seq<GraphModule>, l: Layout) -> Seq<char>
    decreases ms.len(),
{
    if ms.len() == 0 {
        Seq::empty()
    } else {
        let prev = decl_section(c, ms.drop_last(), l);
        prev + decl_piece(c, ms.last(), l, prev.len() > 0)
    }
}

/// The `export *` names of a module's re-exports, each with the namespace
/// it is read from.
pub open spec fn all_pairs(c: ModuleDataCollection, rs: Seq<ReExport>) -> Seq<(Seq<char>, Seq<char>)>
    decreases rs.len(),
{
    if rs.len() == 0 {
        Seq::empty()
    } else {
        let r = rs.last();
        all_pairs(c, rs.drop_last()) + match r.name {
            ReExportName::All => sorted_export_names(c, r.specifier@).map_values(
                |n: Seq<char>| (r.module_id.code_name(), n),
            ),
            _ => Seq::empty(),
        }
    }
}

/// What the body section holds for one module, given the text it emits.
pub open spec fn body_piece(c: ModuleDataCollection, m: GraphModule, l: Layout, emitted: Seq<char>, nonempty: bool) -> Seq<char> {
    let s = m.specifier@;
    if !is_inlined(s, l.include_remote) {
        Seq::empty()
    } else {
        match m.source {
            ModuleSource::Esm(_) => {
                let d = entry_of(c, s);
                let t = trimmed(emitted);
                if t.len() > 0 || d.exports@.len() > 0 || d.re_exports@.len() > 0 {
                    (if nonempty {
                        "\n"@
                    } else {
                        Seq::empty()
                    }) + "// "@ + displayed_specifier(l.root_dir, s) + "\n"@ + (if s == l.root {
                        t + "\n"@
                    } else {
                        module_block_text(d.id.code_name(), d.has_tla, t, d.exports@, d.re_exports@, all_pairs(c, d.re_exports@))
                    })
                } else {
                    Seq::empty()
                }
            },
            _ => Seq::empty(),
        }
    }
}

/// The bodies of modules `lo..hi`, the last first.
pub open spec fn bodies_between(
    c: ModuleDataCollection,
    ms: Seq<GraphModule>,
    l: Layout,
    em: Seq<Seq<char>>,
    lo: int,
    hi: int,
    nonempty: bool,
) -> Seq<char>
    decreases hi - lo,
{
    if lo >= hi {
        Seq::empty()
    } else {
        let rest = bodies_between(c, ms, l, em, lo + 1, hi, nonempty);
        rest + body_piece(c, ms[lo], l, em[lo], nonempty || rest.len() > 0)
    }
}

/// The text a module's changes give.
pub open spec fn patched_module(c: ModuleDataCollection, m: GraphModule) -> Seq<char> {
    apply_outcome(m.source->Esm_0.source@, entry_of(c, m.specifier@).text_changes@)->Ok_0
}

/// The emitted texts: for an inlined script module that needs no
/// transpiling, the text its changes give.
pub open spec fn emitted_texts(c: ModuleDataCollection, ms: Seq<GraphModule>, include_remote: bool, em: Seq<Seq<char>>) -> bool {
    &&& em.len() == ms.len()
    &&& forall|i: int|
        0 <= i < ms.len() && (#[trigger] ms[i]).source is Esm && is_inlined(ms[i].specifier@, include_remote)
            && !entry_of(c, ms[i].specifier@).requires_transpile ==> em[i] == patched_module(c, ms[i])
}

/// Every inlined script module of the graph can be analyzed.
pub open spec fn graph_analyzable(ms: Seq<GraphModule>, root: Seq<char>, include_remote: bool) -> bool {
    forall|i: int|
        0 <= i < ms.len() && (#[trigger] ms[i]).source is Esm && is_inlined(ms[i].specifier@, include_remote)
            ==> analysis_ok(ms[i].source->Esm_0, ms[i].specifier@ == root)
}

/// Rewriting the script module under the alias table `a` needs a full emit.
pub open spec fn module_transpiles(m: GraphModule, a: Seq<Alias>, root: Seq<char>) -> bool {
    let p = m.source->Esm_0;
    body_transpiles(
        RewriteContext { aliases: a, source: p.source@, tokens: p.tokens@, is_root: m.specifier@ == root },
        p.body@,
    )
}

/// No inlined script module of the graph needs a full emit, under any
/// alias table.
pub open spec fn graph_transpile_free(ms: Seq<GraphModule>, root: Seq<char>, include_remote: bool) -> bool {
    forall|i: int, a: Seq<Alias>|
        0 <= i < ms.len() && ms[i].source is Esm && is_inlined(ms[i].specifier@, include_remote)
            ==> !#[trigger] module_transpiles(ms[i], a, root)
}

/// No module of the registry that the graph inlines is marked for a full emit.
pub open spec fn registry_transpile_free(c: ModuleDataCollection, ms: Seq<GraphModule>, include_remote: bool) -> bool {
    forall|i: int|
        0 <= i < ms.len() && (#[trigger] ms[i]).source is Esm && is_inlined(ms[i].specifier@, include_remote)
            ==> !entry_of(c, ms[i].specifier@).requires_transpile
}

/// The transpiler returns `Ok` on every text.
pub open spec fn transpiler_total<F: Fn(&str) -> Result<String, String>>(f: F) -> bool {
    forall|s: &str, res: Result<String, String>| #[trigger] call_ensures(f, (s,), res) ==> res is Ok
}

/// Each module marked for a full emit emits what the transpiler returned
/// for the text its changes give.
pub open spec fn transpiled_as<F: Fn(&str) -> Result<String, String>>(
    c: ModuleDataCollection,
    ms: Seq<GraphModule>,
    include_remote: bool,
    f: F,
    em: Seq<Seq<char>>,
) -> bool {
    forall|i: int|
        0 <= i < ms.len() && (#[trigger] ms[i]).source is Esm && is_inlined(ms[i].specifier@, include_remote)
            && entry_of(c, ms[i].specifier@).requires_transpile ==> exists|s: &str, t: String|
            s@ == patched_module(c, ms[i]) && t@ == em[i] && #[trigger] call_ensures(f, (s,), Ok::<String, String>(t))
}

/// The transpiler failed with `msg` on the patched text of a module marked
/// for a full emit.
pub open spec fn transpile_failed<F: Fn(&str) -> Result<String, String>>(
    c: ModuleDataCollection,
    ms: Seq<GraphModule>,
    include_remote: bool,
    f: F,
    specifier: Seq<char>,
    msg: Seq<char>,
) -> bool {
    exists|i: int, s: &str, m: String|
        0 <= i < ms.len() && (#[trigger] ms[i]).source is Esm && is_inlined(ms[i].specifier@, include_remote)
            && entry_of(c, ms[i].specifier@).requires_transpile && ms[i].specifier@ == specifier
            && s@ == patched_module(c, ms[i]) && m@ == msg && #[trigger] call_ensures(f, (s,), Err::<String, String>(m))
}

/// Analyzes every inlined script module in walk order, then numbers every
/// module of the walk.
fn analyze_graph(graph: &ModuleGraph, options: &PackOptions) -> (r: Result<ModuleDataCollection, PackError>)
    requires
        graph.roots@.len() == 1,
        distinct_modules(graph.modules@),
    ensures
        match r {
            Ok(c) => graph_registry(c, graph.modules@, graph.roots@[0]@, options.include_remote)
                && !has_unsupported_module(graph.modules@),
            Err(e) => !(e is RootCount) && !(e is Transpile) && (e is UnsupportedModule ==> has_unsupported_module(graph.modules@))
                && (e is Unresolved ==> has_unresolved_import(graph.modules@, graph.roots@[0]@, options.include_remote))
                && (!(e is UnsupportedModule) ==> !graph_analyzable(graph.modules@, graph.roots@[0]@, options.include_remote)),
        },
        !has_unsupported_module(graph.modules@) && graph_analyzable(graph.modules@, graph.roots@[0]@, options.include_remote)
            ==> r is Ok,
{
    let root = &graph.roots[0];
    let modules = &graph.modules;
    let ghost ms = modules@;
    let n = modules.len();
    let mut coll = ModuleDataCollection::new();
    let mut i: usize = 0;
    while i < n
        invariant
            n == ms.len(),
            ms == modules@,
            ms == graph.modules@,
            root@ == graph.roots@[0]@,
            graph.roots@.len() == 1,
            distinct_modules(ms),
            i <= n,
            coll.wf(),
            forall|k: int| 0 <= k < i ==> !((#[trigger] ms[k]).source is Unsupported),
            forall|k: int|
                0 <= k < i && (#[trigger] ms[k]).source is Esm && is_inlined(ms[k].specifier@, options.include_remote)
                    ==> analyzed_fully(coll, ms[k].specifier@, ms[k].source->Esm_0, ms[k].specifier@ == root@),
        decreases n - i,
    {
        let m = &modules[i];
        match &m.source {
            ModuleSource::Esm(program) => {
                if options.include_remote || is_file(&m.specifier) {
                    let is_root = m.specifier == *root;
                    let ghost before = coll;
                    match analyze_esm_module(&mut coll, &m.specifier, program, is_root) {
                        Ok(()) => {},
                        Err(e) => {
                            proof {
                                assert(ms[i as int].source->Esm_0 == *program);
                                assert(!analysis_ok(ms[i as int].source->Esm_0, ms[i as int].specifier@ == graph.roots@[0]@));
                                if e is Unresolved {
                                    assert(ms[i as int].source is Esm);
                                    assert(ms[i as int].source->Esm_0 == *program);
                                    assert(is_inlined(ms[i as int].specifier@, options.include_remote));
                                    assert(body_unresolved(ms[i as int].source->Esm_0.body@, ms[i as int].specifier@ == graph.roots@[0]@));
                                    assert(has_unresolved_import(graph.modules@, graph.roots@[0]@, options.include_remote));
                                }
                            }
                            return Err(e);
                        },
                    }
                    proof {
                        assert forall|k: int|
                            0 <= k < i + 1 && (#[trigger] ms[k]).source is Esm && is_inlined(ms[k].specifier@, options.include_remote)
                                implies analyzed_fully(coll, ms[k].specifier@, ms[k].source->Esm_0, ms[k].specifier@ == root@) by {
                            if k < i {
                                assert(ms[k].specifier@ != ms[i as int].specifier@);
                                let idx = before.index_of(ms[k].specifier@)->0;
                                assert(before.keys()[idx] == ms[k].specifier@);
                                lemma_analyzed_fully_kept(before, coll, ms[k].specifier@, ms[k].source->Esm_0, ms[k].specifier@ == root@);
                            }
                        }
                    }
                }
            },
            ModuleSource::Json(_) => {},
            ModuleSource::Unsupported => {
                proof {
                    assert(ms[i as int].source is Unsupported);
                    assert(has_unsupported_module(graph.modules@));
                }
                return Err(PackError::UnsupportedModule(m.specifier.clone()));
            },
        }
        i = i + 1;
    }
    let mut i: usize = 0;
    while i < n
        invariant
            n == ms.len(),
            ms == modules@,
            i <= n,
            coll.wf(),
            forall|k: int| 0 <= k < n ==> !((#[trigger] ms[k]).source is Unsupported),
            forall|k: int| 0 <= k < i ==> (#[trigger] coll.index_of(ms[k].specifier@)) is Some,
            forall|k: int|
                0 <= k < n && (#[trigger] ms[k]).source is Esm && is_inlined(ms[k].specifier@, options.include_remote)
                    ==> analyzed_fully(coll, ms[k].specifier@, ms[k].source->Esm_0, ms[k].specifier@ == root@),
        decreases n - i,
    {
        let ghost before = coll;
        coll.get_mut(&modules[i].specifier);
        proof {
            assert forall|k: int| 0 <= k < i + 1 implies (#[trigger] coll.index_of(ms[k].specifier@)) is Some by {
                if k < i {
                    lemma_module_id_stable(before, coll, ms[k].specifier@);
                }
            }
            assert forall|k: int|
                0 <= k < n && (#[trigger] ms[k]).source is Esm && is_inlined(ms[k].specifier@, options.include_remote)
                    implies analyzed_fully(coll, ms[k].specifier@, ms[k].source->Esm_0, ms[k].specifier@ == root@) by {
                let idx = before.index_of(ms[k].specifier@)->0;
                lemma_analyzed_fully_kept(before, coll, ms[k].specifier@, ms[k].source->Esm_0, ms[k].specifier@ == root@);
            }
        }
        i = i + 1;
    }
    proof {
        assert forall|k: int| 0 <= k < ms.len() && (#[trigger] ms[k]).source is Unsupported implies false by {}
    }
    Ok(coll)
}

fn entry_ref<'a>(c: &'a ModuleDataCollection, s: &String) -> (r: &'a ModuleData)
    requires
        c.wf(),
        c.index_of(s@) is Some,
    ensures
        *r == entry_of(*c, s@),
{
    c.get(s).unwrap()
}

/// For each `export *` of a module, its source's namespace and each name it
/// exports.
fn export_all_pairs(c: &ModuleDataCollection, re_exports: &Vec<ReExport>) -> (r: Vec<(String, String)>)
    requires
        c.wf(),
    ensures
        r@.map_values(|p: (String, String)| (p.0@, p.1@)) == all_pairs(*c, re_exports@),
{
    let mut pairs: Vec<(String, String)> = Vec::new();
    let n = re_exports.len();
    let mut i: usize = 0;
    proof {
        assert(re_exports@.subrange(0, 0) =~= Seq::<ReExport>::empty());
        assert(pairs@.map_values(|p: (String, String)| (p.0@, p.1@)) =~= Seq::<(Seq<char>, Seq<char>)>::empty());
    }
    while i < n
        invariant
            n == re_exports@.len(),
            i <= n,
            c.wf(),
            pairs@.map_values(|p: (String, String)| (p.0@, p.1@)) == all_pairs(*c, re_exports@.subrange(0, i as int)),
        decreases n - i,
    {
        let r = &re_exports[i];
        let ghost base = pairs@.map_values(|p: (String, String)| (p.0@, p.1@));
        proof {
            let pre = re_exports@.subrange(0, i as int + 1);
            assert(pre.drop_last() =~= re_exports@.subrange(0, i as int));
            assert(pre.last() == *r);
        }
        if let ReExportName::All = r.name {
            let code = r.module_id.to_code_string();
            let names = c.get_export_names(&r.specifier);
            proof {
                lemma_sorted_export_names(*c, r.specifier@, names.deep_view());
            }
            let ghost nv = names.deep_view();
            let m = names.len();
            let mut j: usize = 0;
            proof {
                assert(pairs@.map_values(|p: (String, String)| (p.0@, p.1@)) =~= base + nv.subrange(0, 0).map_values(
                    |x: Seq<char>| (r.module_id.code_name(), x),
                ));
            }
            while j < m
                invariant
                    m == names@.len(),
                    nv == names.deep_view(),
                    j <= m,
                    code@ == r.module_id.code_name(),
                    pairs@.map_values(|p: (String, String)| (p.0@, p.1@)) == base + nv.subrange(0, j as int).map_values(
                        |x: Seq<char>| (r.module_id.code_name(), x),
                    ),
                decreases m - j,
            {
                let ghost before = pairs@;
                let item = (code.clone(), names[j].clone());
                assert(item.0@ == r.module_id.code_name() && item.1@ == nv[j as int]);
                pairs.push(item);
                proof {
                    assert(pairs@ == before.push(item));
                    assert(pairs@.map_values(|p: (String, String)| (p.0@, p.1@)) =~= before.map_values(
                        |p: (String, String)| (p.0@, p.1@),
                    ).push((item.0@, item.1@)));
                    assert(nv.subrange(0, j as int + 1) =~= nv.subrange(0, j as int).push(nv[j as int]));
                    assert(pairs@.map_values(|p: (String, String)| (p.0@, p.1@)) =~= base + nv.subrange(0, j as int + 1).map_values(
                        |x: Seq<char>| (r.module_id.code_name(), x),
                    ));
                }
                j = j + 1;
            }
            proof {
                assert(nv.subrange(0, m as int) =~= nv);
            }
        } else {
            proof {
                assert(all_pairs(*c, re_exports@.subrange(0, i as int + 1)) =~= all_pairs(*c, re_exports@.subrange(0, i as int)));
            }
        }
        i = i + 1;
    }
    proof {
        assert(re_exports@.subrange(0, n as int) =~= re_exports@);
    }
    pairs
}

/// The declaration section: a namespace object for each inlined module that
/// exports something, each JSON module's value, and an import for each
/// module kept external, in walk order.
fn declarations(
    c: &ModuleDataCollection,
    modules: &Vec<GraphModule>,
    root: &String,
    include_remote: bool,
    root_dir: &Option<String>,
) -> (r: String)
    requires
        c.wf(),
        forall|i: int| 0 <= i < modules@.len() ==> (#[trigger] c.index_of(modules@[i].specifier@)) is Some,
    ensures
        r@ == decl_section(*c, modules@, Layout { root: root@, include_remote, root_dir: opt_text(*root_dir) }),
{
    let ghost l = Layout { root: root@, include_remote, root_dir: opt_text(*root_dir) };
    let mut out = String::new();
    let n = modules.len();
    let mut i: usize = 0;
    proof {
        assert(modules@.subrange(0, 0) =~= Seq::<GraphModule>::empty());
    }
    while i < n
        invariant
            n == modules@.len(),
            i <= n,
            c.wf(),
            forall|k: int| 0 <= k < modules@.len() ==> (#[trigger] c.index_of(modules@[k].specifier@)) is Some,
            l == (Layout { root: root@, include_remote, root_dir: opt_text(*root_dir) }),
            out@ == decl_section(*c, modules@.subrange(0, i as int), l),
        decreases n - i,
    {
        let m = &modules[i];
        let ghost prev = out@;
        proof {
            let pre = modules@.subrange(0, i as int + 1);
            assert(pre.drop_last() =~= modules@.subrange(0, i as int));
            assert(pre.last() == *m);
            assert(c.index_of(modules@[i as int].specifier@) is Some);
        }
        let id = entry_ref(c, &m.specifier).id;
        if !include_remote && !is_file(&m.specifier) {
            let code = id.to_code_string();
            out.append(remote_import(&code, &m.specifier).as_str());
        } else {
            match &m.source {
                ModuleSource::Esm(_) => {
                    let names = c.get_export_names(&m.specifier);
                    proof {
                        lemma_sorted_export_names(*c, m.specifier@, names.deep_view());
                    }
                    if names.len() > 0 && m.specifier != *root {
                        out.append(namespace_decl(id, &names).as_str());
                    } else {
                        assert(out@ =~= prev + Seq::<char>::empty());
                    }
                },
                ModuleSource::Json(json) => {
                    let code = id.to_code_string();
                    let nonempty = out.as_str().unicode_len() > 0;
                    if nonempty {
                        out.append("\n");
                    }
                    let display = display_specifier(root_dir, &m.specifier);
                    out.append(json_block(&display, &code, json).as_str());
                    proof {
                        let sep = if nonempty { "\n"@ } else { Seq::<char>::empty() };
                        assert(out@ =~= prev + (sep + json_block_text(display@, code@, json@)));
                    }
                },
                ModuleSource::Unsupported => {
                    assert(out@ =~= prev + Seq::<char>::empty());
                },
            }
        }
        i = i + 1;
    }
    proof {
        assert(modules@.subrange(0, n as int) =~= modules@);
    }
    out
}

/// The text each module emits: an inlined script module's text with its
/// changes applied, passed through `transpile` where the module needs a full
/// emit; nothing for the other modules.
fn emit_texts<F: Fn(&str) -> Result<String, String>>(
    c: &ModuleDataCollection,
    modules: &Vec<GraphModule>,
    root: &String,
    include_remote: bool,
    transpile: F,
) -> (r: Result<Vec<String>, PackError>)
    requires
        graph_registry(*c, modules@, root@, include_remote),
        forall|s: &str| call_requires(transpile, (s,)),
    ensures
        match r {
            Ok(v) => emitted_texts(*c, modules@, include_remote, v.deep_view()) && transpiled_as(
                *c,
                modules@,
                include_remote,
                transpile,
                v.deep_view(),
            ),
            Err(e) => e is Transpile && transpile_failed(*c, modules@, include_remote, transpile, e->Transpile_0@, e->Transpile_1@),
        },
        registry_transpile_free(*c, modules@, include_remote) || transpiler_total(transpile) ==> r is Ok,
{
    let mut texts: Vec<String> = Vec::new();
    let n = modules.len();
    let mut i: usize = 0;
    while i < n
        invariant
            n == modules@.len(),
            i <= n,
            graph_registry(*c, modules@, root@, include_remote),
            forall|s: &str| call_requires(transpile, (s,)),
            texts@.len() == i,
            forall|k: int|
                0 <= k < i && (#[trigger] modules@[k]).source is Esm && is_inlined(modules@[k].specifier@, include_remote)
                    && !entry_of(*c, modules@[k].specifier@).requires_transpile ==> texts@[k]@ == patched_module(
                    *c,
                    modules@[k],
                ),
            forall|k: int|
                0 <= k < i && (#[trigger] modules@[k]).source is Esm && is_inlined(modules@[k].specifier@, include_remote)
                    && entry_of(*c, modules@[k].specifier@).requires_transpile ==> exists|s: &str, t: String|
                    s@ == patched_module(*c, modules@[k]) && t@ == texts@[k]@ && #[trigger] call_ensures(
                    transpile,
                    (s,),
                    Ok::<String, String>(t),
                ),
        decreases n - i,
    {
        let m = &modules[i];
        let mut text = String::new();
        if include_remote || is_file(&m.specifier) {
            if let ModuleSource::Esm(program) = &m.source {
                proof {
                    assert(c.index_of(modules@[i as int].specifier@) is Some);
                    assert(analyzed(*c, m.specifier@, *program, m.specifier@ == root@));
                    lemma_analyzed_changes_apply(*c, m.specifier@, *program, m.specifier@ == root@);
                }
                let d = entry_ref(c, &m.specifier);
                let changes = copy_changes(&d.text_changes);
                let applied = apply_text_changes(program.source.as_str(), changes);
                let patched = applied.unwrap();
                if d.requires_transpile {
                    let ps = patched.as_str();
                    let res = transpile(ps);
                    match res {
                        Ok(t) => {
                            proof {
                                assert(call_ensures(transpile, (ps,), Ok::<String, String>(t)));
                            }
                            text = t;
                        },
                        Err(msg) => {
                            proof {
                                assert(call_ensures(transpile, (ps,), Err::<String, String>(msg)));
                                assert(modules@[i as int].source is Esm);
                                assert(transpile_failed(*c, modules@, include_remote, transpile, m.specifier@, msg@));
                            }
                            return Err(PackError::Transpile(m.specifier.clone(), msg));
                        },
                    }
                } else {
                    text = patched;
                }
            }
        }
        let ghost before = texts@;
        texts.push(text);
        proof {
            assert forall|k: int|
                0 <= k < i + 1 && (#[trigger] modules@[k]).source is Esm && is_inlined(modules@[k].specifier@, include_remote)
                    && !entry_of(*c, modules@[k].specifier@).requires_transpile implies texts@[k]@ == patched_module(*c, modules@[k]) by {
                if k < i {
                    assert(texts@[k] == before[k]);
                }
            }
        }
        i = i + 1;
    }
    proof {
        assert forall|k: int|
            0 <= k < n && (#[trigger] modules@[k]).source is Esm && is_inlined(modules@[k].specifier@, include_remote)
                && !entry_of(*c, modules@[k].specifier@).requires_transpile implies texts.deep_view()[k] == patched_module(*c, modules@[k]) by {
            assert(texts.deep_view()[k] == texts@[k]@);
        }
    }
    Ok(texts)
}

/// Appends the body of one module, given the text it emits.
#[verifier::rlimit(40)]
fn append_body(
    out: &mut String,
    c: &ModuleDataCollection,
    m: &GraphModule,
    text: &String,
    root: &String,
    include_remote: bool,
    root_dir: &Option<String>,
)
    requires
        c.wf(),
        c.index_of(m.specifier@) is Some,
    ensures
        final(out)@ == old(out)@ + body_piece(
            *c,
            *m,
            Layout { root: root@, include_remote, root_dir: opt_text(*root_dir) },
            text@,
            old(out)@.len() > 0,
        ),
{
    let ghost l = Layout { root: root@, include_remote, root_dir: opt_text(*root_dir) };
    let ghost prev = out@;
    let nonempty = out.as_str().unicode_len() > 0;
    if include_remote || is_file(&m.specifier) {
        if let ModuleSource::Esm(_) = &m.source {
            let d = entry_ref(c, &m.specifier);
            let t = trim(text.as_str());
            if t.as_str().unicode_len() > 0 || d.exports.len() > 0 || d.re_exports.len() > 0 {
                if nonempty {
                    out.append("\n");
                }
                let display = display_specifier(root_dir, &m.specifier);
                out.append("// ");
                out.append(display.as_str());
                out.append("\n");
                let ghost head = out@;
                if m.specifier == *root {
                    out.append(t.as_str());
                    out.append("\n");
                    proof {
                        assert(out@ =~= head + (t@ + "\n"@));
                    }
                } else {
                    let code = d.id.to_code_string();
                    let pairs = export_all_pairs(c, &d.re_exports);
                    let block = module_block(&code, d.has_tla, &t, &d.exports, &d.re_exports, &pairs);
                    out.append(block.as_str());
                }
                proof {
                    let sep = if nonempty { "\n"@ } else { Seq::<char>::empty() };
                    assert(out@ =~= prev + body_piece(*c, *m, l, text@, nonempty));
                }
            } else {
                assert(out@ =~= prev + body_piece(*c, *m, l, text@, nonempty));
            }
        } else {
            assert(out@ =~= prev + body_piece(*c, *m, l, text@, nonempty));
        }
    } else {
        assert(out@ =~= prev + body_piece(*c, *m, l, text@, nonempty));
    }
}

/// Appends the bodies of the modules, the last module of the walk first.
fn append_bodies(
    out: &mut String,
    c: &ModuleDataCollection,
    modules: &Vec<GraphModule>,
    texts: &Vec<String>,
    root: &String,
    include_remote: bool,
    root_dir: &Option<String>,
)
    requires
        graph_registry(*c, modules@, root@, include_remote),
        texts@.len() == modules@.len(),
    ensures
        final(out)@ == old(out)@ + bodies_between(
            *c,
            modules@,
            Layout { root: root@, include_remote, root_dir: opt_text(*root_dir) },
            texts.deep_view(),
            0,
            modules@.len() as int,
            old(out)@.len() > 0,
        ),
{
    let ghost l = Layout { root: root@, include_remote, root_dir: opt_text(*root_dir) };
    let ghost em = texts.deep_view();
    let ghost start = out@;
    let n = modules.len();
    let mut i: usize = n;
    proof {
        assert(out@ =~= start + bodies_between(*c, modules@, l, em, n as int, n as int, start.len() > 0));
    }
    while i > 0
        invariant
            n == modules@.len(),
            texts@.len() == n,
            em == texts.deep_view(),
            i <= n,
            graph_registry(*c, modules@, root@, include_remote),
            l == (Layout { root: root@, include_remote, root_dir: opt_text(*root_dir) }),
            out@ == start + bodies_between(*c, modules@, l, em, i as int, n as int, start.len() > 0),
        decreases i,
    {
        i = i - 1;
        let ghost prev = out@;
        let ghost rest = bodies_between(*c, modules@, l, em, i as int + 1, n as int, start.len() > 0);
        proof {
            assert(c.index_of(modules@[i as int].specifier@) is Some);
            assert(em[i as int] == texts@[i as int]@);
        }
        append_body(out, c, &modules[i], &texts[i], root, include_remote, root_dir);
        proof {
            assert((prev.len() > 0) == (start.len() > 0 || rest.len() > 0));
            assert(out@ =~= start + bodies_between(*c, modules@, l, em, i as int, n as int, start.len() > 0));
        }
    }
}

/// The packed text is the declaration section followed by the bodies,
/// the last module of the walk first, for the registry `c` of the run and
/// the texts `em` the modules emit.
pub open spec fn packed_as(
    c: ModuleDataCollection,
    em: Seq<Seq<char>>,
    graph: ModuleGraph,
    include_remote: bool,
    text: Seq<char>,
) -> bool {
    let ms = graph.modules@;
    let l = Layout {
        root: graph.roots@[0]@,
        include_remote,
        root_dir: root_dir_of(ms.map_values(|m: GraphModule| m.specifier@)),
    };
    let d = decl_section(c, ms, l);
    &&& graph_registry(c, ms, l.root, include_remote)
    &&& emitted_texts(c, ms, include_remote, em)
    &&& text == d + bodies_between(c, ms, l, em, 0, ms.len() as int, d.len() > 0)
}

/// Packs the graph into one script: a forward declaration of the namespace
/// object of each module that exports something, then each inlined module's
/// patched text, dependencies first, every module but the root wrapped in a
/// function scope that fills its namespace object. `transpile` turns the
/// patched text of a module that needs a full emit into plain script.
pub fn pack<F: Fn(&str) -> Result<String, String>>(
    graph: &ModuleGraph,
    options: &PackOptions,
    transpile: F,
) -> (r: Result<String, PackError>)
    requires
        forall|s: &str| call_requires(transpile, (s,)),
        distinct_modules(graph.modules@),
    ensures
        (r is Err && r->Err_0 is RootCount) <==> graph.roots@.len() != 1,
        r is Err && r->Err_0 is UnsupportedModule ==> has_unsupported_module(graph.modules@),
        r is Err && r->Err_0 is Unresolved ==> has_unresolved_import(graph.modules@, graph.roots@[0]@, options.include_remote),
        r is Err && (r->Err_0 is UnsupportedSyntax || r->Err_0 is EditConflict || r->Err_0 is Unresolved)
            ==> !graph_analyzable(graph.modules@, graph.roots@[0]@, options.include_remote),
        r is Err && r->Err_0 is Transpile ==> exists|c: ModuleDataCollection|
            graph_registry(c, graph.modules@, graph.roots@[0]@, options.include_remote) && #[trigger] transpile_failed(
                c,
                graph.modules@,
                options.include_remote,
                transpile,
                r->Err_0->Transpile_0@,
                r->Err_0->Transpile_1@,
            ),
        graph.roots@.len() == 1 && !has_unsupported_module(graph.modules@) && graph_analyzable(
            graph.modules@,
            graph.roots@[0]@,
            options.include_remote,
        ) && (graph_transpile_free(graph.modules@, graph.roots@[0]@, options.include_remote) || transpiler_total(transpile))
            ==> r is Ok,
        r is Ok ==> !has_unsupported_module(graph.modules@) && exists|c: ModuleDataCollection, em: Seq<Seq<char>>|
            #[trigger] packed_as(c, em, *graph, options.include_remote, r->Ok_0@) && transpiled_as(
                c,
                graph.modules@,
                options.include_remote,
                transpile,
                em,
            ),
{
    if graph.roots.len() != 1 {
        return Err(PackError::RootCount);
    }
    let root = &graph.roots[0];
    let modules = &graph.modules;
    let coll = analyze_graph(graph, options)?;
    let n = modules.len();
    let mut specifiers: Vec<String> = Vec::new();
    let mut i: usize = 0;
    while i < n
        invariant
            n == modules@.len(),
            i <= n,
            specifiers.deep_view() == modules@.subrange(0, i as int).map_values(|m: GraphModule| m.specifier@),
        decreases n - i,
    {
        let ghost before = specifiers.deep_view();
        let sp = modules[i].specifier.clone();
        assert(sp@ == modules@[i as int].specifier@);
        specifiers.push(sp);
        proof {
            assert(specifiers.deep_view() =~= before.push(sp@));
            assert(specifiers.deep_view() =~= modules@.subrange(0, i as int + 1).map_values(|m: GraphModule| m.specifier@));
        }
        i = i + 1;
    }
    proof {
        assert(modules@.subrange(0, n as int) =~= modules@);
    }
    let root_dir = get_root_dir(&specifiers);
    let ghost l = Layout {
        root: root@,
        include_remote: options.include_remote,
        root_dir: root_dir_of(modules@.map_values(|m: GraphModule| m.specifier@)),
    };
    assert(opt_text(root_dir) == l.root_dir);
    let mut out = declarations(&coll, modules, root, options.include_remote, &root_dir);
    let ghost decls = out@;
    proof {
        if graph_transpile_free(graph.modules@, graph.roots@[0]@, options.include_remote) {
            assert forall|i: int|
                0 <= i < modules@.len() && (#[trigger] modules@[i]).source is Esm && is_inlined(modules@[i].specifier@, options.include_remote)
                    implies !entry_of(coll, modules@[i].specifier@).requires_transpile by {
                let p = modules@[i].source->Esm_0;
                let s = modules@[i].specifier@;
                assert(analyzed_fully(coll, s, p, s == root@));
                let b = s == root@;
                let a = choose|a: Seq<Alias>| imported_aliases(coll, p.body@, a) && #[trigger] rewritten(coll, s, p, a, b);
                assert(!module_transpiles(modules@[i], a, root@));
            }
        }
    }
    let texts = match emit_texts(&coll, modules, root, options.include_remote, transpile) {
        Ok(t) => t,
        Err(e) => {
            proof {
                assert(graph_registry(coll, graph.modules@, graph.roots@[0]@, options.include_remote));
            }
            return Err(e);
        },
    };
    append_bodies(&mut out, &coll, modules, &texts, root, options.include_remote, &root_dir);
    proof {
        assert(packed_as(coll, texts.deep_view(), *graph, options.include_remote, out@));
        assert(!has_unsupported_module(graph.modules@));
        assert(transpiled_as(coll, graph.modules@, options.include_remote, transpile, texts.deep_view()));
    }
    let r: Result<String, PackError> = Ok(out);
    assert(r->Ok_0@ == out@);
    r
}

/// A module that the analysis left untouched (no import, export or syntax
/// to rewrite) applies to its own text unchanged, and is emitted as that
/// text, trimmed, inside the function scope alone.
pub proof fn lemma_untouched_module_wrapped(
    coll: ModuleDataCollection,
    specifier: Seq<char>,
    source: Seq<char>,
)
    requires
        coll.wf(),
        untouched(coll, specifier),
    ensures
        ({
            let d = coll.entries()[coll.index_of(specifier)->0];
            &&& apply_outcome(source, d.text_changes@) == Ok::<Seq<char>, ChangeConflict>(source)
            &&& module_block_text(d.id.code_name(), d.has_tla, trimmed(source), d.exports@, d.re_exports@, Seq::empty())
                == (if d.has_tla {
                "await (async () => {\n"@
            } else {
                "(() => {\n"@
            }) + (if trimmed(source).len() > 0 {
                trimmed(source) + "\n"@
            } else {
                Seq::empty()
            }) + "})();\n"@
        }),
{
    let d = coll.entries()[coll.index_of(specifier)->0];
    assert(d.text_changes@ =~= Seq::<TextChange>::empty());
    assert(sorted_changes(d.text_changes@) =~= Seq::<TextChange>::empty());
    assert(source.subrange(0, source.len() as int) =~= source);
    assert(d.exports@ =~= Seq::empty());
    assert(d.re_exports@ =~= Seq::empty());
    let code = d.id.code_name();
    assert(export_lines(code, d.exports@) =~= Seq::empty());
    assert(re_export_lines(code, d.re_exports@) =~= Seq::empty());
    let head = if d.has_tla {
        "await (async () => {\n"@
    } else {
        "(() => {\n"@
    };
    let body = if trimmed(source).len() > 0 {
        trimmed(source) + "\n"@
    } else {
        Seq::empty()
    };
    assert(head + body + Seq::<char>::empty() + Seq::<char>::empty() + Seq::<char>::empty() + "})();\n"@ =~= head + body + "})();\n"@);
}

} // verus!
