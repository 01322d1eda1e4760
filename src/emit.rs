use vstd::prelude::*;
use vstd::string::*;

use crate::registry::{re_export_name, ExportName, ModuleId, ReExport, ReExportName};
use crate::text::{trim, trimmed};

verus! {

/// The entries `  name: undefined,` of a namespace object's declaration.
pub open spec fn undefined_entries(names: Seq<Seq<char>>) -> Seq<char>
    decreases names.len(),
{
    if names.len() == 0 {
        Seq::empty()
    } else {
        undefined_entries(names.drop_last()) + "  "@ + names.last() + ": undefined,\n"@
    }
}

/// The forward declaration of a module's namespace object.
pub open spec fn namespace_decl_text(code: Seq<char>, names: Seq<Seq<char>>) -> Seq<char> {
    "const "@ + code + " = {\n"@ + undefined_entries(names) + "};\n"@
}

/// Declares a namespace object with a placeholder for each export name.
pub fn namespace_decl(id: ModuleId, names: &Vec<String>) -> (r: String)
    ensures
        r@ == namespace_decl_text(id.code_name(), names.deep_view()),
{
    let code = id.to_code_string();
    let mut out = String::from_str("const ");
    out.append(code.as_str());
    out.append(" = {\n");
    let ghost head = out@;
    let n = names.len();
    let mut i: usize = 0;
    proof {
        assert(names.deep_view().subrange(0, 0) =~= Seq::<Seq<char>>::empty());
        assert(out@ =~= head + undefined_entries(Seq::<Seq<char>>::empty()));
    }
    while i < n
        invariant
            n == names@.len(),
            i <= n,
            out@ == head + undefined_entries(names.deep_view().subrange(0, i as int)),
        decreases n - i,
    {
        out.append("  ");
        out.append(names[i].as_str());
        out.append(": undefined,\n");
        proof {
            let pre = names.deep_view().subrange(0, i as int + 1);
            assert(pre.drop_last() =~= names.deep_view().subrange(0, i as int));
            assert(pre.last() == names@[i as int]@);
            assert(out@ =~= head + undefined_entries(pre));
        }
        i = i + 1;
    }
    out.append("};\n");
    proof {
        assert(names.deep_view().subrange(0, n as int) =~= names.deep_view());
        assert(out@ =~= namespace_decl_text(id.code_name(), names.deep_view()));
    }
    out
}

/// A getter property of a namespace object.
pub open spec fn property_text(code: Seq<char>, name: Seq<char>, getter: Seq<char>) -> Seq<char> {
    "Object.defineProperty("@ + code + ", \""@ + name + "\", { get: () => "@ + getter + " });\n"@
}

/// Appends the definition of a getter property of a namespace object.
pub fn define_property(out: &mut String, code: &str, name: &str, getter: &str)
    ensures
        final(out)@ == old(out)@ + property_text(code@, name@, getter@),
{
    out.append("Object.defineProperty(");
    out.append(code);
    out.append(", \"");
    out.append(name);
    out.append("\", { get: () => ");
    out.append(getter);
    out.append(" });\n");
    proof {
        assert(final(out)@ =~= old(out)@ + property_text(code@, name@, getter@));
    }
}

/// The text `a.b`.
pub fn member_text(a: &str, b: &str) -> (r: String)
    ensures
        r@ == a@ + "."@ + b@,
{
    let mut s = String::from_str(a);
    s.append(".");
    s.append(b);
    s
}

/// The property definitions of a module's own exports.
pub open spec fn export_lines(code: Seq<char>, es: Seq<ExportName>) -> Seq<char>
    decreases es.len(),
{
    if es.len() == 0 {
        Seq::empty()
    } else {
        export_lines(code, es.drop_last()) + property_text(code, es.last().name(), es.last().local_name@)
    }
}

/// The property definition of a named or namespace re-export; none for
/// `export *`.
pub open spec fn re_export_line(code: Seq<char>, r: ReExport) -> Seq<char> {
    match r.name {
        ReExportName::Named(e) => property_text(code, e.name(), r.module_id.code_name() + "."@ + e.local_name@),
        ReExportName::Namespace(n) => property_text(code, n@, r.module_id.code_name()),
        ReExportName::All => Seq::empty(),
    }
}

pub open spec fn re_export_lines(code: Seq<char>, rs: Seq<ReExport>) -> Seq<char>
    decreases rs.len(),
{
    if rs.len() == 0 {
        Seq::empty()
    } else {
        re_export_lines(code, rs.drop_last()) + re_export_line(code, rs.last())
    }
}

pub open spec fn export_names(es: Seq<ExportName>) -> Seq<Seq<char>> {
    es.map_values(|e: ExportName| e.name())
}

pub open spec fn re_export_names(rs: Seq<ReExport>) -> Seq<Seq<char>>
    decreases rs.len(),
{
    if rs.len() == 0 {
        Seq::empty()
    } else {
        re_export_names(rs.drop_last()) + match re_export_name(rs.last()) {
            Some(n) => seq![n],
            None => Seq::empty(),
        }
    }
}

/// The names the module's own records define on its namespace object.
pub open spec fn defined_names(es: Seq<ExportName>, rs: Seq<ReExport>) -> Set<Seq<char>> {
    (export_names(es) + re_export_names(rs)).to_set()
}

/// The property definitions of `export *` names: each pair is the namespace
/// of the source module and a name; a name already defined is skipped.
pub open spec fn all_lines(code: Seq<char>, defined: Set<Seq<char>>, pairs: Seq<(Seq<char>, Seq<char>)>) -> Seq<char>
    decreases pairs.len(),
{
    if pairs.len() == 0 {
        Seq::empty()
    } else {
        let (dep, name) = pairs[0];
        if defined.contains(name) {
            all_lines(code, defined, pairs.drop_first())
        } else {
            property_text(code, name, dep + "."@ + name) + all_lines(code, defined.insert(name), pairs.drop_first())
        }
    }
}

/// The wrapped body of a module that is not the root.
pub open spec fn module_block_text(
    code: Seq<char>,
    has_tla: bool,
    text: Seq<char>,
    es: Seq<ExportName>,
    rs: Seq<ReExport>,
    pairs: Seq<(Seq<char>, Seq<char>)>,
) -> Seq<char> {
    (if has_tla {
        "await (async () => {\n"@
    } else {
        "(() => {\n"@
    }) + (if text.len() > 0 {
        text + "\n"@
    } else {
        Seq::empty()
    }) + export_lines(code, es) + re_export_lines(code, rs) + all_lines(code, defined_names(es, rs), pairs)
        + "})();\n"@
}

fn contains_name(v: &Vec<String>, s: &String) -> (r: bool)
    ensures
        r == v.deep_view().to_set().contains(s@),
{
    let n = v.len();
    let mut i: usize = 0;
    while i < n
        invariant
            n == v@.len(),
            i <= n,
            forall|k: int| 0 <= k < i ==> v@[k]@ != s@,
        decreases n - i,
    {
        if v[i] == *s {
            proof {
                assert(v.deep_view()[i as int] == s@);
            }
            return true;
        }
        i = i + 1;
    }
    proof {
        if v.deep_view().to_set().contains(s@) {
            let k = choose|k: int| 0 <= k < v.deep_view().len() && v.deep_view()[k] == s@;
            assert(v@[k]@ == s@);
        }
    }
    false
}

/// Wraps a module's patched text in a function scope that fills its
/// namespace object `code` with getters for each export.
pub fn module_block(
    code: &String,
    has_tla: bool,
    text: &String,
    exports: &Vec<ExportName>,
    re_exports: &Vec<ReExport>,
    pairs: &Vec<(String, String)>,
) -> (r: String)
    ensures
        r@ == module_block_text(
            code@,
            has_tla,
            text@,
            exports@,
            re_exports@,
            pairs@.map_values(|p: (String, String)| (p.0@, p.1@)),
        ),
{
    let mut out = if has_tla {
        String::from_str("await (async () => {\n")
    } else {
        String::from_str("(() => {\n")
    };
    if text.as_str().unicode_len() > 0 {
        out.append(text.as_str());
        out.append("\n");
    }
    let ghost head = out@;
    let mut defined: Vec<String> = Vec::new();
    let n = exports.len();
    let mut i: usize = 0;
    proof {
        assert(exports@.subrange(0, 0) =~= Seq::<ExportName>::empty());
        assert(out@ =~= head + export_lines(code@, Seq::<ExportName>::empty()));
        assert(defined.deep_view() =~= export_names(Seq::<ExportName>::empty()));
    }
    while i < n
        invariant
            n == exports@.len(),
            i <= n,
            out@ == head + export_lines(code@, exports@.subrange(0, i as int)),
            defined.deep_view() == export_names(exports@.subrange(0, i as int)),
        decreases n - i,
    {
        let e = &exports[i];
        let name = e.export_name();
        define_property(&mut out, code.as_str(), name.as_str(), e.local_name.as_str());
        let ghost before = defined.deep_view();
        defined.push(name.clone());
        proof {
            let pre = exports@.subrange(0, i as int + 1);
            assert(pre.drop_last() =~= exports@.subrange(0, i as int));
            assert(out@ =~= head + export_lines(code@, pre));
            assert(defined.deep_view() =~= before.push(name@));
            assert(export_names(pre) =~= export_names(exports@.subrange(0, i as int)).push(pre[i as int].name()));
        }
        i = i + 1;
    }
    proof {
        assert(exports@.subrange(0, n as int) =~= exports@);
    }
    let ghost head2 = out@;
    let ghost exported = defined.deep_view();
    let n = re_exports.len();
    let mut i: usize = 0;
    proof {
        assert(re_exports@.subrange(0, 0) =~= Seq::<ReExport>::empty());
        assert(out@ =~= head2 + re_export_lines(code@, Seq::<ReExport>::empty()));
        assert(defined.deep_view() =~= exported + re_export_names(Seq::<ReExport>::empty()));
    }
    while i < n
        invariant
            n == re_exports@.len(),
            i <= n,
            out@ == head2 + re_export_lines(code@, re_exports@.subrange(0, i as int)),
            defined.deep_view() == exported + re_export_names(re_exports@.subrange(0, i as int)),
        decreases n - i,
    {
        let r = &re_exports[i];
        let ghost before = defined.deep_view();
        let ghost out_before = out@;
        let dep_code = r.module_id.to_code_string();
        match &r.name {
            ReExportName::Named(e) => {
                let name = e.export_name();
                let getter = member_text(dep_code.as_str(), e.local_name.as_str());
                define_property(&mut out, code.as_str(), name.as_str(), getter.as_str());
                defined.push(name.clone());
            },
            ReExportName::Namespace(ns) => {
                define_property(&mut out, code.as_str(), ns.as_str(), dep_code.as_str());
                defined.push(ns.clone());
            },
            ReExportName::All => {},
        }
        proof {
            let pre = re_exports@.subrange(0, i as int + 1);
            assert(pre.drop_last() =~= re_exports@.subrange(0, i as int));
            assert(pre.last() == *r);
            assert(out@ =~= head2 + re_export_lines(code@, pre));
            let g = pre.last();
            match g.name {
                ReExportName::All => {
                    assert(re_export_names(pre) =~= re_export_names(re_exports@.subrange(0, i as int)));
                    assert(defined.deep_view() =~= before);
                },
                ReExportName::Named(e) => {
                    assert(defined.deep_view() =~= before.push(e.name()));
                    assert(re_export_names(pre) =~= re_export_names(re_exports@.subrange(0, i as int)).push(e.name()));
                },
                ReExportName::Namespace(ns) => {
                    assert(defined.deep_view() =~= before.push(ns@));
                    assert(re_export_names(pre) =~= re_export_names(re_exports@.subrange(0, i as int)).push(ns@));
                },
            }
            assert(defined.deep_view() =~= exported + re_export_names(pre));
        }
        i = i + 1;
    }
    proof {
        assert(re_exports@.subrange(0, n as int) =~= re_exports@);
        assert(defined.deep_view().to_set() == defined_names(exports@, re_exports@));
    }
    let ghost head3 = out@;
    let ghost pv = pairs@.map_values(|p: (String, String)| (p.0@, p.1@));
    let ghost set0 = defined_names(exports@, re_exports@);
    let n = pairs.len();
    let mut i: usize = 0;
    proof {
        assert(pv.subrange(0, n as int) =~= pv);
        assert(out@ =~= head3 + Seq::<char>::empty());
    }
    while i < n
        invariant
            n == pairs@.len(),
            pv.len() == n,
            pv == pairs@.map_values(|p: (String, String)| (p.0@, p.1@)),
            i <= n,
            out@ + all_lines(code@, defined.deep_view().to_set(), pv.subrange(i as int, n as int)) == head3
                + all_lines(code@, set0, pv),
        decreases n - i,
    {
        let dep = &pairs[i].0;
        let name = &pairs[i].1;
        let ghost rest = pv.subrange(i as int, n as int);
        proof {
            assert(rest[0] == (dep@, name@));
            assert(rest.drop_first() =~= pv.subrange(i as int + 1, n as int));
        }
        if !contains_name(&defined, name) {
            let ghost before = defined.deep_view();
            let getter = member_text(dep.as_str(), name.as_str());
            define_property(&mut out, code.as_str(), name.as_str(), getter.as_str());
            defined.push(name.clone());
            proof {
                assert(defined.deep_view() =~= before.push(name@));
                before.lemma_push_to_set_commute(name@);
            }
        }
        i = i + 1;
    }
    out.append("})();\n");
    proof {
        assert(pv.subrange(n as int, n as int) =~= Seq::<(Seq<char>, Seq<char>)>::empty());
        let tl = if text@.len() > 0 { text@ + "\n"@ } else { Seq::<char>::empty() };
        assert(out@ =~= module_block_text(code@, has_tla, text@, exports@, re_exports@, pv));
    }
    out
}

/// `p` is a prefix of `s`.
pub open spec fn has_prefix(s: Seq<char>, p: Seq<char>) -> bool {
    p.len() <= s.len() && s.subrange(0, p.len() as int) == p
}

pub fn starts_with(s: &str, p: &str) -> (r: bool)
    ensures
        r == has_prefix(s@, p@),
{
    let n = s.unicode_len();
    let m = p.unicode_len();
    if m > n {
        return false;
    }
    let mut i: usize = 0;
    while i < m
        invariant
            n == s@.len(),
            m == p@.len(),
            m <= n,
            i <= m,
            forall|k: int| 0 <= k < i ==> s@[k] == p@[k],
        decreases m - i,
    {
        if s.get_char(i) != p.get_char(i) {
            return false;
        }
        i = i + 1;
    }
    assert(s@.subrange(0, m as int) =~= p@);
    true
}

/// A specifier of the `file` scheme.
pub open spec fn is_file_specifier(s: Seq<char>) -> bool {
    has_prefix(s, "file:"@)
}

pub fn is_file(specifier: &String) -> (r: bool)
    ensures
        r == is_file_specifier(specifier@),
{
    starts_with(specifier.as_str(), "file:")
}

/// The index of the last `/` before `to`, or -1.
pub open spec fn last_slash_before(s: Seq<char>, to: int) -> int
    decreases to,
{
    if to <= 0 {
        -1
    } else if s[to - 1] == '/' {
        to - 1
    } else {
        last_slash_before(s, to - 1)
    }
}

/// The folder of a specifier: the text before its last `/` (empty when it
/// has none).
pub open spec fn folder_of(s: Seq<char>) -> Seq<char> {
    let i = last_slash_before(s, s.len() as int);
    if i < 0 {
        Seq::empty()
    } else {
        s.subrange(0, i)
    }
}

pub fn folder(specifier: &str) -> (r: &str)
    ensures
        r@ == folder_of(specifier@),
{
    let n = specifier.unicode_len();
    let mut i: usize = n;
    while i > 0 && specifier.get_char(i - 1) != '/'
        invariant
            n == specifier@.len(),
            i <= n,
            last_slash_before(specifier@, i as int) == last_slash_before(specifier@, n as int),
        decreases i,
    {
        i = i - 1;
    }
    if i == 0 {
        specifier.substring_char(0, 0)
    } else {
        specifier.substring_char(0, i - 1)
    }
}

/// The folder that file specifiers are displayed relative to, after the
/// first `k` specifiers: the first folder, replaced by each later folder
/// that is a prefix of it.
pub open spec fn root_dir_after(specs: Seq<Seq<char>>) -> Option<Seq<char>>
    decreases specs.len(),
{
    if specs.len() == 0 {
        None
    } else {
        let prev = root_dir_after(specs.drop_last());
        let s = specs.last();
        if !is_file_specifier(s) {
            prev
        } else {
            let f = folder_of(s);
            match prev {
                None => Some(f),
                Some(r) => if has_prefix(r, f) {
                    Some(f)
                } else {
                    Some(r)
                },
            }
        }
    }
}

/// The root folder of the file specifiers; `file://` becomes `file:///`.
pub open spec fn root_dir_of(specs: Seq<Seq<char>>) -> Option<Seq<char>> {
    match root_dir_after(specs) {
        Some(r) => if r == "file://"@ {
            Some("file:///"@)
        } else {
            Some(r)
        },
        None => None,
    }
}

pub fn get_root_dir(specifiers: &Vec<String>) -> (r: Option<String>)
    ensures
        match (r, root_dir_of(specifiers.deep_view())) {
            (Some(a), Some(b)) => a@ == b,
            (None, None) => true,
            _ => false,
        },
{
    let mut root: Option<String> = None;
    let n = specifiers.len();
    let mut i: usize = 0;
    assert(specifiers.deep_view().subrange(0, 0) =~= Seq::<Seq<char>>::empty());
    while i < n
        invariant
            n == specifiers@.len(),
            i <= n,
            match (root, root_dir_after(specifiers.deep_view().subrange(0, i as int))) {
                (Some(a), Some(b)) => a@ == b,
                (None, None) => true,
                _ => false,
            },
        decreases n - i,
    {
        let s = &specifiers[i];
        proof {
            let pre = specifiers.deep_view().subrange(0, i as int + 1);
            assert(pre.drop_last() =~= specifiers.deep_view().subrange(0, i as int));
            assert(pre.last() == s@);
        }
        if is_file(s) {
            let f = folder(s.as_str());
            let replace = match &root {
                None => true,
                Some(r) => starts_with(r.as_str(), f),
            };
            if replace {
                root = Some(f.to_owned());
            }
        }
        i = i + 1;
    }
    assert(specifiers.deep_view().subrange(0, n as int) =~= specifiers.deep_view());
    match root {
        Some(r) => {
            let file_root = String::from_str("file://");
            if r == file_root {
                Some(String::from_str("file:///"))
            } else {
                Some(r)
            }
        },
        None => None,
    }
}

/// How a module is named in the packed output: a file specifier relative to
/// the root folder, any other specifier in full.
pub open spec fn displayed_specifier(root: Option<Seq<char>>, s: Seq<char>) -> Seq<char> {
    match root {
        Some(p) => if is_file_specifier(s) && has_prefix(s, p) {
            s.subrange(p.len() as int, s.len() as int)
        } else {
            s
        },
        None => s,
    }
}

pub fn display_specifier(root: &Option<String>, specifier: &String) -> (r: String)
    ensures
        r@ == displayed_specifier(opt_text(*root), specifier@),
{
    match root {
        Some(p) => {
            if is_file(specifier) && starts_with(specifier.as_str(), p.as_str()) {
                let n = specifier.as_str().unicode_len();
                let m = p.as_str().unicode_len();
                specifier.as_str().substring_char(m, n).to_owned()
            } else {
                specifier.clone()
            }
        },
        None => specifier.clone(),
    }
}

pub open spec fn opt_text(s: Option<String>) -> Option<Seq<char>> {
    match s {
        Some(t) => Some(t@),
        None => None,
    }
}

/// The namespace object of a JSON module: its text is the `default` member.
pub open spec fn json_block_text(display: Seq<char>, code: Seq<char>, json: Seq<char>) -> Seq<char> {
    "// "@ + display + "\nconst "@ + code + " = {\n  default: "@ + trimmed(json) + "\n};\n"@
}

pub fn json_block(display: &String, code: &String, json: &String) -> (r: String)
    ensures
        r@ == json_block_text(display@, code@, json@),
{
    let body = trim(json.as_str());
    let mut out = String::from_str("// ");
    out.append(display.as_str());
    out.append("\nconst ");
    out.append(code.as_str());
    out.append(" = {\n  default: ");
    out.append(body.as_str());
    out.append("\n};\n");
    proof {
        assert(out@ =~= json_block_text(display@, code@, json@));
    }
    out
}

/// An import that keeps a module outside the packed output.
pub open spec fn remote_import_text(code: Seq<char>, specifier: Seq<char>) -> Seq<char> {
    "import * as "@ + code + " from \""@ + specifier + "\";\n"@
}

pub fn remote_import(code: &String, specifier: &String) -> (r: String)
    ensures
        r@ == remote_import_text(code@, specifier@),
{
    let mut out = String::from_str("import * as ");
    out.append(code.as_str());
    out.append(" from \"");
    out.append(specifier.as_str());
    out.append("\";\n");
    proof {
        assert(out@ =~= remote_import_text(code@, specifier@));
    }
    out
}

} // verus!
