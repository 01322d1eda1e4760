use vstd::prelude::*;
use vstd::string::*;

use crate::registry::ModuleId;
use crate::syntax::{Ident, ImportSpecifier, ModuleExportName};

verus! {

/// A local import binding and the text that replaces each of its uses.
pub struct Alias {
    pub sym: String,
    pub scope: u64,
    pub text: String,
}

/// The replacement text of the binding `(sym, scope)`: the first entry for it.
pub open spec fn alias_lookup(table: Seq<Alias>, sym: Seq<char>, scope: u64) -> Option<Seq<char>>
    decreases table.len(),
{
    if table.len() == 0 {
        None
    } else if table[0].sym@ == sym && table[0].scope == scope {
        Some(table[0].text@)
    } else {
        alias_lookup(table.drop_first(), sym, scope)
    }
}

/// Looks up the replacement text of an identifier's binding.
pub fn lookup_alias<'a>(table: &'a Vec<Alias>, ident: &Ident) -> (r: Option<&'a String>)
    ensures
        match alias_lookup(table@, ident.sym@, ident.scope) {
            Some(t) => r is Some && r->0@ == t,
            None => r is None,
        },
{
    let n = table.len();
    let mut i: usize = 0;
    assert(table@.subrange(0, n as int) =~= table@);
    while i < n
        invariant
            n == table@.len(),
            i <= n,
            alias_lookup(table@, ident.sym@, ident.scope) == alias_lookup(
                table@.subrange(i as int, n as int),
                ident.sym@,
                ident.scope,
            ),
        decreases n - i,
    {
        proof {
            assert(table@.subrange(i as int, n as int).drop_first() =~= table@.subrange(
                i as int + 1,
                n as int,
            ));
        }
        if table[i].scope == ident.scope && table[i].sym == ident.sym {
            return Some(&table[i].text);
        }
        i = i + 1;
    }
    proof {
        assert(table@.subrange(n as int, n as int).len() == 0);
    }
    None
}

proof fn lemma_lookup_push(table: Seq<Alias>, a: Alias, sym: Seq<char>, scope: u64)
    ensures
        alias_lookup(table.push(a), sym, scope) == (if alias_lookup(table, sym, scope) is Some {
            alias_lookup(table, sym, scope)
        } else if a.sym@ == sym && a.scope == scope {
            Some(a.text@)
        } else {
            None
        }),
    decreases table.len(),
{
    if table.len() > 0 {
        assert(table.push(a)[0] == table[0]);
        assert(table.push(a).drop_first() =~= table.drop_first().push(a));
        lemma_lookup_push(table.drop_first(), a, sym, scope);
    } else {
        assert(table.push(a)[0] == a);
        assert(table.push(a).drop_first() =~= Seq::<Alias>::empty());
        assert(alias_lookup(Seq::<Alias>::empty(), sym, scope) is None);
    }
}

proof fn lemma_lookup_update(table: Seq<Alias>, i: int, a: Alias, sym: Seq<char>, scope: u64)
    requires
        0 <= i < table.len(),
        table[i].sym@ == a.sym@,
        table[i].scope == a.scope,
        forall|k: int| 0 <= k < i ==> !(#[trigger] table[k].sym@ == a.sym@ && table[k].scope == a.scope),
    ensures
        alias_lookup(table.update(i, a), sym, scope) == (if a.sym@ == sym && a.scope == scope {
            Some(a.text@)
        } else {
            alias_lookup(table, sym, scope)
        }),
    decreases table.len(),
{
    if i > 0 {
        assert(table.update(i, a).drop_first() =~= table.drop_first().update(i - 1, a));
        assert forall|k: int| 0 <= k < i - 1 implies !(#[trigger] table.drop_first()[k].sym@ == a.sym@
            && table.drop_first()[k].scope == a.scope) by {
            assert(table.drop_first()[k] == table[k + 1]);
        }
        lemma_lookup_update(table.drop_first(), i - 1, a, sym, scope);
    } else {
        assert(table.update(i, a).drop_first() =~= table.drop_first());
    }
}

/// Binds `sym` in `scope` to `text`, replacing an earlier binding of it.
pub fn insert_alias(table: &mut Vec<Alias>, sym: String, scope: u64, text: String)
    ensures
        forall|s: Seq<char>, sc: u64|
            #[trigger] alias_lookup(final(table)@, s, sc) == (if s == sym@ && sc == scope {
                Some(text@)
            } else {
                alias_lookup(old(table)@, s, sc)
            }),
{
    let n = table.len();
    let mut i: usize = 0;
    while i < n
        invariant
            n == table@.len(),
            i <= n,
            *table == *old(table),
            forall|k: int| 0 <= k < i ==> !(#[trigger] table@[k].sym@ == sym@ && table@[k].scope == scope),
        decreases n - i,
    {
        if table[i].scope == scope && table[i].sym == sym {
            let ghost before = table@;
            let a = Alias { sym, scope, text };
            let ghost ga = a;
            table.set(i, a);
            proof {
                assert forall|s: Seq<char>, sc: u64| #[trigger] alias_lookup(table@, s, sc) == (if s == ga.sym@ && sc == scope {
                    Some(ga.text@)
                } else {
                    alias_lookup(before, s, sc)
                }) by {
                    lemma_lookup_update(before, i as int, ga, s, sc);
                    assert(table@ =~= before.update(i as int, ga));
                }
            }
            return;
        }
        i = i + 1;
    }
    let ghost before = table@;
    let a = Alias { sym, scope, text };
    let ghost ga = a;
    table.push(a);
    proof {
        assert forall|s: Seq<char>, sc: u64| #[trigger] alias_lookup(table@, s, sc) == (if s == ga.sym@ && sc == scope {
            Some(ga.text@)
        } else {
            alias_lookup(before, s, sc)
        }) by {
            lemma_lookup_push(before, ga, s, sc);
            if s == ga.sym@ && sc == scope {
                lemma_lookup_absent(before, s, sc);
            }
        }
    }
}

proof fn lemma_lookup_absent(table: Seq<Alias>, sym: Seq<char>, scope: u64)
    requires
        forall|k: int| 0 <= k < table.len() ==> !(#[trigger] table[k].sym@ == sym && table[k].scope == scope),
    ensures
        alias_lookup(table, sym, scope) is None,
    decreases table.len(),
{
    if table.len() > 0 {
        assert forall|k: int| 0 <= k < table.drop_first().len() implies !(#[trigger] table.drop_first()[k].sym@ == sym
            && table.drop_first()[k].scope == scope) by {
            assert(table.drop_first()[k] == table[k + 1]);
        }
        lemma_lookup_absent(table.drop_first(), sym, scope);
    }
}

/// The text that stands for an import binding's uses, or `None` for a
/// type-only binding; `Err` for a string-named import.
pub open spec fn import_binding_text(s: ImportSpecifier, dep: ModuleId) -> Result<Option<Seq<char>>, ()> {
    match s {
        ImportSpecifier::Default { .. } => Ok(Some(dep.code_name() + ".default"@)),
        ImportSpecifier::Namespace { .. } => Ok(Some(dep.code_name())),
        ImportSpecifier::Named { local, imported, type_only } => {
            if type_only {
                Ok(None)
            } else {
                match imported {
                    None => Ok(Some(dep.code_name() + "."@ + local.sym@)),
                    Some(ModuleExportName::Ident(i)) => Ok(Some(dep.code_name() + "."@ + i.sym@)),
                    Some(ModuleExportName::Str(_)) => Err(()),
                }
            }
        },
    }
}

/// The local identifier an import binding introduces.
pub open spec fn import_local(s: ImportSpecifier) -> Ident {
    match s {
        ImportSpecifier::Default { local } => local,
        ImportSpecifier::Namespace { local } => local,
        ImportSpecifier::Named { local, .. } => local,
    }
}

/// The alias table after binding each of the specifiers in turn; `Err` when
/// one of them is named by a string.
pub open spec fn with_import_aliases(
    table: Seq<Alias>,
    specs: Seq<ImportSpecifier>,
    dep: ModuleId,
    sym: Seq<char>,
    scope: u64,
) -> Result<Option<Seq<char>>, ()>
    decreases specs.len(),
{
    if specs.len() == 0 {
        Ok(alias_lookup(table, sym, scope))
    } else {
        let last = specs.last();
        match import_binding_text(last, dep) {
            Err(_) => Err(()),
            Ok(None) => with_import_aliases(table, specs.drop_last(), dep, sym, scope),
            Ok(Some(t)) => match with_import_aliases(table, specs.drop_last(), dep, sym, scope) {
                Err(_) => Err(()),
                Ok(v) => Ok(if import_local(last).sym@ == sym && import_local(last).scope == scope {
                    Some(t)
                } else {
                    v
                }),
            },
        }
    }
}

/// Some specifier of the list is named by a string.
pub open spec fn has_string_import(specs: Seq<ImportSpecifier>, dep: ModuleId) -> bool {
    exists|i: int| 0 <= i < specs.len() && #[trigger] import_binding_text(specs[i], dep) is Err
}

proof fn lemma_with_import_aliases_ok(
    table: Seq<Alias>,
    specs: Seq<ImportSpecifier>,
    dep: ModuleId,
    sym: Seq<char>,
    scope: u64,
)
    ensures
        with_import_aliases(table, specs, dep, sym, scope) is Err <==> has_string_import(specs, dep),
    decreases specs.len(),
{
    if specs.len() > 0 {
        lemma_with_import_aliases_ok(table, specs.drop_last(), dep, sym, scope);
        if has_string_import(specs, dep) {
            let i = choose|i: int| 0 <= i < specs.len() && #[trigger] import_binding_text(specs[i], dep) is Err;
            if i < specs.len() - 1 {
                assert(specs.drop_last()[i] == specs[i]);
            }
        }
        if has_string_import(specs.drop_last(), dep) {
            let i = choose|i: int| 0 <= i < specs.drop_last().len() && #[trigger] import_binding_text(specs.drop_last()[i], dep) is Err;
            assert(specs[i] == specs.drop_last()[i]);
        }
    }
}

fn binding_text(s: &ImportSpecifier, dep: ModuleId) -> (r: Result<Option<String>, ()>)
    ensures
        match (r, import_binding_text(*s, dep)) {
            (Ok(Some(a)), Ok(Some(b))) => a@ == b,
            (Ok(None), Ok(None)) => true,
            (Err(_), Err(_)) => true,
            _ => false,
        },
{
    let mut text = dep.to_code_string();
    match s {
        ImportSpecifier::Default { .. } => {
            text.append(".default");
            Ok(Some(text))
        },
        ImportSpecifier::Namespace { .. } => Ok(Some(text)),
        ImportSpecifier::Named { local, imported, type_only } => {
            if *type_only {
                return Ok(None);
            }
            match imported {
                None => {
                    text.append(".");
                    text.append(local.sym.as_str());
                    Ok(Some(text))
                },
                Some(ModuleExportName::Ident(i)) => {
                    text.append(".");
                    text.append(i.sym.as_str());
                    Ok(Some(text))
                },
                Some(ModuleExportName::Str(_)) => Err(()),
            }
        },
    }
}

fn local_of(s: &ImportSpecifier) -> (r: &Ident)
    ensures
        *r == import_local(*s),
{
    match s {
        ImportSpecifier::Default { local } => local,
        ImportSpecifier::Namespace { local } => local,
        ImportSpecifier::Named { local, .. } => local,
    }
}

/// Binds the local names of an import declaration's specifiers to the
/// members of the dependency's namespace object `dep`. Fails when one is
/// named by a string.
pub fn add_import_aliases(table: &mut Vec<Alias>, specs: &Vec<ImportSpecifier>, dep: ModuleId) -> (r: Result<(), ()>)
    ensures
        r is Err <==> has_string_import(specs@, dep),
        r is Ok ==> forall|s: Seq<char>, sc: u64|
            Ok::<Option<Seq<char>>, ()>(#[trigger] alias_lookup(final(table)@, s, sc)) == with_import_aliases(
                old(table)@,
                specs@,
                dep,
                s,
                sc,
            ),
{
    let n = specs.len();
    let mut i: usize = 0;
    while i < n
        invariant
            n == specs@.len(),
            i <= n,
            !has_string_import(specs@.subrange(0, i as int), dep),
            forall|s: Seq<char>, sc: u64|
                Ok::<Option<Seq<char>>, ()>(#[trigger] alias_lookup(table@, s, sc)) == with_import_aliases(
                    old(table)@,
                    specs@.subrange(0, i as int),
                    dep,
                    s,
                    sc,
                ),
        decreases n - i,
    {
        let ghost prefix = specs@.subrange(0, i as int + 1);
        proof {
            assert(prefix.drop_last() =~= specs@.subrange(0, i as int));
            assert(prefix.last() == specs@[i as int]);
        }
        let t = binding_text(&specs[i], dep);
        match t {
            Err(_) => {
                proof {
                    assert(import_binding_text(specs@[i as int], dep) is Err);
                }
                return Err(());
            },
            Ok(None) => {
                proof {
                    assert forall|s: Seq<char>, sc: u64| Ok::<Option<Seq<char>>, ()>(#[trigger] alias_lookup(table@, s, sc)) == with_import_aliases(
                        old(table)@, prefix, dep, s, sc) by {}
                }
            },
            Ok(Some(text)) => {
                let local = local_of(&specs[i]);
                let ghost before = table@;
                insert_alias(table, local.sym.clone(), local.scope, text);
                proof {
                    assert forall|s: Seq<char>, sc: u64| Ok::<Option<Seq<char>>, ()>(#[trigger] alias_lookup(table@, s, sc)) == with_import_aliases(
                        old(table)@, prefix, dep, s, sc) by {
                        assert(Ok::<Option<Seq<char>>, ()>(alias_lookup(before, s, sc)) == with_import_aliases(
                            old(table)@, specs@.subrange(0, i as int), dep, s, sc));
                    }
                }
            },
        }
        proof {
            assert forall|k: int| 0 <= k < prefix.len() implies !(#[trigger] import_binding_text(prefix[k], dep) is Err) by {
                if k < i {
                    assert(prefix[k] == specs@.subrange(0, i as int)[k]);
                }
            }
        }
        i = i + 1;
    }
    proof {
        assert(specs@.subrange(0, n as int) =~= specs@);
    }
    Ok(())
}

/// The text the import specifiers bind `(sym, scope)` to: the last of them
/// that binds it, else `base`.
pub open spec fn bind_imports(
    specs: Seq<ImportSpecifier>,
    dep: ModuleId,
    sym: Seq<char>,
    scope: u64,
    base: Option<Seq<char>>,
) -> Option<Seq<char>>
    decreases specs.len(),
{
    if specs.len() == 0 {
        base
    } else {
        let prev = bind_imports(specs.drop_last(), dep, sym, scope, base);
        let last = specs.last();
        match import_binding_text(last, dep) {
            Ok(Some(t)) => if import_local(last).sym@ == sym && import_local(last).scope == scope {
                Some(t)
            } else {
                prev
            },
            _ => prev,
        }
    }
}

pub proof fn lemma_with_import_aliases_bind(
    table: Seq<Alias>,
    specs: Seq<ImportSpecifier>,
    dep: ModuleId,
    sym: Seq<char>,
    scope: u64,
)
    requires
        !has_string_import(specs, dep),
    ensures
        with_import_aliases(table, specs, dep, sym, scope) == Ok::<Option<Seq<char>>, ()>(
            bind_imports(specs, dep, sym, scope, alias_lookup(table, sym, scope)),
        ),
    decreases specs.len(),
{
    lemma_with_import_aliases_ok(table, specs, dep, sym, scope);
    if specs.len() > 0 {
        assert(!has_string_import(specs.drop_last(), dep)) by {
            if has_string_import(specs.drop_last(), dep) {
                let i = choose|i: int| 0 <= i < specs.drop_last().len() && #[trigger] import_binding_text(specs.drop_last()[i], dep) is Err;
                assert(specs[i] == specs.drop_last()[i]);
            }
        }
        lemma_with_import_aliases_bind(table, specs.drop_last(), dep, sym, scope);
    }
}

} // verus!
