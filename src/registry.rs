use vstd::prelude::*;
use vstd::string::*;

use crate::text::{decimal, decimal_text};
use crate::text_change::{disjoint_changes, overlaps, ChangeConflict, TextChange};

verus! {

/// The number a packing run gives a module, in the order modules are first met.
#[derive(Clone, Copy, Debug, PartialEq, Eq, Structural)]
pub struct ModuleId(pub usize);

impl ModuleId {
    /// The name of the module's namespace object.
    pub open spec fn code_name(self) -> Seq<char> {
        "pack"@ + decimal(self.0 as nat)
    }

    pub fn to_code_string(&self) -> (r: String)
        ensures
            r@ == self.code_name(),
    {
        let mut s = String::from_str("pack");
        let digits = decimal_text(self.0);
        s.append(digits.as_str());
        s
    }
}

/// A binding a module exports: the local name, and the exported name where
/// it differs.
pub struct ExportName {
    pub local_name: String,
    pub export_name: Option<String>,
}

impl ExportName {
    /// The name under which the binding is exported.
    pub open spec fn name(self) -> Seq<char> {
        match self.export_name {
            Some(s) => s@,
            None => self.local_name@,
        }
    }

    pub fn export_name(&self) -> (r: &String)
        ensures
            r@ == self.name(),
    {
        match &self.export_name {
            Some(s) => s,
            None => &self.local_name,
        }
    }
}

/// What a re-export forwards from the module it names.
pub enum ReExportName {
    /// `export { a as b } from "dep"`
    Named(ExportName),
    /// `export * as ns from "dep"`
    Namespace(String),
    /// `export * from "dep"`
    All,
}

pub struct ReExport {
    pub name: ReExportName,
    pub specifier: String,
    pub module_id: ModuleId,
}

/// What the packer learns of one module.
pub struct ModuleData {
    pub id: ModuleId,
    pub has_tla: bool,
    pub exports: Vec<ExportName>,
    pub re_exports: Vec<ReExport>,
    pub text_changes: Vec<TextChange>,
    pub requires_transpile: bool,
}

/// Some change of the list overlaps `c`.
pub open spec fn overlaps_any(cs: Seq<TextChange>, c: TextChange) -> bool {
    overlaps_span(cs, c.start as int, c.end as int)
}

/// Some change of the list overlaps the range `start..end`.
pub open spec fn overlaps_span(cs: Seq<TextChange>, start: int, end: int) -> bool {
    exists|i: int| 0 <= i < cs.len() && #[trigger] cs[i].start < end && start < cs[i].end
}

fn find_overlap(cs: &Vec<TextChange>, c: &TextChange) -> (r: bool)
    ensures
        r == overlaps_any(cs@, *c),
{
    let n = cs.len();
    let mut i: usize = 0;
    while i < n
        invariant
            n == cs@.len(),
            i <= n,
            forall|k: int| 0 <= k < i ==> !(#[trigger] cs@[k].start < c.end && c.start < cs@[k].end),
        decreases n - i,
    {
        if cs[i].start < c.end && c.start < cs[i].end {
            return true;
        }
        i = i + 1;
    }
    false
}

impl ModuleData {
    /// Each change is well formed and no two overlap.
    pub open spec fn wf(&self) -> bool {
        &&& disjoint_changes(self.text_changes@)
        &&& forall|i: int|
            0 <= i < self.text_changes@.len() ==> #[trigger] self.text_changes@[i].start
                <= self.text_changes@[i].end
    }

    pub fn new(id: ModuleId) -> (r: ModuleData)
        ensures
            r.id == id,
            !r.has_tla,
            !r.requires_transpile,
            r.exports@.len() == 0,
            r.re_exports@.len() == 0,
            r.text_changes@.len() == 0,
            r.wf(),
    {
        ModuleData {
            id,
            has_tla: false,
            exports: Vec::new(),
            re_exports: Vec::new(),
            text_changes: Vec::new(),
            requires_transpile: false,
        }
    }

    /// Records a change, unless it is malformed or overlaps one already recorded.
    pub fn add_text_change(&mut self, change: TextChange) -> (r: Result<(), ChangeConflict>)
        requires
            old(self).wf(),
        ensures
            final(self).wf(),
            final(self).id == old(self).id,
            final(self).has_tla == old(self).has_tla,
            final(self).requires_transpile == old(self).requires_transpile,
            final(self).exports == old(self).exports,
            final(self).re_exports == old(self).re_exports,
            r is Ok ==> final(self).text_changes@ == old(self).text_changes@.push(change),
            r is Err ==> final(self).text_changes@ == old(self).text_changes@,
            r is Err <==> change.start > change.end || overlaps_any(old(self).text_changes@, change),
            r == Err::<(), ChangeConflict>(ChangeConflict::OutOfBounds) <==> change.start > change.end,
    {
        if change.start > change.end {
            return Err(ChangeConflict::OutOfBounds);
        }
        if find_overlap(&self.text_changes, &change) {
            return Err(ChangeConflict::Overlap);
        }
        let ghost before = self.text_changes@;
        let ghost n = before.len();
        self.text_changes.push(change);
        proof {
            let after = self.text_changes@;
            assert forall|a: int, b: int|
                0 <= a < after.len() && 0 <= b < after.len() && a != b implies !overlaps(
                #[trigger] after[a],
                #[trigger] after[b],
            ) by {
                if a < n && b < n {
                    assert(!overlaps(before[a], before[b]));
                } else if a < n {
                    assert(!overlaps(before[a], change));
                } else {
                    assert(!overlaps(before[b], change));
                }
            }
        }
        Ok(())
    }

    /// Records the removal of the characters `start..end`.
    pub fn add_remove_range(&mut self, start: usize, end: usize) -> (r: Result<(), ChangeConflict>)
        requires
            old(self).wf(),
        ensures
            final(self).wf(),
            final(self).id == old(self).id,
            final(self).has_tla == old(self).has_tla,
            final(self).requires_transpile == old(self).requires_transpile,
            final(self).exports == old(self).exports,
            final(self).re_exports == old(self).re_exports,
            r is Ok ==> final(self).text_changes@.len() == old(self).text_changes@.len() + 1
                && final(self).text_changes@.last().start == start
                && final(self).text_changes@.last().end == end
                && final(self).text_changes@.last().new_text@ == Seq::<char>::empty()
                && final(self).text_changes@.drop_last() == old(self).text_changes@,
            r is Err ==> final(self).text_changes@ == old(self).text_changes@,
            r is Err <==> start > end || overlaps_span(old(self).text_changes@, start as int, end as int),
    {
        let change = TextChange::removal(start, end);
        let r = self.add_text_change(change);
        proof {
            if r is Ok {
                assert(self.text_changes@.drop_last() =~= old(self).text_changes@);
            }
        }
        r
    }

    /// Exports a local binding under its own name.
    pub fn add_export_name(&mut self, name: String)
        ensures
            final(self).exports@ == old(self).exports@.push(
                ExportName { local_name: name, export_name: None },
            ),
            final(self).id == old(self).id,
            final(self).has_tla == old(self).has_tla,
            final(self).requires_transpile == old(self).requires_transpile,
            final(self).re_exports == old(self).re_exports,
            final(self).text_changes == old(self).text_changes,
    {
        self.exports.push(ExportName { local_name: name, export_name: None });
    }
}

/// The names a module's own records export: its exports, its named
/// re-exports and its namespace re-exports.
pub open spec fn direct_names(d: ModuleData) -> Set<Seq<char>> {
    Set::new(
        |x: Seq<char>|
            (exists|i: int| 0 <= i < d.exports@.len() && #[trigger] d.exports@[i].name() == x)
                || (exists|i: int|
                0 <= i < d.re_exports@.len() && #[trigger] re_export_name(d.re_exports@[i]) == Some(
                    x,
                )),
    )
}

/// The name a named or namespace re-export adds; none for `export *`.
pub open spec fn re_export_name(r: ReExport) -> Option<Seq<char>> {
    match r.name {
        ReExportName::Named(e) => Some(e.name()),
        ReExportName::Namespace(s) => Some(s@),
        ReExportName::All => None,
    }
}

/// Module `k` is the source of an `export *` of `d`.
pub open spec fn exports_all_of(d: ModuleData, k: int) -> bool {
    exists|i: int|
        0 <= i < d.re_exports@.len() && (#[trigger] d.re_exports@[i]).name is All
            && d.re_exports@[i].module_id.0 == k
}

/// A chain of modules, each the source of an `export *` of the one before.
pub open spec fn export_all_path(ms: Seq<ModuleData>, p: Seq<int>) -> bool {
    &&& p.len() > 0
    &&& forall|i: int| 0 <= i < p.len() ==> 0 <= #[trigger] p[i] < ms.len()
    &&& forall|i: int| 0 < i < p.len() ==> exports_all_of(ms[p[i - 1]], #[trigger] p[i])
}

/// Every name that module `m` exports, following `export *` transitively.
pub open spec fn export_closure(ms: Seq<ModuleData>, m: int) -> Set<Seq<char>> {
    Set::new(
        |x: Seq<char>|
            exists|p: Seq<int>|
                #[trigger] export_all_path(ms, p) && p[0] == m && direct_names(ms[p.last()]).contains(x),
    )
}

/// Lexicographic order of texts, by code point.
pub open spec fn text_lt(a: Seq<char>, b: Seq<char>) -> bool
    decreases a.len(),
{
    if a.len() == 0 {
        b.len() > 0
    } else if b.len() == 0 {
        false
    } else if a[0] != b[0] {
        (a[0] as u32) < (b[0] as u32)
    } else {
        text_lt(a.drop_first(), b.drop_first())
    }
}

pub proof fn lemma_text_lt_irreflexive(a: Seq<char>)
    ensures
        !text_lt(a, a),
    decreases a.len(),
{
    if a.len() > 0 {
        lemma_text_lt_irreflexive(a.drop_first());
    }
}

pub proof fn lemma_text_lt_trans(a: Seq<char>, b: Seq<char>, c: Seq<char>)
    requires
        text_lt(a, b),
        text_lt(b, c),
    ensures
        text_lt(a, c),
    decreases a.len(),
{
    if a.len() > 0 && b.len() > 0 && c.len() > 0 && a[0] == b[0] && b[0] == c[0] {
        lemma_text_lt_trans(a.drop_first(), b.drop_first(), c.drop_first());
    }
}

pub proof fn lemma_text_lt_total(a: Seq<char>, b: Seq<char>)
    requires
        a != b,
    ensures
        text_lt(a, b) || text_lt(b, a),
    decreases a.len(),
{
    if a.len() > 0 && b.len() > 0 && a[0] == b[0] {
        if a.drop_first() == b.drop_first() {
            assert(a =~= seq![a[0]] + a.drop_first());
            assert(b =~= seq![b[0]] + b.drop_first());
        }
        lemma_text_lt_total(a.drop_first(), b.drop_first());
    } else if a.len() > 0 && b.len() > 0 {
        vstd::utf8::char_u32_cast(a[0], a[0] as u32);
        vstd::utf8::char_u32_cast(b[0], b[0] as u32);
    } else if a.len() == 0 && b.len() == 0 {
        assert(a =~= b);
    }
}

fn text_lt_exec(a: &String, b: &String) -> (r: bool)
    ensures
        r == text_lt(a@, b@),
{
    let sa = a.as_str();
    let sb = b.as_str();
    let na = sa.unicode_len();
    let nb = sb.unicode_len();
    let mut i: usize = 0;
    assert(a@.subrange(0, na as int) =~= a@);
    assert(b@.subrange(0, nb as int) =~= b@);
    while i < na && i < nb && sa.get_char(i) == sb.get_char(i)
        invariant
            na == a@.len(),
            nb == b@.len(),
            sa@ == a@,
            sb@ == b@,
            i <= na,
            i <= nb,
            text_lt(a@, b@) == text_lt(a@.subrange(i as int, na as int), b@.subrange(i as int, nb as int)),
        decreases na - i,
    {
        proof {
            let x = a@.subrange(i as int, na as int);
            let y = b@.subrange(i as int, nb as int);
            assert(x.drop_first() =~= a@.subrange(i as int + 1, na as int));
            assert(y.drop_first() =~= b@.subrange(i as int + 1, nb as int));
        }
        i = i + 1;
    }
    if i == na {
        i < nb
    } else if i == nb {
        false
    } else {
        (sa.get_char(i) as u32) < (sb.get_char(i) as u32)
    }
}

/// The list is in strictly increasing order, so it holds no name twice.
pub open spec fn strictly_sorted(s: Seq<Seq<char>>) -> bool {
    forall|i: int, j: int| 0 <= i < j < s.len() ==> text_lt(#[trigger] s[i], #[trigger] s[j])
}

/// Adds a name to a strictly sorted list, unless it is there already.
fn insert_name(names: &mut Vec<String>, name: &String)
    requires
        strictly_sorted(old(names).deep_view()),
    ensures
        strictly_sorted(final(names).deep_view()),
        final(names).deep_view().to_set() == old(names).deep_view().to_set().insert(name@),
{
    let ghost before = names.deep_view();
    let n = names.len();
    let mut j: usize = 0;
    while j < n && text_lt_exec(&names[j], name)
        invariant
            n == names@.len(),
            names.deep_view() == before,
            j <= n,
            forall|k: int| 0 <= k < j ==> text_lt(#[trigger] before[k], name@),
        decreases n - j,
    {
        j = j + 1;
    }
    if j < n && names[j] == *name {
        assert(before.to_set().insert(name@) =~= before.to_set()) by {
            assert(before[j as int] == name@);
            assert(before.contains(name@));
        }
        return;
    }
    proof {
        if j < n {
            lemma_text_lt_total(before[j as int], name@);
        }
    }
    let ghost cloned = name@;
    names.insert(j, name.clone());
    proof {
        let after = names.deep_view();
        assert(after =~= before.insert(j as int, cloned));
        assert forall|a: int, b: int| 0 <= a < b < after.len() implies text_lt(
            #[trigger] after[a],
            #[trigger] after[b],
        ) by {
            if b < j {
            } else if a < j && b == j {
            } else if a < j {
                assert(after[b] == before[b - 1]);
                lemma_text_lt_trans(before[a], name@, before[j as int]);
                if b - 1 > j {
                    lemma_text_lt_trans(before[a], before[j as int], before[b - 1]);
                }
            } else if a == j {
                assert(after[b] == before[b - 1]);
                if b - 1 > j {
                    lemma_text_lt_trans(name@, before[j as int], before[b - 1]);
                }
            } else {
                assert(after[a] == before[a - 1]);
                assert(after[b] == before[b - 1]);
            }
        }
        assert forall|x: Seq<char>| #[trigger] after.to_set().contains(x) == before.to_set().insert(
            name@,
        ).contains(x) by {
            if after.to_set().contains(x) {
                let k = choose|k: int| 0 <= k < after.len() && after[k] == x;
                if k < j {
                    assert(before[k] == x);
                } else if k > j {
                    assert(before[k - 1] == x);
                }
            }
            if before.to_set().insert(name@).contains(x) {
                if x == name@ {
                    assert(after[j as int] == x);
                } else {
                    let k = choose|k: int| 0 <= k < before.len() && before[k] == x;
                    if k < j {
                        assert(after[k] == x);
                    } else {
                        assert(after[k + 1] == x);
                    }
                }
            }
        }
        assert(after.to_set() =~= before.to_set().insert(name@));
    }
}

/// Every module a packing run has met, by specifier, numbered in the order
/// they were first met.
pub struct ModuleDataCollection {
    specifiers: Vec<String>,
    modules: Vec<ModuleData>,
}

/// The re-exports of each module name modules of the collection, by a
/// specifier and a number that agree.
pub open spec fn re_exports_resolved(keys: Seq<Seq<char>>, d: ModuleData) -> bool {
    forall|i: int|
        0 <= i < d.re_exports@.len() ==> {
            let r = #[trigger] d.re_exports@[i];
            &&& r.module_id.0 < keys.len()
            &&& keys[r.module_id.0 as int] == r.specifier@
        }
}

impl ModuleDataCollection {
    /// The specifiers, by module number.
    pub closed spec fn keys(&self) -> Seq<Seq<char>> {
        self.specifiers.deep_view()
    }

    /// The modules' data, by module number.
    pub closed spec fn entries(&self) -> Seq<ModuleData> {
        self.modules@
    }

    pub open spec fn wf(&self) -> bool {
        &&& self.keys().len() == self.entries().len()
        &&& forall|i: int| 0 <= i < self.entries().len() ==> (#[trigger] self.entries()[i]).id.0 == i
        &&& forall|i: int, j: int|
            0 <= i < self.keys().len() && 0 <= j < self.keys().len() && i != j ==> #[trigger] self.keys()[i]
                != #[trigger] self.keys()[j]
        &&& forall|i: int|
            0 <= i < self.entries().len() ==> re_exports_resolved(self.keys(), #[trigger] self.entries()[i])
        &&& forall|i: int| 0 <= i < self.entries().len() ==> (#[trigger] self.entries()[i]).wf()
    }

    /// The number of the module with this specifier, if it has been met.
    pub open spec fn index_of(&self, specifier: Seq<char>) -> Option<int> {
        if exists|i: int| 0 <= i < self.keys().len() && self.keys()[i] == specifier {
            Some(choose|i: int| 0 <= i < self.keys().len() && self.keys()[i] == specifier)
        } else {
            None
        }
    }

    pub fn new() -> (r: ModuleDataCollection)
        ensures
            r.wf(),
            r.keys().len() == 0,
    {
        ModuleDataCollection { specifiers: Vec::new(), modules: Vec::new() }
    }

    pub fn len(&self) -> (r: usize)
        requires
            self.wf(),
        ensures
            r == self.keys().len(),
    {
        self.modules.len()
    }

    fn find(&self, specifier: &String) -> (r: Option<usize>)
        requires
            self.wf(),
        ensures
            match r {
                Some(i) => i < self.keys().len() && self.keys()[i as int] == specifier@,
                None => forall|i: int| 0 <= i < self.keys().len() ==> self.keys()[i] != specifier@,
            },
    {
        let n = self.specifiers.len();
        let mut i: usize = 0;
        while i < n
            invariant
                n == self.keys().len(),
                i <= n,
                forall|k: int| 0 <= k < i ==> self.keys()[k] != specifier@,
            decreases n - i,
        {
            if self.specifiers[i] == *specifier {
                return Some(i);
            }
            i = i + 1;
        }
        None
    }

    pub proof fn lemma_index_of(&self, specifier: Seq<char>, i: int)
        requires
            self.wf(),
            0 <= i < self.keys().len(),
            self.keys()[i] == specifier,
        ensures
            self.index_of(specifier) == Some(i),
    {
    }

    /// The data of the module with this specifier, if it has been met.
    pub fn get(&self, specifier: &String) -> (r: Option<&ModuleData>)
        requires
            self.wf(),
        ensures
            match self.index_of(specifier@) {
                Some(i) => r == Some(&self.entries()[i]),
                None => r is None,
            },
    {
        match self.find(specifier) {
            Some(i) => {
                proof {
                    self.lemma_index_of(specifier@, i as int);
                }
                Some(&self.modules[i])
            },
            None => None,
        }
    }

    /// The number of the module with this specifier; a module not met before
    /// gets the next number and empty data.
    pub fn get_mut(&mut self, specifier: &String) -> (r: ModuleId)
        requires
            old(self).wf(),
        ensures
            final(self).wf(),
            match old(self).index_of(specifier@) {
                Some(i) => r.0 == i && *final(self) == *old(self),
                None => {
                    &&& r.0 == old(self).keys().len()
                    &&& final(self).keys() == old(self).keys().push(specifier@)
                    &&& final(self).entries().drop_last() == old(self).entries()
                    &&& final(self).entries().last().id == r
                    &&& final(self).entries().last().exports@.len() == 0
                    &&& final(self).entries().last().re_exports@.len() == 0
                    &&& final(self).entries().last().text_changes@.len() == 0
                    &&& !final(self).entries().last().has_tla
                    &&& !final(self).entries().last().requires_transpile
                },
            },
            final(self).index_of(specifier@) == Some(r.0 as int),
    {
        match self.find(specifier) {
            Some(i) => {
                proof {
                    self.lemma_index_of(specifier@, i as int);
                }
                ModuleId(i)
            },
            None => {
                let id = ModuleId(self.modules.len());
                let ghost old_keys = self.keys();
                let ghost old_entries = self.entries();
                self.specifiers.push(specifier.clone());
                self.modules.push(ModuleData::new(id));
                proof {
                    assert(self.keys() =~= old_keys.push(specifier@));
                    assert(self.entries().drop_last() =~= old_entries);
                    assert forall|i: int| 0 <= i < self.entries().len() implies re_exports_resolved(
                        self.keys(),
                        #[trigger] self.entries()[i],
                    ) by {
                        if i < old_entries.len() {
                            assert(self.entries()[i] == old_entries[i]);
                            assert(re_exports_resolved(old_keys, old_entries[i]));
                            let d = old_entries[i];
                            assert forall|k: int| 0 <= k < d.re_exports@.len() implies {
                                let r = #[trigger] d.re_exports@[k];
                                &&& r.module_id.0 < self.keys().len()
                                &&& self.keys()[r.module_id.0 as int] == r.specifier@
                            } by {
                                let r = d.re_exports@[k];
                                assert(self.keys()[r.module_id.0 as int] == old_keys[r.module_id.0 as int]);
                            }
                        }
                    }
                    self.lemma_index_of(specifier@, id.0 as int);
                }
                id
            },
        }
    }

    /// Marks every module that module `m` reaches through `export *`
    /// chains, itself included; each module is read once.
    fn reachable_modules(&self, m: usize) -> (r: Vec<bool>)
        requires
            self.wf(),
            m < self.entries().len(),
        ensures
            r@.len() == self.entries().len(),
            forall|k: int|
                0 <= k < r@.len() ==> (#[trigger] r@[k] <==> exists|p: Seq<int>|
                    export_all_path(self.entries(), p) && p[0] == m && p.last() == k),
    {
        let ghost ms = self.entries();
        let n = self.modules.len();
        let mut visited: Vec<bool> = Vec::new();
        let mut i: usize = 0;
        while i < n
            invariant
                i <= n,
                visited@.len() == i,
                forall|k: int| 0 <= k < i ==> !visited@[k],
            decreases n - i,
        {
            visited.push(false);
            i = i + 1;
        }
        visited.set(m, true);
        let mut stack: Vec<usize> = Vec::new();
        stack.push(m);
        let ghost mut done: Set<int> = Set::empty();
        let ghost mut vis: Set<int> = set![m as int];
        proof {
            let p0 = seq![m as int];
            assert(export_all_path(ms, p0));
            assert(p0[0] == m && p0.last() == m);
            assert(stack@[0] == m);
            assert forall|k: int| #[trigger] vis.contains(k) <==> 0 <= k < n && visited@[k] by {
                if 0 <= k < n && k != m {
                    assert(!visited@[k]);
                }
            }
        }
        while stack.len() > 0
            invariant
                self.wf(),
                ms == self.entries(),
                n == ms.len(),
                m < n,
                visited@.len() == n,
                vis.finite(),
                forall|k: int| #[trigger] vis.contains(k) <==> 0 <= k < n && visited@[k],
                forall|i: int| 0 <= i < stack@.len() ==> #[trigger] stack@[i] < n && visited@[stack@[i] as int],
                forall|k: int| #[trigger] done.contains(k) ==> vis.contains(k),
                forall|k: int|
                    #[trigger] vis.contains(k) ==> done.contains(k) || stack@.contains(k as usize),
                forall|k: int|
                    0 <= k < n && #[trigger] visited@[k] ==> exists|p: Seq<int>|
                        export_all_path(ms, p) && p[0] == m && p.last() == k,
                visited@[m as int],
                forall|k: int, j: int|
                    #[trigger] done.contains(k) && 0 <= j < ms[k].re_exports@.len() && (
                    #[trigger] ms[k].re_exports@[j]).name is All ==> visited@[ms[k].re_exports@[j].module_id.0 as int],
            decreases n - vis.len(), stack.len(),
        {
            proof {
                vstd::set_lib::lemma_int_range(0, n as int);
                assert(vis.subset_of(vstd::set_lib::set_int_range(0, n as int)));
                vstd::set_lib::lemma_len_subset(vis, vstd::set_lib::set_int_range(0, n as int));
            }
            let ghost stack_before = stack@;
            let k = stack.pop().unwrap();
            proof {
                assert(stack_before == stack@.push(k));
                assert forall|q: int| #[trigger] vis.contains(q) implies q == k || done.contains(q) || stack@.contains(q as usize) by {
                    if !done.contains(q) {
                        let w = choose|w: int| 0 <= w < stack_before.len() && stack_before[w] == q as usize;
                        if w < stack@.len() {
                            assert(stack@[w] == q as usize);
                        }
                    }
                }
            }
            let ghost vis0 = vis;
            let ghost len0 = stack@.len();
            proof {
                assert(stack_before[stack_before.len() - 1] == k);
                assert(visited@[k as int]);
                assert(vis.contains(k as int));
            }
            let d = &self.modules[k];
            let ghost dk = ms[k as int];
            let nr = d.re_exports.len();
            let mut j: usize = 0;
            while j < nr
                invariant
                    self.wf(),
                    ms == self.entries(),
                    *d == dk,
                    dk == ms[k as int],
                    k < n,
                    m < n,
                    n == ms.len(),
                    visited@.len() == n,
                    nr == dk.re_exports@.len(),
                    j <= nr,
                    exists|p: Seq<int>| export_all_path(ms, p) && p[0] == m && p.last() == k,
                    vis.finite(),
                    vis0.subset_of(vis),
                    vis.contains(k as int),
                    visited@[m as int],
                    forall|q: int| #[trigger] vis.contains(q) <==> 0 <= q < n && visited@[q],
                    forall|i: int| 0 <= i < stack@.len() ==> #[trigger] stack@[i] < n && visited@[stack@[i] as int],
                    forall|q: int| #[trigger] done.contains(q) ==> vis.contains(q),
                    vis.len() >= vis0.len(),
                    forall|q: int|
                        #[trigger] vis.contains(q) ==> q == k || done.contains(q) || stack@.contains(q as usize),
                    len0 <= stack@.len(),
                    stack@.len() > len0 ==> vis.len() > vis0.len(),
                    stack@.len() == len0 ==> vis == vis0,
                    forall|q: int|
                        0 <= q < n && #[trigger] visited@[q] ==> exists|p: Seq<int>|
                            export_all_path(ms, p) && p[0] == m && p.last() == q,
                    forall|q: int, i: int|
                        #[trigger] done.contains(q) && 0 <= i < ms[q].re_exports@.len() && (
                        #[trigger] ms[q].re_exports@[i]).name is All ==> visited@[ms[q].re_exports@[i].module_id.0 as int],
                    forall|i: int|
                        0 <= i < j && (#[trigger] dk.re_exports@[i]).name is All ==> visited@[dk.re_exports@[i].module_id.0 as int],
                decreases nr - j,
            {
                let r = &d.re_exports[j];
                if let ReExportName::All = r.name {
                    let t = r.module_id.0;
                    proof {
                        assert(re_exports_resolved(self.keys(), dk));
                        assert(t < self.keys().len());
                    }
                    if !visited[t] {
                        proof {
                            assert(exports_all_of(ms[k as int], t as int));
                            let path = choose|p: Seq<int>| export_all_path(ms, p) && p[0] == m && p.last() == k;
                            lemma_path_step(ms, path, t as int);
                        }
                        let ghost stack_mid = stack@;
                        let ghost vis_mid = vis;
                        visited.set(t, true);
                        stack.push(t);
                        proof {
                            vis = vis.insert(t as int);
                            assert(stack@.last() == t);
                            assert(stack@.contains(t));
                            assert forall|q: int| #[trigger] vis.contains(q) implies q == k || done.contains(q) || stack@.contains(q as usize) by {
                                if q != t && q != k && !done.contains(q) {
                                    assert(vis_mid.contains(q));
                                    let w = choose|w: int| 0 <= w < stack_mid.len() && stack_mid[w] == q as usize;
                                    assert(stack@[w] == q as usize);
                                }
                            }
                            assert(vis.len() == vis_mid.len() + 1);
                        }
                    }
                }
                j = j + 1;
            }
            proof {
                let done0 = done;
                done = done.insert(k as int);
                assert forall|q: int, i: int|
                    #[trigger] done.contains(q) && 0 <= i < ms[q].re_exports@.len() && (
                    #[trigger] ms[q].re_exports@[i]).name is All implies visited@[ms[q].re_exports@[i].module_id.0 as int] by {
                    if q != k {
                        assert(done0.contains(q));
                    }
                }
                if stack@.len() <= len0 {
                    assert(vis =~= vis0);
                }
                vstd::set_lib::lemma_int_range(0, n as int);
                assert(vis.subset_of(vstd::set_lib::set_int_range(0, n as int)));
                vstd::set_lib::lemma_len_subset(vis, vstd::set_lib::set_int_range(0, n as int));
            }
        }
        proof {
            assert forall|k: int| 0 <= k < visited@.len() implies (#[trigger] visited@[k] <==> exists|p: Seq<int>|
                export_all_path(ms, p) && p[0] == m && p.last() == k) by {
                if exists|p: Seq<int>| export_all_path(ms, p) && p[0] == m && p.last() == k {
                    let p = choose|p: Seq<int>| export_all_path(ms, p) && p[0] == m && p.last() == k;
                    assert(vis.contains(m as int));
                    assert forall|q: int| 0 <= q < ms.len() && #[trigger] visited@[q] implies done.contains(q) by {
                        assert(vis.contains(q));
                    }
                    lemma_closed_path(ms, visited@, done, p, p.len() - 1);
                }
            }
        }
        visited
    }

    /// All names that the module with this specifier exports, following
    /// `export *` transitively, in increasing order; none for a module not met.
    pub fn get_export_names(&self, specifier: &String) -> (r: Vec<String>)
        requires
            self.wf(),
        ensures
            strictly_sorted(r.deep_view()),
            match self.index_of(specifier@) {
                Some(m) => r.deep_view().to_set() == export_closure(self.entries(), m),
                None => r@.len() == 0,
            },
    {
        let mut names: Vec<String> = Vec::new();
        let m = match self.find(specifier) {
            None => {
                return names;
            },
            Some(m) => m,
        };
        proof {
            self.lemma_index_of(specifier@, m as int);
            assert(names.deep_view().to_set() =~= Set::<Seq<char>>::empty());
        }
        let ghost ms = self.entries();
        let reach = self.reachable_modules(m);
        let n = self.modules.len();
        let mut k: usize = 0;
        while k < n
            invariant
                self.wf(),
                ms == self.entries(),
                n == ms.len(),
                reach@.len() == n,
                k <= n,
                forall|q: int|
                    0 <= q < n ==> (#[trigger] reach@[q] <==> exists|p: Seq<int>|
                        export_all_path(ms, p) && p[0] == m && p.last() == q),
                strictly_sorted(names.deep_view()),
                names.deep_view().to_set() == Set::new(
                    |x: Seq<char>|
                        exists|q: int| 0 <= q < k && reach@[q] && #[trigger] direct_names(ms[q]).contains(x),
                ),
            decreases n - k,
        {
            let ghost before = names.deep_view().to_set();
            if reach[k] {
                add_direct_names(&mut names, &self.modules[k]);
            }
            proof {
                let target = Set::new(
                    |x: Seq<char>|
                        exists|q: int| 0 <= q < k + 1 && reach@[q] && #[trigger] direct_names(ms[q]).contains(x),
                );
                assert forall|x: Seq<char>| names.deep_view().to_set().contains(x) == target.contains(x) by {
                    if target.contains(x) {
                        let q = choose|q: int| 0 <= q < k + 1 && reach@[q] && #[trigger] direct_names(ms[q]).contains(x);
                        if q < k {
                            assert(before.contains(x));
                        }
                    }
                    if names.deep_view().to_set().contains(x) && !before.contains(x) {
                        assert(direct_names(ms[k as int]).contains(x));
                    }
                }
                assert(names.deep_view().to_set() =~= target);
            }
            k = k + 1;
        }
        proof {
            assert forall|x: Seq<char>| names.deep_view().to_set().contains(x) == export_closure(ms, m as int).contains(x) by {
                if export_closure(ms, m as int).contains(x) {
                    let p = choose|p: Seq<int>| #[trigger] export_all_path(ms, p) && p[0] == m && direct_names(ms[p.last()]).contains(x);
                    let q = p.last();
                    assert(reach@[q]);
                }
                if names.deep_view().to_set().contains(x) {
                    let q = choose|q: int| 0 <= q < n && reach@[q] && #[trigger] direct_names(ms[q]).contains(x);
                    let p = choose|p: Seq<int>| export_all_path(ms, p) && p[0] == m && p.last() == q;
                    assert(export_all_path(ms, p) && p[0] == m && direct_names(ms[p.last()]).contains(x));
                }
            }
            assert(names.deep_view().to_set() =~= export_closure(ms, m as int));
        }
        names
    }

    /// Stores the data of a module that has been met.
    pub fn set(&mut self, data: ModuleData)
        requires
            old(self).wf(),
            data.id.0 < old(self).keys().len(),
            data.wf(),
            re_exports_resolved(old(self).keys(), data),
        ensures
            final(self).wf(),
            final(self).keys() == old(self).keys(),
            final(self).entries() == old(self).entries().update(data.id.0 as int, data),
    {
        let i = data.id.0;
        let ghost d = data;
        self.modules.set(i, data);
        proof {
            assert(self.entries() =~= old(self).entries().update(i as int, d));
        }
    }
}

/// Adds a module's own export names to a strictly sorted list.
fn add_direct_names(names: &mut Vec<String>, d: &ModuleData)
    requires
        strictly_sorted(old(names).deep_view()),
    ensures
        strictly_sorted(final(names).deep_view()),
        final(names).deep_view().to_set() == old(names).deep_view().to_set() + direct_names(*d),
{
    let ghost start = names.deep_view().to_set();
    let ne = d.exports.len();
    let mut j: usize = 0;
    while j < ne
        invariant
            ne == d.exports@.len(),
            j <= ne,
            strictly_sorted(names.deep_view()),
            names.deep_view().to_set() == start + Set::new(
                |x: Seq<char>| exists|i: int| 0 <= i < j && #[trigger] d.exports@[i].name() == x,
            ),
        decreases ne - j,
    {
        let ghost before = names.deep_view().to_set();
        insert_name(names, d.exports[j].export_name());
        proof {
            assert(names.deep_view().to_set() =~= start + Set::new(
                |x: Seq<char>| exists|i: int| 0 <= i < j + 1 && #[trigger] d.exports@[i].name() == x,
            )) by {
                assert forall|x: Seq<char>| #[trigger] names.deep_view().to_set().contains(x) == (start + Set::new(
                    |x: Seq<char>| exists|i: int| 0 <= i < j + 1 && #[trigger] d.exports@[i].name() == x,
                )).contains(x) by {
                    if exists|i: int| 0 <= i < j + 1 && #[trigger] d.exports@[i].name() == x {
                        let i = choose|i: int| 0 <= i < j + 1 && #[trigger] d.exports@[i].name() == x;
                        if i < j {
                            assert(before.contains(x));
                        }
                    }
                }
            }
        }
        j = j + 1;
    }
    let nr = d.re_exports.len();
    let mut j: usize = 0;
    let ghost mid = names.deep_view().to_set();
    while j < nr
        invariant
            nr == d.re_exports@.len(),
            j <= nr,
            strictly_sorted(names.deep_view()),
            names.deep_view().to_set() == mid + Set::new(
                |x: Seq<char>| exists|i: int| 0 <= i < j && #[trigger] re_export_name(d.re_exports@[i]) == Some(x),
            ),
        decreases nr - j,
    {
        let ghost before = names.deep_view().to_set();
        match &d.re_exports[j].name {
            ReExportName::Named(e) => {
                assert(re_export_name(d.re_exports@[j as int]) == Some(e.name()));
                insert_name(names, e.export_name());
            },
            ReExportName::Namespace(ns) => {
                assert(re_export_name(d.re_exports@[j as int]) == Some(ns@));
                insert_name(names, ns);
            },
            ReExportName::All => {
                assert(re_export_name(d.re_exports@[j as int]) is None);
            },
        }
        proof {
            assert(names.deep_view().to_set() =~= mid + Set::new(
                |x: Seq<char>| exists|i: int| 0 <= i < j + 1 && #[trigger] re_export_name(d.re_exports@[i]) == Some(x),
            )) by {
                assert forall|x: Seq<char>| #[trigger] names.deep_view().to_set().contains(x) == (mid + Set::new(
                    |x: Seq<char>| exists|i: int| 0 <= i < j + 1 && #[trigger] re_export_name(d.re_exports@[i]) == Some(x),
                )).contains(x) by {
                    if exists|i: int| 0 <= i < j + 1 && #[trigger] re_export_name(d.re_exports@[i]) == Some(x) {
                        let i = choose|i: int| 0 <= i < j + 1 && #[trigger] re_export_name(d.re_exports@[i]) == Some(x);
                        if i < j {
                            assert(before.contains(x));
                        }
                    }
                }
            }
        }
        j = j + 1;
    }
    proof {
        assert(names.deep_view().to_set() =~= start + direct_names(*d));
    }
}

proof fn lemma_path_step(ms: Seq<ModuleData>, p: Seq<int>, t: int)
    requires
        export_all_path(ms, p),
        0 <= t < ms.len(),
        exports_all_of(ms[p.last()], t),
    ensures
        export_all_path(ms, p.push(t)),
        p.push(t)[0] == p[0],
        p.push(t).last() == t,
{
    let q = p.push(t);
    assert forall|i: int| 0 < i < q.len() implies exports_all_of(ms[q[i - 1]], #[trigger] q[i]) by {
        if i < p.len() {
            assert(q[i] == p[i] && q[i - 1] == p[i - 1]);
        }
    }
}

proof fn lemma_closed_path(ms: Seq<ModuleData>, visited: Seq<bool>, done: Set<int>, p: Seq<int>, i: int)
    requires
        export_all_path(ms, p),
        0 <= i < p.len(),
        visited.len() == ms.len(),
        done.contains(p[0]),
        forall|k: int| 0 <= k < ms.len() && #[trigger] visited[k] ==> done.contains(k),
        forall|k: int, j: int|
            #[trigger] done.contains(k) && 0 <= j < ms[k].re_exports@.len() && (
            #[trigger] ms[k].re_exports@[j]).name is All ==> visited[ms[k].re_exports@[j].module_id.0 as int],
    ensures
        done.contains(p[i]),
    decreases i,
{
    if i > 0 {
        lemma_closed_path(ms, visited, done, p, i - 1);
        let a = p[i - 1];
        assert(exports_all_of(ms[a], p[i]));
        let j = choose|j: int|
            0 <= j < ms[a].re_exports@.len() && (#[trigger] ms[a].re_exports@[j]).name is All
                && ms[a].re_exports@[j].module_id.0 == p[i];
        assert(visited[p[i]]);
    }
}

/// No two text changes recorded for a module overlap, for every module of
/// the registry.
pub proof fn lemma_registry_changes_disjoint(c: ModuleDataCollection, i: int)
    requires
        c.wf(),
        0 <= i < c.entries().len(),
    ensures
        disjoint_changes(c.entries()[i].text_changes@),
{
    assert(c.entries()[i].wf());
}

/// Distinct specifiers met in one run have distinct module numbers.
pub proof fn lemma_module_ids_distinct(c: ModuleDataCollection, s1: Seq<char>, s2: Seq<char>)
    requires
        c.wf(),
        c.index_of(s1) is Some,
        c.index_of(s2) is Some,
        s1 != s2,
    ensures
        c.entries()[c.index_of(s1)->0].id != c.entries()[c.index_of(s2)->0].id,
{
}

/// A specifier keeps its module number as the registry grows: meeting more
/// modules never renumbers one already met.
pub proof fn lemma_module_id_stable(c: ModuleDataCollection, later: ModuleDataCollection, s: Seq<char>)
    requires
        c.wf(),
        later.wf(),
        c.keys().len() <= later.keys().len(),
        forall|i: int| 0 <= i < c.keys().len() ==> #[trigger] later.keys()[i] == c.keys()[i],
        c.index_of(s) is Some,
    ensures
        later.index_of(s) == c.index_of(s),
{
    let i = c.index_of(s)->0;
    assert(later.keys()[i] == s);
    later.lemma_index_of(s, i);
}

/// A list in strictly increasing order holds each of its names once.
pub proof fn lemma_strictly_sorted_once(names: Seq<Seq<char>>, x: Seq<char>, i: int, j: int)
    requires
        strictly_sorted(names),
        0 <= i < names.len(),
        0 <= j < names.len(),
        names[i] == x,
        names[j] == x,
    ensures
        i == j,
{
    if i < j {
        lemma_text_lt_irreflexive(x);
    } else if j < i {
        lemma_text_lt_irreflexive(x);
    }
}

/// Through a chain of `export *` (module `c` re-exports all of `b`, which
/// re-exports all of `a`), a name that `a` exports is among the names of
/// `c`, whatever cycles the rest of the graph holds; the list that
/// `get_export_names` gives for `c` holds it exactly once.
pub proof fn lemma_export_all_chain(
    ms: Seq<ModuleData>,
    a: int,
    b: int,
    c: int,
    x: Seq<char>,
    names: Seq<Seq<char>>,
)
    requires
        0 <= a < ms.len(),
        0 <= b < ms.len(),
        0 <= c < ms.len(),
        direct_names(ms[a]).contains(x),
        exports_all_of(ms[b], a),
        exports_all_of(ms[c], b),
        strictly_sorted(names),
        names.to_set() == export_closure(ms, c),
    ensures
        export_closure(ms, c).contains(x),
        exists|i: int| 0 <= i < names.len() && names[i] == x,
        forall|i: int, j: int| 0 <= i < names.len() && 0 <= j < names.len() && names[i] == x && names[j] == x ==> i == j,
{
    let p = seq![c, b, a];
    assert(export_all_path(ms, p)) by {
        assert forall|i: int| 0 < i < p.len() implies exports_all_of(ms[p[i - 1]], #[trigger] p[i]) by {
            if i == 1 {
                assert(p[0] == c && p[1] == b);
            } else {
                assert(p[1] == b && p[2] == a);
            }
        }
    }
    assert(p[0] == c && p.last() == a);
    assert(export_closure(ms, c).contains(x));
    assert(names.to_set().contains(x));
    assert forall|i: int, j: int| 0 <= i < names.len() && 0 <= j < names.len() && names[i] == x && names[j] == x implies i == j by {
        lemma_strictly_sorted_once(names, x, i, j);
    }
}

/// Two lists in strictly increasing order with the same names are equal.
pub proof fn lemma_strictly_sorted_unique(a: Seq<Seq<char>>, b: Seq<Seq<char>>)
    requires
        strictly_sorted(a),
        strictly_sorted(b),
        a.to_set() == b.to_set(),
    ensures
        a == b,
    decreases a.len() + b.len(),
{
    if a.len() == 0 || b.len() == 0 {
        if a.len() > 0 {
            assert(a.to_set().contains(a[0]));
        }
        if b.len() > 0 {
            assert(b.to_set().contains(b[0]));
        }
        assert(a =~= b);
    } else {
        // the first elements are both the least name
        assert(a.to_set().contains(a[0]));
        assert(b.to_set().contains(b[0]));
        let i = choose|i: int| 0 <= i < b.len() && b[i] == a[0];
        let j = choose|j: int| 0 <= j < a.len() && a[j] == b[0];
        if i > 0 {
            assert(text_lt(b[0], b[i]));
            if j > 0 {
                assert(text_lt(a[0], a[j]));
                lemma_text_lt_trans(a[0], b[0], a[0]);
                lemma_text_lt_irreflexive(a[0]);
            } else {
                lemma_text_lt_irreflexive(a[0]);
            }
        }
        assert(b[0] == a[0]);
        let a1 = a.drop_first();
        let b1 = b.drop_first();
        assert forall|x: Seq<char>| a1.to_set().contains(x) == b1.to_set().contains(x) by {
            if a1.to_set().contains(x) {
                let k = choose|k: int| 0 <= k < a1.len() && a1[k] == x;
                assert(a[k + 1] == x);
                assert(text_lt(a[0], x));
                assert(b.to_set().contains(x));
                let m = choose|m: int| 0 <= m < b.len() && b[m] == x;
                if m == 0 {
                    lemma_text_lt_irreflexive(x);
                }
                assert(b1[m - 1] == x);
            }
            if b1.to_set().contains(x) {
                let k = choose|k: int| 0 <= k < b1.len() && b1[k] == x;
                assert(b[k + 1] == x);
                assert(text_lt(b[0], x));
                assert(a.to_set().contains(x));
                let m = choose|m: int| 0 <= m < a.len() && a[m] == x;
                if m == 0 {
                    lemma_text_lt_irreflexive(x);
                }
                assert(a1[m - 1] == x);
            }
        }
        assert(a1.to_set() =~= b1.to_set());
        assert forall|p: int, q: int| 0 <= p < q < a1.len() implies text_lt(#[trigger] a1[p], #[trigger] a1[q]) by {
            assert(text_lt(a[p + 1], a[q + 1]));
        }
        assert forall|p: int, q: int| 0 <= p < q < b1.len() implies text_lt(#[trigger] b1[p], #[trigger] b1[q]) by {
            assert(text_lt(b[p + 1], b[q + 1]));
        }
        lemma_strictly_sorted_unique(a1, b1);
        assert(a =~= seq![a[0]] + a1);
        assert(b =~= seq![b[0]] + b1);
    }
}

/// The names of a module in the order `get_export_names` lists them.
pub open spec fn sorted_export_names(c: ModuleDataCollection, specifier: Seq<char>) -> Seq<Seq<char>> {
    match c.index_of(specifier) {
        Some(m) => choose|s: Seq<Seq<char>>| strictly_sorted(s) && s.to_set() == export_closure(c.entries(), m),
        None => Seq::empty(),
    }
}

/// The list `get_export_names` gives is the one `sorted_export_names` names.
pub proof fn lemma_sorted_export_names(c: ModuleDataCollection, specifier: Seq<char>, r: Seq<Seq<char>>)
    requires
        strictly_sorted(r),
        match c.index_of(specifier) {
            Some(m) => r.to_set() == export_closure(c.entries(), m),
            None => r.len() == 0,
        },
    ensures
        r == sorted_export_names(c, specifier),
{
    match c.index_of(specifier) {
        Some(m) => {
            let s = choose|s: Seq<Seq<char>>| strictly_sorted(s) && s.to_set() == export_closure(c.entries(), m);
            lemma_strictly_sorted_unique(r, s);
        },
        None => {
            assert(r =~= Seq::<Seq<char>>::empty());
        },
    }
}

} // verus!
