use vstd::prelude::*;
use vstd::string::*;

use crate::aliases::{alias_lookup, lookup_alias, Alias};
use crate::registry::ModuleData;
use crate::syntax::{Accessibility, DefaultDecl, ExportedDecl, Ident, Modifiers, Node, NodeKind, Token};
use crate::text::{next_non_white, prev_non_white, skip_white, skip_white_back, lemma_skip_white_bounds, lemma_skip_white_back_bounds};
use crate::text_change::{changes_in_bounds, ChangeConflict, TextChange};

verus! {

/// Why a module's rewrite stopped.
#[derive(Clone, Copy, Debug, PartialEq, Eq, Structural)]
pub enum RewriteError {
    /// A change would overlap another or leave the text.
    Conflict(ChangeConflict),
    /// The syntax model lacks a token or a child that its nodes imply.
    MissingToken,
}

/// The token covers `start..end` or a part of it, and reads `text`.
pub open spec fn token_in(t: Token, start: int, end: int, text: Seq<char>) -> bool {
    start <= t.start && t.end <= end && t.text@ == text
}

/// The first token from index `i` on that lies within `start..end` and
/// reads `text`.
pub open spec fn find_token(ts: Seq<Token>, i: int, start: int, end: int, text: Seq<char>) -> Option<int>
    decreases ts.len() - i,
{
    if i < 0 || i >= ts.len() {
        None
    } else if token_in(ts[i], start, end, text) {
        Some(i)
    } else {
        find_token(ts, i + 1, start, end, text)
    }
}

/// The first token from index `i` on that starts at or after `pos`.
pub open spec fn token_after(ts: Seq<Token>, i: int, pos: int) -> Option<int>
    decreases ts.len() - i,
{
    if i < 0 || i >= ts.len() {
        None
    } else if ts[i].start >= pos {
        Some(i)
    } else {
        token_after(ts, i + 1, pos)
    }
}

/// The last token before index `i` that ends at or before `pos`.
pub open spec fn token_before(ts: Seq<Token>, i: int, pos: int) -> Option<int>
    decreases i,
{
    if i <= 0 {
        None
    } else if ts[i - 1].end <= pos {
        Some(i - 1)
    } else {
        token_before(ts, i - 1, pos)
    }
}

/// The index of the first token within `start..end` that reads `text`.
pub fn first_token_in(tokens: &Vec<Token>, start: usize, end: usize, text: &String) -> (r: Option<usize>)
    ensures
        match r {
            Some(i) => i < tokens@.len() && token_in(tokens@[i as int], start as int, end as int, text@)
                && forall|k: int| 0 <= k < i ==> !token_in(#[trigger] tokens@[k], start as int, end as int, text@),
            None => forall|k: int| 0 <= k < tokens@.len() ==> !token_in(#[trigger] tokens@[k], start as int, end as int, text@),
        },
        find_token(tokens@, 0, start as int, end as int, text@) == match r {
            Some(i) => Some(i as int),
            None => None::<int>,
        },
{
    let n = tokens.len();
    let mut i: usize = 0;
    while i < n
        invariant
            n == tokens@.len(),
            i <= n,
            forall|k: int| 0 <= k < i ==> !token_in(#[trigger] tokens@[k], start as int, end as int, text@),
            find_token(tokens@, 0, start as int, end as int, text@) == find_token(tokens@, i as int, start as int, end as int, text@),
        decreases n - i,
    {
        let t = &tokens[i];
        if start <= t.start && t.end <= end && t.text == *text {
            return Some(i);
        }
        i = i + 1;
    }
    None
}

/// The index of the first token that starts at or after `pos`.
pub fn next_token(tokens: &Vec<Token>, pos: usize) -> (r: Option<usize>)
    ensures
        match r {
            Some(i) => i < tokens@.len() && tokens@[i as int].start >= pos
                && forall|k: int| 0 <= k < i ==> #[trigger] tokens@[k].start < pos,
            None => forall|k: int| 0 <= k < tokens@.len() ==> #[trigger] tokens@[k].start < pos,
        },
        token_after(tokens@, 0, pos as int) == match r {
            Some(i) => Some(i as int),
            None => None::<int>,
        },
{
    let n = tokens.len();
    let mut i: usize = 0;
    while i < n
        invariant
            n == tokens@.len(),
            i <= n,
            forall|k: int| 0 <= k < i ==> #[trigger] tokens@[k].start < pos,
            token_after(tokens@, 0, pos as int) == token_after(tokens@, i as int, pos as int),
        decreases n - i,
    {
        if tokens[i].start >= pos {
            return Some(i);
        }
        i = i + 1;
    }
    None
}

/// The index of the last token that ends at or before `pos`.
pub fn prev_token(tokens: &Vec<Token>, pos: usize) -> (r: Option<usize>)
    ensures
        match r {
            Some(i) => i < tokens@.len() && tokens@[i as int].end <= pos
                && forall|k: int| i < k < tokens@.len() ==> #[trigger] tokens@[k].end > pos,
            None => forall|k: int| 0 <= k < tokens@.len() ==> #[trigger] tokens@[k].end > pos,
        },
        token_before(tokens@, tokens@.len() as int, pos as int) == match r {
            Some(i) => Some(i as int),
            None => None::<int>,
        },
{
    let mut i: usize = tokens.len();
    while i > 0
        invariant
            i <= tokens@.len(),
            forall|k: int| i <= k < tokens@.len() ==> #[trigger] tokens@[k].end > pos,
            token_before(tokens@, tokens@.len() as int, pos as int) == token_before(tokens@, i as int, pos as int),
        decreases i,
    {
        if tokens[i - 1].end <= pos {
            return Some(i - 1);
        }
        i = i - 1;
    }
    None
}

/// The keyword of an accessibility modifier.
pub fn accessibility_text(a: Accessibility) -> (r: &'static str)
    ensures
        r@ == match a {
            Accessibility::Private => "private"@,
            Accessibility::Protected => "protected"@,
            Accessibility::Public => "public"@,
        },
{
    match a {
        Accessibility::Private => "private",
        Accessibility::Protected => "protected",
        Accessibility::Public => "public",
    }
}

/// The node and everything under it needs no change: no import alias is
/// used and there is nothing to erase or transpile.
pub open spec fn is_plain(n: Node, aliases: Seq<Alias>) -> bool
    decreases n, 1nat, 0int,
{
    plain_kind(n.kind, aliases) && children_plain(n, 0, aliases)
}

pub open spec fn children_plain(n: Node, i: int, aliases: Seq<Alias>) -> bool
    decreases n, 0nat, n.children@.len() - i,
{
    if 0 <= i < n.children@.len() {
        is_plain(n.children@[i], aliases) && children_plain(n, i + 1, aliases)
    } else {
        true
    }
}

/// The node itself needs no change.
pub open spec fn plain_kind(k: NodeKind, aliases: Seq<Alias>) -> bool {
    match k {
        NodeKind::Other | NodeKind::FnExpr | NodeKind::AwaitExpr => true,
        NodeKind::Ident { ident, .. } => alias_lookup(aliases, ident.sym@, ident.scope) is None,
        NodeKind::ClassMethod { has_body } | NodeKind::FnDecl { has_body } => has_body,
        NodeKind::VarDecl { declare } => !declare,
        NodeKind::Class { implements } => implements is None,
        NodeKind::Constructor { has_param_props } => !has_param_props,
        NodeKind::Param { this_param, optional_ident } => !this_param && optional_ident is None,
        NodeKind::ClassProp { declare, modifiers } => !declare && modifiers == no_modifiers(),
        NodeKind::PrivateProp { modifiers } => modifiers == no_modifiers(),
        _ => false,
    }
}

pub open spec fn no_modifiers() -> Modifiers {
    Modifiers {
        accessibility: None,
        readonly: false,
        is_override: false,
        is_abstract: false,
        definite: false,
        optional: false,
    }
}

/// An exported declaration with no runtime content: a type, an ambient
/// declaration, or a function signature without a body.
pub open spec fn erased_decl(d: ExportedDecl) -> bool {
    match d {
        ExportedDecl::Class { declare, .. } => declare,
        ExportedDecl::Fn { declare, has_body, .. } => declare || !has_body,
        ExportedDecl::Var { declare, .. } => declare,
        ExportedDecl::TsEnum { declare, .. } => declare,
        ExportedDecl::TsModule { declare, .. } => declare,
        ExportedDecl::TypeOnly => true,
    }
}

fn erased_decl_exec(d: &ExportedDecl) -> (r: bool)
    ensures
        r == erased_decl(*d),
{
    match d {
        ExportedDecl::Class { declare, .. } => *declare,
        ExportedDecl::Fn { declare, has_body, .. } => *declare || !*has_body,
        ExportedDecl::Var { declare, .. } => *declare,
        ExportedDecl::TsEnum { declare, .. } => *declare,
        ExportedDecl::TsModule { declare, .. } => *declare,
        ExportedDecl::TypeOnly => true,
    }
}

/// A text change as plain values.
pub struct ChangeView {
    pub start: int,
    pub end: int,
    pub text: Seq<char>,
}

pub open spec fn change_view(c: TextChange) -> ChangeView {
    ChangeView { start: c.start as int, end: c.end as int, text: c.new_text@ }
}

pub open spec fn changes_view(cs: Seq<TextChange>) -> Seq<ChangeView> {
    cs.map_values(|c: TextChange| change_view(c))
}

pub open spec fn removal(start: int, end: int) -> ChangeView {
    ChangeView { start, end, text: Seq::empty() }
}

/// Two changes cover a common position strictly inside both.
pub open spec fn view_overlaps(a: ChangeView, b: ChangeView) -> bool {
    a.start < b.end && b.start < a.end
}

/// The change lies within a text of length `len` and overlaps none of `prior`.
pub open spec fn fits_one(prior: Seq<ChangeView>, c: ChangeView, len: int) -> bool {
    &&& 0 <= c.start <= c.end <= len
    &&& forall|i: int| 0 <= i < prior.len() ==> !view_overlaps(#[trigger] prior[i], c)
}

/// Recording the changes `new` in order after `prior` meets no conflict.
pub open spec fn fits(prior: Seq<ChangeView>, new: Seq<ChangeView>, len: int) -> bool
    decreases new.len(),
{
    new.len() == 0 || (fits_one(prior, new[0], len) && fits(prior.push(new[0]), new.drop_first(), len))
}

pub proof fn lemma_fits_concat(prior: Seq<ChangeView>, a: Seq<ChangeView>, b: Seq<ChangeView>, len: int)
    ensures
        fits(prior, a + b, len) <==> (fits(prior, a, len) && fits(prior + a, b, len)),
    decreases a.len(),
{
    if a.len() == 0 {
        assert(a + b =~= b);
        assert(prior + a =~= prior);
    } else {
        assert((a + b).drop_first() =~= a.drop_first() + b);
        assert((a + b)[0] == a[0]);
        lemma_fits_concat(prior.push(a[0]), a.drop_first(), b, len);
        assert(prior.push(a[0]) + a.drop_first() =~= prior + a);
    }
}

pub proof fn lemma_fits_single(prior: Seq<ChangeView>, c: ChangeView, len: int)
    ensures
        fits(prior, seq![c], len) <==> fits_one(prior, c, len),
{
    assert(seq![c].drop_first() =~= Seq::<ChangeView>::empty());
    assert(seq![c][0] == c);
    assert(fits(prior.push(c), Seq::<ChangeView>::empty(), len));
}

/// The edits are defined and recording them after `prior` meets no conflict.
pub open spec fn edits_fit(prior: Seq<ChangeView>, x: Option<Seq<ChangeView>>, len: int) -> bool {
    x is Some && fits(prior, x->0, len)
}

pub proof fn lemma_fits_split(prior: Seq<ChangeView>, a: Seq<ChangeView>, b: Seq<ChangeView>, len: int)
    requires
        fits(prior, a + b, len),
    ensures
        fits(prior, a, len),
        fits(prior + a, b, len),
{
    lemma_fits_concat(prior, a, b, len);
}

pub proof fn lemma_fits_two(prior: Seq<ChangeView>, a: Option<Seq<ChangeView>>, b: Option<Seq<ChangeView>>, len: int)
    requires
        edits_fit(prior, opt_concat(a, b), len),
    ensures
        edits_fit(prior, a, len),
        edits_fit(prior + a->0, b, len),
{
    lemma_fits_split(prior, a->0, b->0, len);
}

pub proof fn lemma_fits_opt_single(prior: Seq<ChangeView>, c: Option<ChangeView>, len: int)
    requires
        edits_fit(prior, opt_single(c), len),
    ensures
        c is Some,
        fits_one(prior, c->0, len),
        prior.push(c->0) == prior + seq![c->0],
{
    lemma_fits_single(prior, c->0, len);
    assert(prior.push(c->0) =~= prior + seq![c->0]);
}

proof fn lemma_push_if_fits(prior: Seq<ChangeView>, acc: Option<Seq<ChangeView>>, cond: bool, c: Option<ChangeView>, len: int)
    requires
        edits_fit(prior, push_if(acc, cond, c), len),
    ensures
        edits_fit(prior, acc, len),
        cond ==> c is Some && fits_one(prior + acc->0, c->0, len),
{
    if cond {
        let a = acc->0;
        let x = c->0;
        assert(a.push(x) =~= a + seq![x]);
        lemma_fits_split(prior, a, seq![x], len);
        lemma_fits_single(prior + a, x, len);
    }
}

/// Removes `start..end` and the white space before it; `start` past the end
/// of the text is kept as it is (and so cannot fit the text).
pub open spec fn back_removal(source: Seq<char>, start: int, end: int) -> ChangeView {
    if 0 <= start <= source.len() {
        removal(skip_white_back(source, start), end)
    } else {
        removal(start, end)
    }
}

/// Removes `start..end` and the white space after it; `end` past the end of
/// the text is kept as it is (and so cannot fit the text).
pub open spec fn fwd_removal(source: Seq<char>, start: int, end: int) -> ChangeView {
    if 0 <= end <= source.len() {
        removal(start, skip_white(source, end))
    } else {
        removal(start, end)
    }
}

/// What a module's rewrite reads: its import aliases, text and tokens, and
/// whether it is the root.
pub struct RewriteContext {
    pub aliases: Seq<Alias>,
    pub source: Seq<char>,
    pub tokens: Seq<Token>,
    pub is_root: bool,
}

/// Removes the first token within `start..end` that reads `text`, with the
/// white space after it.
pub open spec fn token_removal(cx: RewriteContext, start: int, end: int, text: Seq<char>) -> Option<ChangeView> {
    match find_token(cx.tokens, 0, start, end, text) {
        Some(i) => Some(fwd_removal(cx.source, cx.tokens[i].start as int, cx.tokens[i].end as int)),
        None => None,
    }
}

/// Appends `c` to `acc` when `cond` holds.
pub open spec fn push_if(acc: Option<Seq<ChangeView>>, cond: bool, c: Option<ChangeView>) -> Option<Seq<ChangeView>> {
    if !cond {
        acc
    } else {
        match (acc, c) {
            (Some(a), Some(x)) => Some(a.push(x)),
            _ => None,
        }
    }
}

pub open spec fn access_word(a: Accessibility) -> Seq<char> {
    match a {
        Accessibility::Private => "private"@,
        Accessibility::Protected => "protected"@,
        Accessibility::Public => "public"@,
    }
}

/// The removals of a member's modifier keywords, in this order:
/// accessibility, `readonly`, `override`, `abstract`, `!`, `?`.
pub open spec fn modifier_edits(cx: RewriteContext, start: int, end: int, m: Modifiers) -> Option<Seq<ChangeView>> {
    let a0 = push_if(
        Some(Seq::empty()),
        m.accessibility is Some,
        token_removal(cx, start, end, access_word(m.accessibility->0)),
    );
    let a1 = push_if(a0, m.readonly, token_removal(cx, start, end, "readonly"@));
    let a2 = push_if(a1, m.is_override, token_removal(cx, start, end, "override"@));
    let a3 = push_if(a2, m.is_abstract, token_removal(cx, start, end, "abstract"@));
    let a4 = push_if(a3, m.definite, token_removal(cx, start, end, "!"@));
    push_if(a4, m.optional, token_removal(cx, start, end, "?"@))
}

/// Replaces `start..` up to the token after the first `keyword` token of
/// `start..end` by `text`; `from_keyword` starts the change at the keyword.
pub open spec fn keyword_edit(
    cx: RewriteContext,
    start: int,
    end: int,
    keyword: Seq<char>,
    text: Seq<char>,
    from_keyword: bool,
) -> Option<ChangeView> {
    match find_token(cx.tokens, 0, start, end, keyword) {
        Some(i) => match token_after(cx.tokens, 0, cx.tokens[i].end as int) {
            Some(j) => Some(
                ChangeView {
                    start: if from_keyword {
                        cx.tokens[i].start as int
                    } else {
                        start
                    },
                    end: cx.tokens[j].start as int,
                    text,
                },
            ),
            None => None,
        },
        None => None,
    }
}

pub open spec fn opt_concat(a: Option<Seq<ChangeView>>, b: Option<Seq<ChangeView>>) -> Option<Seq<ChangeView>> {
    match (a, b) {
        (Some(x), Some(y)) => Some(x + y),
        _ => None,
    }
}

pub open spec fn opt_single(c: Option<ChangeView>) -> Option<Seq<ChangeView>> {
    match c {
        Some(x) => Some(seq![x]),
        None => None,
    }
}

/// The removal of a class's `implements` clause, from the keyword to the
/// token after the clause.
pub open spec fn implements_range(cx: RewriteContext, s: int, e: int) -> Option<(int, int)> {
    match token_before(cx.tokens, cx.tokens.len() as int, s) {
        Some(i) => if cx.tokens[i].text@ == "implements"@ {
            match token_after(cx.tokens, 0, e) {
                Some(j) => Some((cx.tokens[i].start as int, cx.tokens[j].start as int)),
                None => None,
            }
        } else {
            None
        },
        None => None,
    }
}

/// The removal of the `?` of an optional parameter: the token after the
/// identifier, or else the first `?` inside it.
pub open spec fn question_edits(cx: RewriteContext, s: int, e: int) -> Seq<ChangeView> {
    match token_after(cx.tokens, 0, e) {
        Some(j) if cx.tokens[j].text@ == "?"@ => seq![
            fwd_removal(cx.source, cx.tokens[j].start as int, cx.tokens[j].end as int),
        ],
        _ => match find_token(cx.tokens, 0, s, e, "?"@) {
            Some(j) => seq![fwd_removal(cx.source, cx.tokens[j].start as int, cx.tokens[j].end as int)],
            None => Seq::empty(),
        },
    }
}

/// The removal of the comma after a `this` parameter.
pub open spec fn comma_edits(cx: RewriteContext, end: int) -> Seq<ChangeView> {
    match token_after(cx.tokens, 0, end) {
        Some(j) if cx.tokens[j].text@ == ","@ => seq![
            back_removal(cx.source, cx.tokens[j].start as int, cx.tokens[j].end as int),
        ],
        _ => Seq::empty(),
    }
}

/// The edits of the first child, the expression a type syntax wraps.
pub open spec fn first_child_edits(cx: RewriteContext, n: Node) -> Option<Seq<ChangeView>>
    decreases n, 1nat, 0int,
{
    if n.children@.len() == 0 {
        None
    } else {
        node_edits(cx, n.children@[0])
    }
}

/// The changes that rewriting a node records, in order; `None` where the
/// syntax model lacks a token its nodes imply.
pub open spec fn node_edits(cx: RewriteContext, n: Node) -> Option<Seq<ChangeView>>
    decreases n, 2nat, 0int,
{
    match n.kind {
        NodeKind::Ident { ident, shorthand } => match alias_lookup(cx.aliases, ident.sym@, ident.scope) {
            Some(t) => Some(
                seq![
                    ChangeView {
                        start: ident.start as int,
                        end: ident.end as int,
                        text: if shorthand {
                            ident.sym@ + ": "@ + t
                        } else {
                            t
                        },
                    },
                ],
            ),
            None => Some(Seq::empty()),
        },
        NodeKind::ExportDefaultExpr => opt_concat(
            if cx.is_root {
                Some(Seq::empty())
            } else {
                opt_single(keyword_edit(cx, n.start as int, n.end as int, "default"@, "const __pack_default__ = "@, false))
            },
            children_edits(cx, n, 0, None),
        ),
        NodeKind::ExportDefaultDecl { decl } => match decl {
            DefaultDecl::Interface => Some(seq![removal(n.start as int, n.end as int)]),
            DefaultDecl::Class(i) | DefaultDecl::Fn(i) => opt_concat(
                if cx.is_root {
                    Some(Seq::empty())
                } else {
                    opt_single(
                        keyword_edit(
                            cx,
                            n.start as int,
                            n.end as int,
                            "default"@,
                            if i is None {
                                "const __pack_default__ = "@
                            } else {
                                Seq::empty()
                            },
                            false,
                        ),
                    )
                },
                children_edits(cx, n, 0, None),
            ),
        },
        NodeKind::ExportDecl { decl } => if erased_decl(decl) {
            Some(seq![removal(n.start as int, n.end as int)])
        } else {
            opt_concat(
                if cx.is_root {
                    Some(Seq::empty())
                } else {
                    opt_single(keyword_edit(cx, n.start as int, n.end as int, "export"@, Seq::empty(), true))
                },
                children_edits(cx, n, 0, None),
            )
        },
        NodeKind::ImportDecl { .. } | NodeKind::NamedExport { .. } | NodeKind::ExportAll { .. }
        | NodeKind::TypeOnly => Some(seq![removal(n.start as int, n.end as int)]),
        NodeKind::Class { implements } => match implements {
            None => children_edits(cx, n, 0, None),
            Some((s, e)) => match implements_range(cx, s as int, e as int) {
                Some((a, b)) => opt_concat(Some(seq![removal(a, b)]), children_edits(cx, n, 0, Some((a, b)))),
                None => None,
            },
        },
        NodeKind::ClassProp { declare, modifiers } => if declare {
            Some(seq![back_removal(cx.source, n.start as int, n.end as int)])
        } else {
            opt_concat(modifier_edits(cx, n.start as int, n.end as int, modifiers), children_edits(cx, n, 0, None))
        },
        NodeKind::PrivateProp { modifiers } | NodeKind::TsParamProp { modifiers } => opt_concat(
            modifier_edits(cx, n.start as int, n.end as int, modifiers),
            children_edits(cx, n, 0, None),
        ),
        NodeKind::VarDecl { declare } => if declare {
            Some(seq![back_removal(cx.source, n.start as int, n.end as int)])
        } else {
            children_edits(cx, n, 0, None)
        },
        NodeKind::Param { this_param, optional_ident } => if this_param {
            Some(seq![back_removal(cx.source, n.start as int, n.end as int)] + comma_edits(cx, n.end as int))
        } else {
            opt_concat(
                children_edits(cx, n, 0, None),
                Some(
                    match optional_ident {
                        Some((s, e)) => question_edits(cx, s as int, e as int),
                        None => Seq::empty(),
                    },
                ),
            )
        },
        NodeKind::ClassMethod { has_body } | NodeKind::FnDecl { has_body } => if has_body {
            children_edits(cx, n, 0, None)
        } else {
            Some(seq![back_removal(cx.source, n.start as int, n.end as int)])
        },
        NodeKind::TsSuffix => if n.children@.len() == 0 {
            None
        } else {
            opt_concat(first_child_edits(cx, n), Some(seq![removal(n.children@[0].end as int, n.end as int)]))
        },
        NodeKind::TsConstAssertion => if n.children@.len() == 0 {
            None
        } else {
            opt_concat(
                first_child_edits(cx, n),
                Some(seq![back_removal(cx.source, n.children@[0].end as int, n.end as int)]),
            )
        },
        NodeKind::TsTypeAssertion => if n.children@.len() == 0 {
            None
        } else {
            opt_concat(
                Some(seq![fwd_removal(cx.source, n.start as int, n.children@[0].start as int)]),
                first_child_edits(cx, n),
            )
        },
        NodeKind::TsInstantiation => if n.children@.len() == 0 {
            None
        } else {
            opt_concat(
                first_child_edits(cx, n),
                Some(seq![fwd_removal(cx.source, n.children@[0].end as int, n.end as int)]),
            )
        },
        NodeKind::TsRuntime | NodeKind::Constructor { .. } | NodeKind::FnExpr | NodeKind::AwaitExpr
        | NodeKind::Other => children_edits(cx, n, 0, None),
    }
}

pub open spec fn skip_range(skip: Option<(usize, usize)>) -> Option<(int, int)> {
    match skip {
        Some((s, e)) => Some((s as int, e as int)),
        None => None,
    }
}

/// The child lies inside the skipped range.
pub open spec fn skipped(c: Node, skip: Option<(int, int)>) -> bool {
    match skip {
        Some((s, e)) => s <= c.start && c.end <= e,
        None => false,
    }
}

/// The edits of the children from index `i` on, but those inside `skip`.
pub open spec fn children_edits(cx: RewriteContext, n: Node, i: int, skip: Option<(int, int)>) -> Option<Seq<ChangeView>>
    decreases n, 1nat, n.children@.len() - i,
{
    if i < 0 || i >= n.children@.len() {
        Some(Seq::empty())
    } else {
        opt_concat(
            if skipped(n.children@[i], skip) {
                Some(Seq::empty())
            } else {
                node_edits(cx, n.children@[i])
            },
            children_edits(cx, n, i + 1, skip),
        )
    }
}

/// Rewriting the node meets a construct that needs a full emit: an enum, a
/// namespace or module, or a constructor with parameter properties.
pub open spec fn node_transpiles(cx: RewriteContext, n: Node) -> bool
    decreases n, 2nat, 0int,
{
    match n.kind {
        NodeKind::TsRuntime => true,
        NodeKind::Constructor { has_param_props } => children_transpile(cx, n, 0, None) || has_param_props,
        NodeKind::Ident { .. } | NodeKind::ImportDecl { .. } | NodeKind::NamedExport { .. }
        | NodeKind::ExportAll { .. } | NodeKind::TypeOnly => false,
        NodeKind::ExportDefaultDecl { decl } => match decl {
            DefaultDecl::Interface => false,
            _ => children_transpile(cx, n, 0, None),
        },
        NodeKind::ExportDecl { decl } => !erased_decl(decl) && children_transpile(cx, n, 0, None),
        NodeKind::ClassProp { declare, .. } => !declare && children_transpile(cx, n, 0, None),
        NodeKind::VarDecl { declare } => !declare && children_transpile(cx, n, 0, None),
        NodeKind::Param { this_param, .. } => !this_param && children_transpile(cx, n, 0, None),
        NodeKind::ClassMethod { has_body } | NodeKind::FnDecl { has_body } => has_body && children_transpile(
            cx,
            n,
            0,
            None,
        ),
        NodeKind::Class { implements } => match implements {
            None => children_transpile(cx, n, 0, None),
            Some((s, e)) => match implements_range(cx, s as int, e as int) {
                Some((a, b)) => children_transpile(cx, n, 0, Some((a, b))),
                None => false,
            },
        },
        NodeKind::TsSuffix | NodeKind::TsConstAssertion | NodeKind::TsTypeAssertion
        | NodeKind::TsInstantiation => first_child_transpiles(cx, n),
        _ => children_transpile(cx, n, 0, None),
    }
}

pub open spec fn first_child_transpiles(cx: RewriteContext, n: Node) -> bool
    decreases n, 1nat, 0int,
{
    n.children@.len() > 0 && node_transpiles(cx, n.children@[0])
}

pub open spec fn children_transpile(cx: RewriteContext, n: Node, i: int, skip: Option<(int, int)>) -> bool
    decreases n, 1nat, n.children@.len() - i,
{
    if i < 0 || i >= n.children@.len() {
        false
    } else {
        (!skipped(n.children@[i], skip) && node_transpiles(cx, n.children@[i])) || children_transpile(
            cx,
            n,
            i + 1,
            skip,
        )
    }
}

/// Walks a module's syntax and records the text changes that erase its
/// module boundary and its type-only syntax.
pub struct TextChangeCollector<'a> {
    pub module_data: ModuleData,
    pub replace_ids: &'a Vec<Alias>,
    pub source: &'a str,
    pub source_len: usize,
    pub tokens: &'a Vec<Token>,
    pub is_root_module: bool,
}

impl<'a> TextChangeCollector<'a> {
    /// The recorded changes are well formed, disjoint and within the text.
    pub open spec fn wf(&self) -> bool {
        &&& self.module_data.wf()
        &&& self.source_len == self.source@.len()
        &&& changes_in_bounds(self.module_data.text_changes@, self.source_len as nat)
    }

    /// What the rewrite reads.
    pub open spec fn cx(&self) -> RewriteContext {
        RewriteContext {
            aliases: self.replace_ids@,
            source: self.source@,
            tokens: self.tokens@,
            is_root: self.is_root_module,
        }
    }

    /// The changes recorded so far, as plain values.
    pub open spec fn edits(&self) -> Seq<ChangeView> {
        changes_view(self.module_data.text_changes@)
    }

    /// What a visit leaves as it was, and what it may only add to.
    pub open spec fn extends(&self, prev: &Self) -> bool {
        &&& self.wf()
        &&& self.module_data.id == prev.module_data.id
        &&& self.module_data.has_tla == prev.module_data.has_tla
        &&& self.module_data.exports == prev.module_data.exports
        &&& self.module_data.re_exports == prev.module_data.re_exports
        &&& prev.module_data.requires_transpile ==> self.module_data.requires_transpile
        &&& self.module_data.text_changes@.len() >= prev.module_data.text_changes@.len()
        &&& forall|i: int|
            0 <= i < prev.module_data.text_changes@.len() ==> #[trigger] self.module_data.text_changes@[i]
                == prev.module_data.text_changes@[i]
        &&& self.replace_ids == prev.replace_ids
        &&& self.source == prev.source
        &&& self.source_len == prev.source_len
        &&& self.tokens == prev.tokens
        &&& self.is_root_module == prev.is_root_module
    }

    /// Records a change that stays within the text and overlaps none recorded.
    pub fn push_change(&mut self, change: TextChange) -> (r: Result<(), RewriteError>)
        requires
            old(self).wf(),
        ensures
            final(self).extends(old(self)),
            final(self).module_data.requires_transpile == old(self).module_data.requires_transpile,
            r is Ok ==> final(self).module_data.text_changes@ == old(self).module_data.text_changes@.push(change),
            r is Ok ==> final(self).edits() == old(self).edits().push(change_view(change)),
            r is Err ==> final(self).module_data.text_changes@ == old(self).module_data.text_changes@,
            fits_one(old(self).edits(), change_view(change), old(self).source_len as int) ==> r is Ok,
    {
        proof {
            if fits_one(old(self).edits(), change_view(change), old(self).source_len as int) {
                let tc = old(self).module_data.text_changes@;
                assert forall|i: int| 0 <= i < tc.len() implies !(#[trigger] tc[i].start < change.end && change.start < tc[i].end) by {
                    assert(old(self).edits()[i] == change_view(tc[i]));
                    assert(!view_overlaps(old(self).edits()[i], change_view(change)));
                }
            }
        }
        proof {
            assert(changes_view(old(self).module_data.text_changes@.push(change)) =~= old(self).edits().push(
                change_view(change),
            ));
        }
        if change.end > self.source_len {
            return Err(RewriteError::Conflict(ChangeConflict::OutOfBounds));
        }
        let ghost c = change;
        match self.module_data.add_text_change(change) {
            Ok(()) => {
                proof {
                    let cs = self.module_data.text_changes@;
                    assert forall|i: int| 0 <= i < cs.len() implies #[trigger] cs[i].start <= cs[i].end
                        <= self.source_len by {
                        if i < cs.len() - 1 {
                            assert(cs[i] == old(self).module_data.text_changes@[i]);
                        }
                    }
                }
                Ok(())
            },
            Err(e) => {
                Err(RewriteError::Conflict(e))
            },
        }
    }

    pub fn remove_range(&mut self, start: usize, end: usize) -> (r: Result<(), RewriteError>)
        requires
            old(self).wf(),
        ensures
            final(self).extends(old(self)),
            final(self).module_data.requires_transpile == old(self).module_data.requires_transpile,
            r is Ok ==> final(self).module_data.text_changes@ == old(self).module_data.text_changes@.push(
                TextChange { start, end, new_text: final(self).module_data.text_changes@.last().new_text },
            ) && final(self).module_data.text_changes@.last().new_text@ == Seq::<char>::empty(),
            r is Ok ==> final(self).edits() == old(self).edits().push(removal(start as int, end as int)),
            fits_one(old(self).edits(), removal(start as int, end as int), old(self).source_len as int) ==> r is Ok,
    {
        self.push_change(TextChange::removal(start, end))
    }

    /// Removes `start..end` and the white space before it.
    pub fn remove_range_with_previous_whitespace(&mut self, start: usize, end: usize) -> (r: Result<(), RewriteError>)
        requires
            old(self).wf(),
        ensures
            final(self).extends(old(self)),
            final(self).module_data.requires_transpile == old(self).module_data.requires_transpile,
            r is Ok ==> start <= old(self).source@.len() && final(self).module_data.text_changes@
                == old(self).module_data.text_changes@.push(
                TextChange {
                    start: skip_white_back(old(self).source@, start as int) as usize,
                    end,
                    new_text: final(self).module_data.text_changes@.last().new_text,
                },
            ) && final(self).module_data.text_changes@.last().new_text@ == Seq::<char>::empty(),
            r is Ok ==> final(self).edits() == old(self).edits().push(
                back_removal(old(self).source@, start as int, end as int),
            ),
            fits_one(old(self).edits(), back_removal(old(self).source@, start as int, end as int), old(self).source_len as int)
                ==> r is Ok,
    {
        if start > self.source_len {
            return Err(RewriteError::Conflict(ChangeConflict::OutOfBounds));
        }
        proof {
            lemma_skip_white_back_bounds(self.source@, start as int);
        }
        let s = prev_non_white(self.source, start);
        self.push_change(TextChange::removal(s, end))
    }

    /// Removes `start..end` and the white space after it.
    pub fn remove_range_with_next_whitespace(&mut self, start: usize, end: usize) -> (r: Result<(), RewriteError>)
        requires
            old(self).wf(),
        ensures
            final(self).extends(old(self)),
            final(self).module_data.requires_transpile == old(self).module_data.requires_transpile,
            r is Ok ==> end <= old(self).source@.len() && final(self).module_data.text_changes@
                == old(self).module_data.text_changes@.push(
                TextChange {
                    start,
                    end: skip_white(old(self).source@, end as int) as usize,
                    new_text: final(self).module_data.text_changes@.last().new_text,
                },
            ) && final(self).module_data.text_changes@.last().new_text@ == Seq::<char>::empty(),
            r is Ok ==> final(self).edits() == old(self).edits().push(
                fwd_removal(old(self).source@, start as int, end as int),
            ),
            fits_one(old(self).edits(), fwd_removal(old(self).source@, start as int, end as int), old(self).source_len as int)
                ==> r is Ok,
    {
        if end > self.source_len {
            return Err(RewriteError::Conflict(ChangeConflict::OutOfBounds));
        }
        proof {
            lemma_skip_white_bounds(self.source@, end as int);
        }
        let e = next_non_white(self.source, end);
        self.push_change(TextChange::removal(start, e))
    }

    /// Removes the first token within `start..end` that reads `text`, with
    /// the white space after it.
    pub fn remove_first_token(&mut self, start: usize, end: usize, text: &str) -> (r: Result<(), RewriteError>)
        requires
            old(self).wf(),
        ensures
            final(self).extends(old(self)),
            final(self).module_data.requires_transpile == old(self).module_data.requires_transpile,
            r is Ok ==> token_removal(old(self).cx(), start as int, end as int, text@) is Some
                && final(self).edits() == old(self).edits().push(
                token_removal(old(self).cx(), start as int, end as int, text@)->0,
            ),
            token_removal(old(self).cx(), start as int, end as int, text@) is Some && fits_one(
                old(self).edits(),
                token_removal(old(self).cx(), start as int, end as int, text@)->0,
                old(self).source_len as int,
            ) ==> r is Ok,
    {
        let t = String::from_str(text);
        assert(t@ == text@);
        match first_token_in(self.tokens, start, end, &t) {
            Some(i) => {
                let ts = self.tokens[i].start;
                let te = self.tokens[i].end;
                proof {
                    assert(find_token(self.tokens@, 0, start as int, end as int, text@) == Some(i as int));
                    assert(token_removal(self.cx(), start as int, end as int, text@) == Some(
                        fwd_removal(self.source@, ts as int, te as int),
                    ));
                }
                self.remove_range_with_next_whitespace(ts, te)
            },
            None => Err(RewriteError::MissingToken),
        }
    }

    /// Replaces an identifier with `new_text`; a shorthand property keeps its
    /// key (`foo` becomes `foo: new_text`).
    pub fn replace_ident_text(&mut self, ident: &Ident, shorthand: bool, new_text: &String) -> (r: Result<(), RewriteError>)
        requires
            old(self).wf(),
        ensures
            final(self).extends(old(self)),
            final(self).module_data.requires_transpile == old(self).module_data.requires_transpile,
            r is Ok ==> final(self).module_data.text_changes@.len() == old(self).module_data.text_changes@.len() + 1
                && final(self).module_data.text_changes@.last().start == ident.start
                && final(self).module_data.text_changes@.last().end == ident.end
                && final(self).module_data.text_changes@.last().new_text@ == (if shorthand {
                    ident.sym@ + ": "@ + new_text@
                } else {
                    new_text@
                }),
            r is Ok ==> final(self).edits() == old(self).edits().push(
                ChangeView {
                    start: ident.start as int,
                    end: ident.end as int,
                    text: if shorthand {
                        ident.sym@ + ": "@ + new_text@
                    } else {
                        new_text@
                    },
                },
            ),
            fits_one(old(self).edits(), removal(ident.start as int, ident.end as int), old(self).source_len as int) ==> r is Ok,
    {
        let text = if shorthand {
            let mut t = ident.sym.clone();
            t.append(": ");
            t.append(new_text.as_str());
            t
        } else {
            new_text.clone()
        };
        self.push_change(TextChange::new(ident.start, ident.end, text))
    }

    /// Removes the modifier keywords of a class member or parameter property.
    fn remove_modifiers(&mut self, start: usize, end: usize, m: &Modifiers) -> (r: Result<(), RewriteError>)
        requires
            old(self).wf(),
        ensures
            final(self).extends(old(self)),
            *m == no_modifiers() ==> r is Ok && final(self).module_data.text_changes
                == old(self).module_data.text_changes,
            final(self).module_data.requires_transpile == old(self).module_data.requires_transpile,
            r is Ok ==> modifier_edits(old(self).cx(), start as int, end as int, *m) is Some
                && final(self).edits() == old(self).edits() + modifier_edits(old(self).cx(), start as int, end as int, *m)->0,
            edits_fit(old(self).edits(), modifier_edits(old(self).cx(), start as int, end as int, *m), old(self).source_len as int)
                ==> r is Ok,
    {
        let ghost cx = self.cx();
        let ghost e0 = self.edits();
        let ghost len = self.source_len as int;
        let ghost (s, e) = (start as int, end as int);
        let ghost a0 = push_if(Some(Seq::empty()), m.accessibility is Some, token_removal(cx, s, e, access_word(m.accessibility->0)));
        let ghost a1 = push_if(a0, m.readonly, token_removal(cx, s, e, "readonly"@));
        let ghost a2 = push_if(a1, m.is_override, token_removal(cx, s, e, "override"@));
        let ghost a3 = push_if(a2, m.is_abstract, token_removal(cx, s, e, "abstract"@));
        let ghost a4 = push_if(a3, m.definite, token_removal(cx, s, e, "!"@));
        let ghost a5 = push_if(a4, m.optional, token_removal(cx, s, e, "?"@));
        proof {
            if edits_fit(e0, a5, len) {
                lemma_push_if_fits(e0, a4, m.optional, token_removal(cx, s, e, "?"@), len);
                lemma_push_if_fits(e0, a3, m.definite, token_removal(cx, s, e, "!"@), len);
                lemma_push_if_fits(e0, a2, m.is_abstract, token_removal(cx, s, e, "abstract"@), len);
                lemma_push_if_fits(e0, a1, m.is_override, token_removal(cx, s, e, "override"@), len);
                lemma_push_if_fits(e0, a0, m.readonly, token_removal(cx, s, e, "readonly"@), len);
                lemma_push_if_fits(e0, Some(Seq::empty()), m.accessibility is Some, token_removal(cx, s, e, access_word(m.accessibility->0)), len);
                assert(e0 + Seq::<ChangeView>::empty() =~= e0);
            }
        }
        assert(self.edits() =~= e0 + Seq::<ChangeView>::empty());
        if let Some(a) = m.accessibility {
            self.remove_first_token(start, end, accessibility_text(a))?;
        }
        assert(a0 is Some && self.edits() =~= e0 + a0->0);
        if m.readonly {
            self.remove_first_token(start, end, "readonly")?;
        }
        assert(a1 is Some && self.edits() =~= e0 + a1->0);
        if m.is_override {
            self.remove_first_token(start, end, "override")?;
        }
        assert(a2 is Some && self.edits() =~= e0 + a2->0);
        if m.is_abstract {
            self.remove_first_token(start, end, "abstract")?;
        }
        assert(a3 is Some && self.edits() =~= e0 + a3->0);
        if m.definite {
            self.remove_first_token(start, end, "!")?;
        }
        assert(a4 is Some && self.edits() =~= e0 + a4->0);
        if m.optional {
            self.remove_first_token(start, end, "?")?;
        }
        assert(a5 is Some && self.edits() =~= e0 + a5->0);
        Ok(())
    }

    /// Removes the `export` keyword at the start of `start..end`, up to the
    /// next token.
    fn remove_export_keyword(&mut self, start: usize, end: usize, new_text: &str) -> (r: Result<(), RewriteError>)
        requires
            old(self).wf(),
        ensures
            final(self).extends(old(self)),
            final(self).module_data.requires_transpile == old(self).module_data.requires_transpile,
            r is Ok ==> keyword_edit(old(self).cx(), start as int, end as int, "export"@, new_text@, true) is Some
                && final(self).edits() == old(self).edits().push(
                keyword_edit(old(self).cx(), start as int, end as int, "export"@, new_text@, true)->0,
            ),
            keyword_edit(old(self).cx(), start as int, end as int, "export"@, new_text@, true) is Some && fits_one(
                old(self).edits(),
                keyword_edit(old(self).cx(), start as int, end as int, "export"@, new_text@, true)->0,
                old(self).source_len as int,
            ) ==> r is Ok,
    {
        let export_kw = String::from_str("export");
        let i = match first_token_in(self.tokens, start, end, &export_kw) {
            Some(i) => i,
            None => {
                return Err(RewriteError::MissingToken);
            },
        };
        let kw_start = self.tokens[i].start;
        let j = match next_token(self.tokens, self.tokens[i].end) {
            Some(j) => j,
            None => {
                return Err(RewriteError::MissingToken);
            },
        };
        let next_start = self.tokens[j].start;
        self.push_change(TextChange::new(kw_start, next_start, String::from_str(new_text)))
    }

    /// Replaces `export default` at the start of `start..end`, up to the
    /// token after `default`, by `new_text`.
    fn replace_export_default(&mut self, start: usize, end: usize, new_text: &str) -> (r: Result<(), RewriteError>)
        requires
            old(self).wf(),
        ensures
            final(self).extends(old(self)),
            final(self).module_data.requires_transpile == old(self).module_data.requires_transpile,
            r is Ok ==> keyword_edit(old(self).cx(), start as int, end as int, "default"@, new_text@, false) is Some
                && final(self).edits() == old(self).edits().push(
                keyword_edit(old(self).cx(), start as int, end as int, "default"@, new_text@, false)->0,
            ),
            keyword_edit(old(self).cx(), start as int, end as int, "default"@, new_text@, false) is Some && fits_one(
                old(self).edits(),
                keyword_edit(old(self).cx(), start as int, end as int, "default"@, new_text@, false)->0,
                old(self).source_len as int,
            ) ==> r is Ok,
    {
        let default_kw = String::from_str("default");
        let i = match first_token_in(self.tokens, start, end, &default_kw) {
            Some(i) => i,
            None => {
                return Err(RewriteError::MissingToken);
            },
        };
        let j = match next_token(self.tokens, self.tokens[i].end) {
            Some(j) => j,
            None => {
                return Err(RewriteError::MissingToken);
            },
        };
        let next_start = self.tokens[j].start;
        self.push_change(TextChange::new(start, next_start, String::from_str(new_text)))
    }

    /// Visits each child of the node, skipping those inside `skip`.
    fn visit_children_except(&mut self, node: &Node, skip: Option<(usize, usize)>) -> (r: Result<(), RewriteError>)
        requires
            old(self).wf(),
        ensures
            final(self).extends(old(self)),
            r is Ok ==> children_edits(old(self).cx(), *node, 0, skip_range(skip)) is Some
                && final(self).edits() == old(self).edits() + children_edits(old(self).cx(), *node, 0, skip_range(skip))->0
                && final(self).module_data.requires_transpile == (old(self).module_data.requires_transpile
                || children_transpile(old(self).cx(), *node, 0, skip_range(skip))),
            children_plain(*node, 0, old(self).replace_ids@) ==> r is Ok && final(self).module_data.text_changes
                == old(self).module_data.text_changes && final(self).module_data.requires_transpile
                == old(self).module_data.requires_transpile,
            edits_fit(old(self).edits(), children_edits(old(self).cx(), *node, 0, skip_range(skip)), old(self).source_len as int)
                ==> r is Ok,
        decreases node, 0nat,
    {
        let ghost cx = old(self).cx();
        let ghost sk = skip_range(skip);
        let ghost mut acc: Seq<ChangeView> = Seq::empty();
        let ghost mut tacc: bool = false;
        let n = node.children.len();
        let mut i: usize = 0;
        proof {
            assert(self.edits() =~= old(self).edits() + acc);
            assert(children_edits(cx, *node, 0, sk) == opt_concat(Some(acc), children_edits(cx, *node, 0, sk))) by {
                assert(acc + Seq::<ChangeView>::empty() =~= acc);
                if children_edits(cx, *node, 0, sk) is Some {
                    assert(acc + children_edits(cx, *node, 0, sk)->0 =~= children_edits(cx, *node, 0, sk)->0);
                }
            }
        }
        while i < n
            invariant
                n == node.children@.len(),
                i <= n,
                self.extends(old(self)),
                cx == old(self).cx(),
                sk == skip_range(skip),
                self.edits() == old(self).edits() + acc,
                children_edits(cx, *node, 0, sk) == opt_concat(Some(acc), children_edits(cx, *node, i as int, sk)),
                self.module_data.requires_transpile == (old(self).module_data.requires_transpile || tacc),
                children_transpile(cx, *node, 0, sk) == (tacc || children_transpile(cx, *node, i as int, sk)),
                children_plain(*node, 0, old(self).replace_ids@) ==> children_plain(*node, i as int, old(self).replace_ids@)
                    && self.module_data.text_changes == old(self).module_data.text_changes
                    && self.module_data.requires_transpile == old(self).module_data.requires_transpile,
                edits_fit(old(self).edits(), children_edits(cx, *node, 0, sk), old(self).source_len as int) ==> edits_fit(
                    old(self).edits() + acc,
                    children_edits(cx, *node, i as int, sk),
                    old(self).source_len as int,
                ),
            decreases n - i,
        {
            let ghost len = old(self).source_len as int;
            let ghost p0 = edits_fit(old(self).edits(), children_edits(cx, *node, 0, sk), len);
            proof {
                if p0 {
                    let e = if skipped(node.children@[i as int], sk) { Seq::<ChangeView>::empty() } else { node_edits(cx, node.children@[i as int])->0 };
                    let rest = children_edits(cx, *node, i as int + 1, sk);
                    lemma_fits_split(old(self).edits() + acc, e, rest->0, len);
                }
            }
            let child = &node.children[i];
            let is_skipped = match skip {
                Some((s, e)) => s <= child.start && child.end <= e,
                None => false,
            };
            assert(is_skipped == skipped(node.children@[i as int], sk));
            let ghost before = self.edits();
            if !is_skipped {
                self.visit(child)?;
            }
            proof {
                let e = if is_skipped { Seq::<ChangeView>::empty() } else { node_edits(cx, node.children@[i as int])->0 };
                let rest = children_edits(cx, *node, i as int + 1, sk);
                assert(self.edits() =~= old(self).edits() + (acc + e));
                if rest is Some {
                    assert(acc + (e + rest->0) =~= (acc + e) + rest->0);
                    assert(old(self).edits() + acc + e =~= old(self).edits() + (acc + e));
                }
                acc = acc + e;
                tacc = tacc || (!is_skipped && node_transpiles(cx, node.children@[i as int]));
            }
            i = i + 1;
        }
        proof {
            assert(acc + Seq::<ChangeView>::empty() =~= acc);
        }
        Ok(())
    }

    /// Visits each child of the node.
    pub fn visit_children(&mut self, node: &Node) -> (r: Result<(), RewriteError>)
        requires
            old(self).wf(),
        ensures
            final(self).extends(old(self)),
            r is Ok ==> children_edits(old(self).cx(), *node, 0, None) is Some
                && final(self).edits() == old(self).edits() + children_edits(old(self).cx(), *node, 0, None)->0
                && final(self).module_data.requires_transpile == (old(self).module_data.requires_transpile
                || children_transpile(old(self).cx(), *node, 0, None)),
            edits_fit(old(self).edits(), children_edits(old(self).cx(), *node, 0, None), old(self).source_len as int) ==> r is Ok,
            children_plain(*node, 0, old(self).replace_ids@) ==> r is Ok && final(self).module_data.text_changes
                == old(self).module_data.text_changes && final(self).module_data.requires_transpile
                == old(self).module_data.requires_transpile,
        decreases node, 1nat,
    {
        self.visit_children_except(node, None)
    }

    /// Visits the first child of the node, the expression a type syntax wraps.
    fn visit_first_child(&mut self, node: &Node) -> (r: Result<(), RewriteError>)
        requires
            old(self).wf(),
        ensures
            final(self).extends(old(self)),
            r is Ok ==> node.children@.len() > 0,
            r is Ok ==> first_child_edits(old(self).cx(), *node) is Some
                && final(self).edits() == old(self).edits() + first_child_edits(old(self).cx(), *node)->0
                && final(self).module_data.requires_transpile == (old(self).module_data.requires_transpile
                || first_child_transpiles(old(self).cx(), *node)),
            edits_fit(old(self).edits(), first_child_edits(old(self).cx(), *node), old(self).source_len as int) ==> r is Ok,
        decreases node, 1nat,
    {
        if node.children.len() == 0 {
            return Err(RewriteError::MissingToken);
        }
        self.visit(&node.children[0])
    }

    /// Records the changes for the node and everything under it.
    pub fn visit(&mut self, node: &Node) -> (r: Result<(), RewriteError>)
        requires
            old(self).wf(),
        ensures
            final(self).extends(old(self)),
            is_plain(*node, old(self).replace_ids@) ==> r is Ok && final(self).module_data.text_changes
                == old(self).module_data.text_changes && final(self).module_data.requires_transpile
                == old(self).module_data.requires_transpile,
            r is Ok ==> node_edits(old(self).cx(), *node) is Some
                && final(self).edits() == old(self).edits() + node_edits(old(self).cx(), *node)->0
                && final(self).module_data.requires_transpile == (old(self).module_data.requires_transpile
                || node_transpiles(old(self).cx(), *node)),
            edits_fit(old(self).edits(), node_edits(old(self).cx(), *node), old(self).source_len as int) ==> r is Ok,
        decreases node, 5nat,
    {
        let ghost cx = self.cx();
        let ghost e0 = self.edits();
        let ghost t0 = self.module_data.requires_transpile;
        let r = self.visit_kind(node);
        proof {
            if r is Ok {
                assert(self.edits() =~= e0 + node_edits(cx, *node)->0);
            }
        }
        r
    }

    /// The body of `visit`, one arm per kind of node.
    fn visit_kind(&mut self, node: &Node) -> (r: Result<(), RewriteError>)
        requires
            old(self).wf(),
        ensures
            final(self).extends(old(self)),
            is_plain(*node, old(self).replace_ids@) ==> r is Ok && final(self).module_data.text_changes
                == old(self).module_data.text_changes && final(self).module_data.requires_transpile
                == old(self).module_data.requires_transpile,
            r is Ok ==> node_edits(old(self).cx(), *node) is Some
                && final(self).edits() =~= old(self).edits() + node_edits(old(self).cx(), *node)->0
                && final(self).module_data.requires_transpile == (old(self).module_data.requires_transpile
                || node_transpiles(old(self).cx(), *node)),
            edits_fit(old(self).edits(), node_edits(old(self).cx(), *node), old(self).source_len as int) ==> r is Ok,
        decreases node, 4nat,
    {
        let ghost cx = self.cx();
        let ghost e0 = self.edits();
        match &node.kind {
            NodeKind::Ident { ident, shorthand } => {
                match lookup_alias(self.replace_ids, ident) {
                    Some(text) => self.replace_ident_text(ident, *shorthand, text),
                    None => {
                        assert(self.edits() =~= e0 + Seq::<ChangeView>::empty());
                        Ok(())
                    },
                }
            },
            NodeKind::ImportDecl { .. } | NodeKind::NamedExport { .. } | NodeKind::ExportAll { .. }
            | NodeKind::TypeOnly => {
                let r = self.remove_range(node.start, node.end);
                proof {
                    if r is Ok {
                        assert(self.edits() =~= e0 + seq![removal(node.start as int, node.end as int)]);
                    }
                }
                r
            },
            NodeKind::Constructor { has_param_props } => {
                self.visit_children(node)?;
                if *has_param_props {
                    self.module_data.requires_transpile = true;
                }
                Ok(())
            },
            NodeKind::VarDecl { declare } => {
                if *declare {
                    let r = self.remove_range_with_previous_whitespace(node.start, node.end);
                    proof {
                        if r is Ok {
                            assert(self.edits() =~= e0 + seq![back_removal(cx.source, node.start as int, node.end as int)]);
                        }
                    }
                    r
                } else {
                    self.visit_children(node)
                }
            },
            NodeKind::ClassMethod { has_body } | NodeKind::FnDecl { has_body } => {
                if *has_body {
                    self.visit_children(node)
                } else {
                    let r = self.remove_range_with_previous_whitespace(node.start, node.end);
                    proof {
                        if r is Ok {
                            assert(self.edits() =~= e0 + seq![back_removal(cx.source, node.start as int, node.end as int)]);
                        }
                    }
                    r
                }
            },
            NodeKind::TsRuntime => {
                self.module_data.requires_transpile = true;
                self.visit_children(node)
            },
            NodeKind::ExportDefaultExpr | NodeKind::ExportDefaultDecl { .. } | NodeKind::ExportDecl { .. } => {
                self.visit_export(node)
            },
            NodeKind::Class { .. } => self.visit_class(node),
            NodeKind::ClassProp { .. } | NodeKind::PrivateProp { .. } | NodeKind::TsParamProp { .. } => self.visit_prop(node),
            NodeKind::Param { .. } => self.visit_param(node),
            NodeKind::TsSuffix | NodeKind::TsConstAssertion | NodeKind::TsTypeAssertion
            | NodeKind::TsInstantiation => self.visit_type_wrapper(node),
            NodeKind::FnExpr | NodeKind::AwaitExpr | NodeKind::Other => self.visit_children(node),
        }
    }
    /// Rewrites an export declaration.
    fn visit_export(&mut self, node: &Node) -> (r: Result<(), RewriteError>)
        requires
            old(self).wf(),
            node.kind is ExportDefaultExpr || node.kind is ExportDefaultDecl || node.kind is ExportDecl,
        ensures
            final(self).extends(old(self)),
            is_plain(*node, old(self).replace_ids@) ==> r is Ok && final(self).module_data.text_changes
                == old(self).module_data.text_changes && final(self).module_data.requires_transpile
                == old(self).module_data.requires_transpile,
            r is Ok ==> node_edits(old(self).cx(), *node) is Some
                && final(self).edits() =~= old(self).edits() + node_edits(old(self).cx(), *node)->0
                && final(self).module_data.requires_transpile == (old(self).module_data.requires_transpile
                || node_transpiles(old(self).cx(), *node)),
            edits_fit(old(self).edits(), node_edits(old(self).cx(), *node), old(self).source_len as int) ==> r is Ok,
        decreases node, 3nat,
    {
        let ghost cx = self.cx();
        let ghost e0 = self.edits();
        match &node.kind {
            NodeKind::ExportDefaultExpr => {
                proof {
                    let len = self.source_len as int;
                    if edits_fit(e0, node_edits(cx, *node), len) {
                        let kw = keyword_edit(cx, node.start as int, node.end as int, "default"@, "const __pack_default__ = "@, false);
                        let k = if cx.is_root { Some(Seq::<ChangeView>::empty()) } else { opt_single(kw) };
                        lemma_fits_two(e0, k, children_edits(cx, *node, 0, None), len);
                        if !cx.is_root {
                            lemma_fits_opt_single(e0, kw, len);
                        } else {
                            assert(e0 + Seq::<ChangeView>::empty() =~= e0);
                        }
                    }
                }
                if !self.is_root_module {
                    self.replace_export_default(node.start, node.end, "const __pack_default__ = ")?;
                } else {
                    assert(self.edits() =~= e0 + Seq::<ChangeView>::empty());
                }
                let ghost e1 = self.edits();
                let r = self.visit_children(node);
                proof {
                    if r is Ok {
                        let k = if cx.is_root { Seq::<ChangeView>::empty() } else { seq![keyword_edit(cx, node.start as int, node.end as int, "default"@, "const __pack_default__ = "@, false)->0] };
                        assert(e1 =~= e0 + k);
                        assert(self.edits() =~= e0 + (k + children_edits(cx, *node, 0, None)->0));
                    }
                }
                r
            },
            NodeKind::ExportDefaultDecl { decl } => {
                match decl {
                    DefaultDecl::Interface => {
                        proof {
                            lemma_fits_single(e0, removal(node.start as int, node.end as int), self.source_len as int);
                        }
                        let r = self.remove_range(node.start, node.end);
                        proof {
                            if r is Ok {
                                assert(self.edits() =~= e0 + seq![removal(node.start as int, node.end as int)]);
                            }
                        }
                        r
                    },
                    DefaultDecl::Class(ident) | DefaultDecl::Fn(ident) => {
                        let text = if ident.is_none() {
                            "const __pack_default__ = "
                        } else {
                            ""
                        };
                        proof {
                            reveal_strlit("");
                            let t = if ident is None { "const __pack_default__ = "@ } else { Seq::<char>::empty() };
                            assert(text@ == t);
                            let len = self.source_len as int;
                            if edits_fit(e0, node_edits(cx, *node), len) {
                                let kw = keyword_edit(cx, node.start as int, node.end as int, "default"@, t, false);
                                let k = if cx.is_root { Some(Seq::<ChangeView>::empty()) } else { opt_single(kw) };
                                lemma_fits_two(e0, k, children_edits(cx, *node, 0, None), len);
                                if !cx.is_root {
                                    lemma_fits_opt_single(e0, kw, len);
                                } else {
                                    assert(e0 + Seq::<ChangeView>::empty() =~= e0);
                                }
                            }
                        }
                        if !self.is_root_module {
                            self.replace_export_default(node.start, node.end, text)?;
                        } else {
                            assert(self.edits() =~= e0 + Seq::<ChangeView>::empty());
                        }
                        let ghost e1 = self.edits();
                        let r = self.visit_children(node);
                        proof {
                            if r is Ok {
                                let t = if ident is None { "const __pack_default__ = "@ } else { Seq::<char>::empty() };
                                assert(text@ == t);
                                let k = if cx.is_root { Seq::<ChangeView>::empty() } else { seq![keyword_edit(cx, node.start as int, node.end as int, "default"@, t, false)->0] };
                                assert(e1 =~= e0 + k);
                                assert(self.edits() =~= e0 + (k + children_edits(cx, *node, 0, None)->0));
                            }
                        }
                        r
                    },
                }
            },
            NodeKind::ExportDecl { decl } => {
                if erased_decl_exec(decl) {
                    proof {
                        lemma_fits_single(e0, removal(node.start as int, node.end as int), self.source_len as int);
                    }
                    let r = self.remove_range(node.start, node.end);
                    proof {
                        if r is Ok {
                            assert(self.edits() =~= e0 + seq![removal(node.start as int, node.end as int)]);
                        }
                    }
                    r
                } else {
                    proof {
                        reveal_strlit("");
                        assert(""@ == Seq::<char>::empty());
                        let len = self.source_len as int;
                        if edits_fit(e0, node_edits(cx, *node), len) {
                            let kw = keyword_edit(cx, node.start as int, node.end as int, "export"@, Seq::empty(), true);
                            let k = if cx.is_root { Some(Seq::<ChangeView>::empty()) } else { opt_single(kw) };
                            lemma_fits_two(e0, k, children_edits(cx, *node, 0, None), len);
                            if !cx.is_root {
                                lemma_fits_opt_single(e0, kw, len);
                            } else {
                                assert(e0 + Seq::<ChangeView>::empty() =~= e0);
                            }
                        }
                    }
                    if !self.is_root_module {
                        self.remove_export_keyword(node.start, node.end, "")?;
                    } else {
                        assert(self.edits() =~= e0 + Seq::<ChangeView>::empty());
                    }
                    let ghost e1 = self.edits();
                    let r = self.visit_children(node);
                    proof {
                        if r is Ok {
                            let k = if cx.is_root { Seq::<ChangeView>::empty() } else { seq![keyword_edit(cx, node.start as int, node.end as int, "export"@, Seq::empty(), true)->0] };
                            assert(""@ == Seq::<char>::empty());
                            assert(e1 =~= e0 + k);
                            assert(self.edits() =~= e0 + (k + children_edits(cx, *node, 0, None)->0));
                        }
                    }
                    r
                }
            },
            _ => Err(RewriteError::MissingToken),
        }
    }

    /// Rewrites a class.
    fn visit_class(&mut self, node: &Node) -> (r: Result<(), RewriteError>)
        requires
            old(self).wf(),
            node.kind is Class,
        ensures
            final(self).extends(old(self)),
            is_plain(*node, old(self).replace_ids@) ==> r is Ok && final(self).module_data.text_changes
                == old(self).module_data.text_changes && final(self).module_data.requires_transpile
                == old(self).module_data.requires_transpile,
            r is Ok ==> node_edits(old(self).cx(), *node) is Some
                && final(self).edits() =~= old(self).edits() + node_edits(old(self).cx(), *node)->0
                && final(self).module_data.requires_transpile == (old(self).module_data.requires_transpile
                || node_transpiles(old(self).cx(), *node)),
            edits_fit(old(self).edits(), node_edits(old(self).cx(), *node), old(self).source_len as int) ==> r is Ok,
        decreases node, 3nat,
    {
        let ghost cx = self.cx();
        let ghost e0 = self.edits();
        match &node.kind {
            NodeKind::Class { implements } => {
                match implements {
                    None => self.visit_children(node),
                    Some((s, e)) => {
                        let i = match prev_token(self.tokens, *s) {
                            Some(i) => i,
                            None => {
                                return Err(RewriteError::MissingToken);
                            },
                        };
                        let implements_kw = String::from_str("implements");
                        if self.tokens[i].text != implements_kw {
                            return Err(RewriteError::MissingToken);
                        }
                        let j = match next_token(self.tokens, *e) {
                            Some(j) => j,
                            None => {
                                return Err(RewriteError::MissingToken);
                            },
                        };
                        let range_start = self.tokens[i].start;
                        let range_end = self.tokens[j].start;
                        proof {
                            assert(implements_range(cx, *s as int, *e as int) == Some((range_start as int, range_end as int)));
                            let len = self.source_len as int;
                            let rm = removal(range_start as int, range_end as int);
                            if edits_fit(e0, node_edits(cx, *node), len) {
                                lemma_fits_two(e0, Some(seq![rm]), children_edits(cx, *node, 0, Some((range_start as int, range_end as int))), len);
                                lemma_fits_single(e0, rm, len);
                                assert(e0.push(rm) =~= e0 + seq![rm]);
                            }
                        }
                        self.remove_range(range_start, range_end)?;
                        let ghost e1 = self.edits();
                        let r = self.visit_children_except(node, Some((range_start, range_end)));
                        proof {
                            if r is Ok {
                                assert(self.edits() =~= e0 + (seq![removal(range_start as int, range_end as int)]
                                    + children_edits(cx, *node, 0, Some((range_start as int, range_end as int)))->0));
                            }
                        }
                        r
                    },
                }
            },
            _ => Err(RewriteError::MissingToken),
        }
    }

    /// Removes a member's modifier keywords, then rewrites its children.
    fn visit_modified(&mut self, node: &Node, m: &Modifiers) -> (r: Result<(), RewriteError>)
        requires
            old(self).wf(),
        ensures
            final(self).extends(old(self)),
            *m == no_modifiers() && children_plain(*node, 0, old(self).replace_ids@) ==> r is Ok
                && final(self).module_data.text_changes == old(self).module_data.text_changes
                && final(self).module_data.requires_transpile == old(self).module_data.requires_transpile,
            r is Ok ==> opt_concat(
                modifier_edits(old(self).cx(), node.start as int, node.end as int, *m),
                children_edits(old(self).cx(), *node, 0, None),
            ) is Some && final(self).edits() =~= old(self).edits() + opt_concat(
                modifier_edits(old(self).cx(), node.start as int, node.end as int, *m),
                children_edits(old(self).cx(), *node, 0, None),
            )->0 && final(self).module_data.requires_transpile == (old(self).module_data.requires_transpile
                || children_transpile(old(self).cx(), *node, 0, None)),
            edits_fit(
                old(self).edits(),
                opt_concat(
                    modifier_edits(old(self).cx(), node.start as int, node.end as int, *m),
                    children_edits(old(self).cx(), *node, 0, None),
                ),
                old(self).source_len as int,
            ) ==> r is Ok,
        decreases node, 2nat,
    {
        let ghost cx = self.cx();
        let ghost e0 = self.edits();
        proof {
            let len = self.source_len as int;
            let me = modifier_edits(cx, node.start as int, node.end as int, *m);
            if edits_fit(e0, opt_concat(me, children_edits(cx, *node, 0, None)), len) {
                lemma_fits_two(e0, me, children_edits(cx, *node, 0, None), len);
            }
        }
        self.remove_modifiers(node.start, node.end, m)?;
        let ghost e1 = self.edits();
        let r = self.visit_children(node);
        proof {
            if r is Ok {
                assert(self.edits() =~= e0 + (modifier_edits(cx, node.start as int, node.end as int, *m)->0
                    + children_edits(cx, *node, 0, None)->0));
            }
        }
        r
    }

    /// Rewrites a class property or a parameter property.
    fn visit_prop(&mut self, node: &Node) -> (r: Result<(), RewriteError>)
        requires
            old(self).wf(),
            node.kind is ClassProp || node.kind is PrivateProp || node.kind is TsParamProp,
        ensures
            final(self).extends(old(self)),
            is_plain(*node, old(self).replace_ids@) ==> r is Ok && final(self).module_data.text_changes
                == old(self).module_data.text_changes && final(self).module_data.requires_transpile
                == old(self).module_data.requires_transpile,
            r is Ok ==> node_edits(old(self).cx(), *node) is Some
                && final(self).edits() =~= old(self).edits() + node_edits(old(self).cx(), *node)->0
                && final(self).module_data.requires_transpile == (old(self).module_data.requires_transpile
                || node_transpiles(old(self).cx(), *node)),
            edits_fit(old(self).edits(), node_edits(old(self).cx(), *node), old(self).source_len as int) ==> r is Ok,
        decreases node, 3nat,
    {
        let ghost cx = self.cx();
        let ghost e0 = self.edits();
        match &node.kind {
            NodeKind::ClassProp { declare, modifiers } => {
                if *declare {
                    let r = self.remove_range_with_previous_whitespace(node.start, node.end);
                    proof {
                        if r is Ok {
                            assert(self.edits() =~= e0 + seq![back_removal(cx.source, node.start as int, node.end as int)]);
                        }
                    }
                    r
                } else {
                    self.visit_modified(node, modifiers)
                }
            },
            NodeKind::PrivateProp { modifiers } | NodeKind::TsParamProp { modifiers } => self.visit_modified(node, modifiers),
            _ => Err(RewriteError::MissingToken),
        }
    }

    /// Rewrites a parameter.
    fn visit_param(&mut self, node: &Node) -> (r: Result<(), RewriteError>)
        requires
            old(self).wf(),
            node.kind is Param,
        ensures
            final(self).extends(old(self)),
            is_plain(*node, old(self).replace_ids@) ==> r is Ok && final(self).module_data.text_changes
                == old(self).module_data.text_changes && final(self).module_data.requires_transpile
                == old(self).module_data.requires_transpile,
            r is Ok ==> node_edits(old(self).cx(), *node) is Some
                && final(self).edits() =~= old(self).edits() + node_edits(old(self).cx(), *node)->0
                && final(self).module_data.requires_transpile == (old(self).module_data.requires_transpile
                || node_transpiles(old(self).cx(), *node)),
            edits_fit(old(self).edits(), node_edits(old(self).cx(), *node), old(self).source_len as int) ==> r is Ok,
        decreases node, 3nat,
    {
        let ghost cx = self.cx();
        let ghost e0 = self.edits();
        match &node.kind {
            NodeKind::Param { this_param, optional_ident } => {
                if *this_param {
                    proof {
                        let len = self.source_len as int;
                        let b = back_removal(cx.source, node.start as int, node.end as int);
                        if edits_fit(e0, node_edits(cx, *node), len) {
                            let ce = comma_edits(cx, node.end as int);
                            lemma_fits_split(e0, seq![b], ce, len);
                            lemma_fits_single(e0, b, len);
                            assert(e0.push(b) =~= e0 + seq![b]);
                            if ce.len() > 0 {
                                assert(ce =~= seq![ce[0]]);
                                lemma_fits_single(e0 + seq![b], ce[0], len);
                            }
                        }
                    }
                    self.remove_range_with_previous_whitespace(node.start, node.end)?;
                    let ghost e1 = self.edits();
                    let comma = String::from_str(",");
                    match next_token(self.tokens, node.end) {
                        Some(j) => {
                            if self.tokens[j].text == comma {
                                let cs = self.tokens[j].start;
                                let ce = self.tokens[j].end;
                                self.remove_range_with_previous_whitespace(cs, ce)?;
                            }
                        },
                        None => {},
                    }
                    proof {
                        assert(self.edits() =~= e0 + (seq![back_removal(cx.source, node.start as int, node.end as int)]
                            + comma_edits(cx, node.end as int)));
                    }
                    Ok(())
                } else {
                    proof {
                        let len = self.source_len as int;
                        if edits_fit(e0, node_edits(cx, *node), len) {
                            let q = match optional_ident {
                                Some((s, e)) => question_edits(cx, *s as int, *e as int),
                                None => Seq::empty(),
                            };
                            lemma_fits_two(e0, children_edits(cx, *node, 0, None), Some(q), len);
                            if q.len() > 0 {
                                assert(q =~= seq![q[0]]);
                                lemma_fits_single(e0 + children_edits(cx, *node, 0, None)->0, q[0], len);
                            }
                        }
                    }
                    self.visit_children(node)?;
                    let ghost e1 = self.edits();
                    if let Some((s, e)) = optional_ident {
                        let question = String::from_str("?");
                        match next_token(self.tokens, *e) {
                            Some(j) if self.tokens[j].text == question => {
                                let qs = self.tokens[j].start;
                                let qe = self.tokens[j].end;
                                self.remove_range_with_next_whitespace(qs, qe)?;
                            },
                            _ => {
                                if let Some(j) = first_token_in(self.tokens, *s, *e, &question) {
                                    let qs = self.tokens[j].start;
                                    let qe = self.tokens[j].end;
                                    self.remove_range_with_next_whitespace(qs, qe)?;
                                }
                            },
                        }
                        proof {
                            assert(self.edits() =~= e1 + question_edits(cx, *s as int, *e as int));
                        }
                    } else {
                        assert(self.edits() =~= e1 + Seq::<ChangeView>::empty());
                    }
                    proof {
                        let q = match optional_ident {
                            Some((s, e)) => question_edits(cx, *s as int, *e as int),
                            None => Seq::empty(),
                        };
                        assert(self.edits() =~= e0 + (children_edits(cx, *node, 0, None)->0 + q));
                    }
                    Ok(())
                }
            },
            _ => Err(RewriteError::MissingToken),
        }
    }

    /// Rewrites type syntax around an expression.
    fn visit_type_wrapper(&mut self, node: &Node) -> (r: Result<(), RewriteError>)
        requires
            old(self).wf(),
            node.kind is TsSuffix || node.kind is TsConstAssertion || node.kind is TsTypeAssertion || node.kind is TsInstantiation,
        ensures
            final(self).extends(old(self)),
            is_plain(*node, old(self).replace_ids@) ==> r is Ok && final(self).module_data.text_changes
                == old(self).module_data.text_changes && final(self).module_data.requires_transpile
                == old(self).module_data.requires_transpile,
            r is Ok ==> node_edits(old(self).cx(), *node) is Some
                && final(self).edits() =~= old(self).edits() + node_edits(old(self).cx(), *node)->0
                && final(self).module_data.requires_transpile == (old(self).module_data.requires_transpile
                || node_transpiles(old(self).cx(), *node)),
            edits_fit(old(self).edits(), node_edits(old(self).cx(), *node), old(self).source_len as int) ==> r is Ok,
        decreases node, 3nat,
    {
        let ghost cx = self.cx();
        let ghost e0 = self.edits();
        match &node.kind {
            NodeKind::TsSuffix => {
                proof {
                    let len = self.source_len as int;
                    if edits_fit(e0, node_edits(cx, *node), len) {
                        let rm = removal(node.children@[0].end as int, node.end as int);
                        lemma_fits_two(e0, first_child_edits(cx, *node), Some(seq![rm]), len);
                        lemma_fits_single(e0 + first_child_edits(cx, *node)->0, rm, len);
                    }
                }
                self.visit_first_child(node)?;
                let expr_end = node.children[0].end;
                let r = self.remove_range(expr_end, node.end);
                proof {
                    if r is Ok {
                        assert(self.edits() =~= e0 + (first_child_edits(cx, *node)->0 + seq![removal(expr_end as int, node.end as int)]));
                    }
                }
                r
            },
            NodeKind::TsConstAssertion => {
                proof {
                    let len = self.source_len as int;
                    if edits_fit(e0, node_edits(cx, *node), len) {
                        let rm = back_removal(cx.source, node.children@[0].end as int, node.end as int);
                        lemma_fits_two(e0, first_child_edits(cx, *node), Some(seq![rm]), len);
                        lemma_fits_single(e0 + first_child_edits(cx, *node)->0, rm, len);
                    }
                }
                self.visit_first_child(node)?;
                let expr_end = node.children[0].end;
                let r = self.remove_range_with_previous_whitespace(expr_end, node.end);
                proof {
                    if r is Ok {
                        assert(self.edits() =~= e0 + (first_child_edits(cx, *node)->0
                            + seq![back_removal(cx.source, expr_end as int, node.end as int)]));
                    }
                }
                r
            },
            NodeKind::TsTypeAssertion => {
                if node.children.len() == 0 {
                    return Err(RewriteError::MissingToken);
                }
                let expr_start = node.children[0].start;
                proof {
                    let len = self.source_len as int;
                    if edits_fit(e0, node_edits(cx, *node), len) {
                        let rm = fwd_removal(cx.source, node.start as int, expr_start as int);
                        lemma_fits_two(e0, Some(seq![rm]), first_child_edits(cx, *node), len);
                        lemma_fits_single(e0, rm, len);
                        assert(e0.push(rm) =~= e0 + seq![rm]);
                    }
                }
                self.remove_range_with_next_whitespace(node.start, expr_start)?;
                let r = self.visit_first_child(node);
                proof {
                    if r is Ok {
                        assert(self.edits() =~= e0 + (seq![fwd_removal(cx.source, node.start as int, expr_start as int)]
                            + first_child_edits(cx, *node)->0));
                    }
                }
                r
            },
            NodeKind::TsInstantiation => {
                proof {
                    let len = self.source_len as int;
                    if edits_fit(e0, node_edits(cx, *node), len) {
                        let rm = fwd_removal(cx.source, node.children@[0].end as int, node.end as int);
                        lemma_fits_two(e0, first_child_edits(cx, *node), Some(seq![rm]), len);
                        lemma_fits_single(e0 + first_child_edits(cx, *node)->0, rm, len);
                    }
                }
                self.visit_first_child(node)?;
                let expr_end = node.children[0].end;
                let r = self.remove_range_with_next_whitespace(expr_end, node.end);
                proof {
                    if r is Ok {
                        assert(self.edits() =~= e0 + (first_child_edits(cx, *node)->0
                            + seq![fwd_removal(cx.source, expr_end as int, node.end as int)]));
                    }
                }
                r
            },
            _ => Err(RewriteError::MissingToken),
        }
    }

}

} // verus!
