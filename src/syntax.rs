use vstd::prelude::*;

verus! {

/// A token of a module's text, with the characters `start..end` it covers.
pub struct Token {
    pub text: String,
    pub start: usize,
    pub end: usize,
}

/// An identifier occurrence. `scope` tells apart bindings that share a
/// spelling: two occurrences with equal `sym` and `scope` name one binding.
pub struct Ident {
    pub sym: String,
    pub scope: u64,
    pub start: usize,
    pub end: usize,
}

/// A name in an import or export clause: an identifier or a string.
pub enum ModuleExportName {
    Ident(Ident),
    Str(String),
}

/// One binding of an import declaration.
pub enum ImportSpecifier {
    /// `import local from "dep"`
    Default { local: Ident },
    /// `import * as local from "dep"`
    Namespace { local: Ident },
    /// `import { imported as local } from "dep"`
    Named { local: Ident, imported: Option<ModuleExportName>, type_only: bool },
}

/// One item of an export clause.
pub enum ExportSpecifier {
    /// `export { orig as exported }`
    Named { orig: ModuleExportName, exported: Option<ModuleExportName>, type_only: bool },
    /// `export * as name from "dep"`
    Namespace { name: ModuleExportName },
    /// `export name from "dep"`
    Default,
}

/// The key of a property in an object pattern.
pub enum PropKey {
    Ident(String),
    Str(String),
    /// A computed, numeric or big-integer key.
    Other,
}

/// A property of an object pattern.
pub enum ObjectPatProp {
    /// `{ key: value }`
    KeyValue(PropKey),
    /// `{ key = default }` or `{ key }`
    Assign(String),
    /// `{ ...rest }`; `None` when the rest target is not an identifier.
    Rest(Option<String>),
}

/// The pattern a variable declarator binds.
pub enum VarPattern {
    Ident(String),
    Object(Vec<ObjectPatProp>),
    /// An array, assignment or other pattern.
    Other,
}

/// The declaration of an `export <declaration>`.
#[allow(inconsistent_fields)]
pub enum ExportedDecl {
    Class { name: String, declare: bool },
    Fn { name: String, declare: bool, has_body: bool },
    Var { declare: bool, patterns: Vec<VarPattern> },
    TsEnum { name: String, declare: bool },
    /// A namespace or module declaration; `name` is `None` for a string name.
    TsModule { name: Option<String>, declare: bool },
    /// An interface or type alias.
    TypeOnly,
}

/// The declaration of an `export default <declaration>`.
pub enum DefaultDecl {
    Class(Option<Ident>),
    Fn(Option<Ident>),
    Interface,
}

#[derive(Clone, Copy, Debug, PartialEq, Eq, Structural)]
pub enum Accessibility {
    Private,
    Protected,
    Public,
}

/// The modifier keywords of a class member or parameter property.
#[derive(Clone, Copy, Debug, PartialEq, Eq, Structural)]
pub struct Modifiers {
    pub accessibility: Option<Accessibility>,
    pub readonly: bool,
    pub is_override: bool,
    pub is_abstract: bool,
    pub definite: bool,
    pub optional: bool,
}

/// What a syntax node is, with what the packer reads of it.
#[allow(inconsistent_fields)]
pub enum NodeKind {
    /// An identifier reference; `shorthand` when it is the key and value of
    /// an object literal's shorthand property (`{ foo }`).
    Ident { ident: Ident, shorthand: bool },
    ImportDecl { resolved: Option<String>, type_only: bool, specifiers: Vec<ImportSpecifier> },
    ExportDefaultExpr,
    ExportDefaultDecl { decl: DefaultDecl },
    ExportDecl { decl: ExportedDecl },
    /// `export { .. }`, with `from "dep"` when `has_src`.
    NamedExport { has_src: bool, resolved: Option<String>, type_only: bool, specifiers: Vec<ExportSpecifier> },
    ExportAll { resolved: Option<String>, type_only: bool },
    /// A class; `implements` is the range of its `implements` clause.
    Class { implements: Option<(usize, usize)> },
    ClassProp { declare: bool, modifiers: Modifiers },
    PrivateProp { modifiers: Modifiers },
    Constructor { has_param_props: bool },
    VarDecl { declare: bool },
    /// A parameter; `optional_ident` is the range of an identifier marked `?`.
    Param { this_param: bool, optional_ident: Option<(usize, usize)> },
    ClassMethod { has_body: bool },
    FnDecl { has_body: bool },
    /// A function expression or arrow function.
    FnExpr,
    AwaitExpr,
    /// An enum, namespace or module declaration, or a module block.
    TsRuntime,
    /// `expr as T`, `expr!`, `expr satisfies T`: the first child is `expr`.
    TsSuffix,
    /// `expr as const`: the first child is `expr`.
    TsConstAssertion,
    /// `<T>expr`: the first child is `expr`.
    TsTypeAssertion,
    /// `expr<T>`: the first child is `expr`.
    TsInstantiation,
    TsParamProp { modifiers: Modifiers },
    /// Syntax with no runtime meaning: types, interfaces, signatures.
    TypeOnly,
    /// Any other node.
    Other,
}

/// A syntax node covering the characters `start..end` of its module.
pub struct Node {
    pub kind: NodeKind,
    pub start: usize,
    pub end: usize,
    pub children: Vec<Node>,
}

/// A parsed module: its text, its tokens in order and its top-level items.
pub struct Program {
    pub source: String,
    pub tokens: Vec<Token>,
    pub body: Vec<Node>,
}

/// The node is a function boundary for the top-level await search.
pub open spec fn is_fn_boundary(n: Node) -> bool {
    match n.kind {
        NodeKind::FnDecl { .. } | NodeKind::FnExpr | NodeKind::ClassMethod { .. } => true,
        _ => false,
    }
}

/// The node is, or holds without crossing a function boundary, an await.
pub open spec fn has_await(n: Node) -> bool
    decreases n, 1nat, 0int,
{
    n.kind is AwaitExpr || children_have_await(n, 0)
}

/// A child from index `i` on is, or holds, an await outside any function.
pub open spec fn children_have_await(n: Node, i: int) -> bool
    decreases n, 0nat, n.children@.len() - i,
{
    if 0 <= i < n.children@.len() {
        (!is_fn_boundary(n.children@[i]) && has_await(n.children@[i])) || children_have_await(n, i + 1)
    } else {
        false
    }
}

fn is_fn_boundary_exec(n: &Node) -> (r: bool)
    ensures
        r == is_fn_boundary(*n),
{
    match n.kind {
        NodeKind::FnDecl { .. } | NodeKind::FnExpr | NodeKind::ClassMethod { .. } => true,
        _ => false,
    }
}

/// Whether the node is, or holds without crossing into a nested function, an
/// await expression.
pub fn has_function_scoped_node(node: &Node) -> (r: bool)
    ensures
        r == has_await(*node),
    decreases node,
{
    if let NodeKind::AwaitExpr = node.kind {
        return true;
    }
    let n = node.children.len();
    let mut i: usize = 0;
    while i < n
        invariant
            n == node.children@.len(),
            i <= n,
            children_have_await(*node, 0) == children_have_await(*node, i as int),
        decreases n - i,
    {
        let child = &node.children[i];
        if !is_fn_boundary_exec(child) && has_function_scoped_node(child) {
            return true;
        }
        i = i + 1;
    }
    false
}

} // verus!
