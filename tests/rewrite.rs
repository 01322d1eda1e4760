use deno_emit::aliases::Alias;
use deno_emit::registry::{ModuleData, ModuleId};
use deno_emit::rewrite::{RewriteError, TextChangeCollector};
use deno_emit::syntax::{has_function_scoped_node, Accessibility, Ident, Modifiers, Node, NodeKind, Token};
use deno_emit::text_change::apply_text_changes;

fn tokenize(src: &str) -> Vec<Token> {
    let chars: Vec<char> = src.chars().collect();
    let mut tokens = Vec::new();
    let mut i = 0;
    while i < chars.len() {
        let c = chars[i];
        if c.is_whitespace() {
            i += 1;
        } else if c.is_alphanumeric() || c == '_' {
            let start = i;
            while i < chars.len() && (chars[i].is_alphanumeric() || chars[i] == '_') {
                i += 1;
            }
            tokens.push(Token { text: chars[start..i].iter().collect(), start, end: i });
        } else {
            tokens.push(Token { text: c.to_string(), start: i, end: i + 1 });
            i += 1;
        }
    }
    tokens
}

fn pos(src: &str, needle: &str) -> (usize, usize) {
    let idx = src.find(needle).expect("needle");
    let start = src[..idx].chars().count();
    (start, start + needle.chars().count())
}

fn leaf(kind: NodeKind, range: (usize, usize)) -> Node {
    Node { kind, start: range.0, end: range.1, children: vec![] }
}

fn rewrite(src: &str, aliases: &Vec<Alias>, nodes: &[Node], is_root: bool) -> Result<(String, bool), RewriteError> {
    let tokens = tokenize(src);
    let mut c = TextChangeCollector {
        module_data: ModuleData::new(ModuleId(0)),
        replace_ids: aliases,
        source: src,
        source_len: src.chars().count(),
        tokens: &tokens,
        is_root_module: is_root,
    };
    for n in nodes {
        c.visit(n)?;
    }
    let transpile = c.module_data.requires_transpile;
    let text = apply_text_changes(src, c.module_data.text_changes).unwrap();
    Ok((text, transpile))
}

fn no_modifiers() -> Modifiers {
    Modifiers { accessibility: None, readonly: false, is_override: false, is_abstract: false, definite: false, optional: false }
}

#[test]
fn shorthand_property_keeps_its_key() {
    let src = "f({ x, y });";
    let aliases = vec![Alias { sym: "x".to_string(), scope: 1, text: "pack2.x".to_string() }];
    let (s, e) = pos(src, "x");
    let ident = Ident { sym: "x".to_string(), scope: 1, start: s, end: e };
    let (ys, ye) = pos(src, "y");
    let other = Ident { sym: "y".to_string(), scope: 1, start: ys, end: ye };
    let nodes = vec![
        leaf(NodeKind::Ident { ident, shorthand: true }, (s, e)),
        leaf(NodeKind::Ident { ident: other, shorthand: true }, (ys, ye)),
    ];
    assert_eq!(rewrite(src, &aliases, &nodes, false), Ok(("f({ x: pack2.x, y });".to_string(), false)));
}

#[test]
fn identifier_of_another_scope_is_kept() {
    let src = "x + x";
    let aliases = vec![Alias { sym: "x".to_string(), scope: 1, text: "pack1.x".to_string() }];
    let a = Ident { sym: "x".to_string(), scope: 1, start: 0, end: 1 };
    let b = Ident { sym: "x".to_string(), scope: 2, start: 4, end: 5 };
    let nodes = vec![
        leaf(NodeKind::Ident { ident: a, shorthand: false }, (0, 1)),
        leaf(NodeKind::Ident { ident: b, shorthand: false }, (4, 5)),
    ];
    assert_eq!(rewrite(src, &aliases, &nodes, false), Ok(("pack1.x + x".to_string(), false)));
}

#[test]
fn class_member_modifiers_are_removed() {
    let src = "class A {\n  private readonly x!: number = 1;\n  declare y: string;\n}";
    let (ps, pe) = pos(src, "private readonly x!: number = 1;");
    let mods = Modifiers { accessibility: Some(Accessibility::Private), readonly: true, definite: true, ..no_modifiers() };
    let prop = Node {
        kind: NodeKind::ClassProp { declare: false, modifiers: mods },
        start: ps,
        end: pe,
        children: vec![leaf(NodeKind::TypeOnly, pos(src, ": number"))],
    };
    let declared = leaf(NodeKind::ClassProp { declare: true, modifiers: no_modifiers() }, pos(src, "declare y: string;"));
    let class = Node {
        kind: NodeKind::Class { implements: None },
        start: 0,
        end: src.chars().count(),
        children: vec![prop, declared],
    };
    assert_eq!(
        rewrite(src, &vec![], &[class], false),
        Ok(("class A {\n  x = 1;\n}".to_string(), false))
    );
}

#[test]
fn implements_clause_is_removed() {
    let src = "class A implements B, C {}";
    let class = Node {
        kind: NodeKind::Class { implements: Some((pos(src, "B").0, pos(src, "C").1)) },
        start: 0,
        end: src.chars().count(),
        children: vec![],
    };
    assert_eq!(rewrite(src, &vec![], &[class], false), Ok(("class A {}".to_string(), false)));
}

#[test]
fn type_wrappers_keep_the_expression() {
    let src = "f(<T>a, b as U, c!, d satisfies V);";
    let wrap = |kind: NodeKind, whole: &str, inner: &str| {
        let (s, e) = pos(src, whole);
        let (is, ie) = pos(src, inner);
        Node { kind, start: s, end: e, children: vec![leaf(NodeKind::Other, (is, ie))] }
    };
    let nodes = vec![
        wrap(NodeKind::TsTypeAssertion, "<T>a", "a,"),
        wrap(NodeKind::TsSuffix, "b as U", "b"),
        wrap(NodeKind::TsSuffix, "c!", "c"),
        wrap(NodeKind::TsSuffix, "d satisfies V", "d"),
    ];
    let mut nodes = nodes;
    nodes[0].children[0].end -= 1;
    assert_eq!(rewrite(src, &vec![], &nodes, false), Ok(("f(a, b, c, d);".to_string(), false)));
}

#[test]
fn enum_marks_the_module_for_transpiling() {
    let src = "enum E { A }";
    let node = leaf(NodeKind::TsRuntime, (0, src.len()));
    assert_eq!(rewrite(src, &vec![], &[node], false), Ok((src.to_string(), true)));
}

#[test]
fn this_parameter_is_removed_with_its_comma() {
    let src = "function f(this: A, b) {}";
    let param = leaf(NodeKind::Param { this_param: true, optional_ident: None }, pos(src, "this: A"));
    let f = Node { kind: NodeKind::FnDecl { has_body: true }, start: 0, end: src.len(), children: vec![param] };
    assert_eq!(rewrite(src, &vec![], &[f], false), Ok(("function f( b) {}".to_string(), false)));
}

#[test]
fn export_keyword_is_kept_on_the_root() {
    let src = "export function f() {}";
    let decl = deno_emit::syntax::ExportedDecl::Fn { name: "f".to_string(), declare: false, has_body: true };
    let node = Node {
        kind: NodeKind::ExportDecl { decl },
        start: 0,
        end: src.len(),
        children: vec![leaf(NodeKind::FnDecl { has_body: true }, (7, src.len()))],
    };
    assert_eq!(rewrite(src, &vec![], &[node], true), Ok((src.to_string(), false)));
}

#[test]
fn overload_signature_is_removed() {
    let src = "function f(): void;\nfunction f() {}";
    let sig = leaf(NodeKind::FnDecl { has_body: false }, pos(src, "function f(): void;"));
    assert_eq!(rewrite(src, &vec![], &[sig], false), Ok(("\nfunction f() {}".to_string(), false)));
}

#[test]
fn overlapping_model_is_reported() {
    let src = "let x = 1;";
    let nodes = vec![leaf(NodeKind::TypeOnly, (0, 5)), leaf(NodeKind::TypeOnly, (3, 7))];
    assert!(matches!(rewrite(src, &vec![], &nodes, false), Err(RewriteError::Conflict(_))));
}

#[test]
fn await_inside_function_is_not_top_level() {
    let await_node = leaf(NodeKind::AwaitExpr, (0, 1));
    let inner = Node { kind: NodeKind::FnExpr, start: 0, end: 1, children: vec![await_node] };
    let stmt = Node { kind: NodeKind::Other, start: 0, end: 1, children: vec![inner] };
    assert!(!has_function_scoped_node(&stmt));
    let direct = Node { kind: NodeKind::Other, start: 0, end: 1, children: vec![leaf(NodeKind::AwaitExpr, (0, 1))] };
    assert!(has_function_scoped_node(&direct));
}

#[test]
fn export_without_its_keyword_token_is_reported() {
    let src = "const a = 1;";
    let decl = deno_emit::syntax::ExportedDecl::Var {
        declare: false,
        patterns: vec![deno_emit::syntax::VarPattern::Ident("a".to_string())],
    };
    let node = Node { kind: NodeKind::ExportDecl { decl }, start: 0, end: src.len(), children: vec![] };
    assert_eq!(rewrite(src, &vec![], &[node], false), Err(RewriteError::MissingToken));
}
