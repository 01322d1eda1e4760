use deno_emit::analyze::PackError;
use deno_emit::pack::{pack, GraphModule, ModuleGraph, ModuleSource, PackOptions};
use deno_emit::syntax::{
    DefaultDecl, ExportSpecifier, ExportedDecl, Ident, ImportSpecifier, ModuleExportName, Node, NodeKind, Program, Token,
    VarPattern,
};

fn tokenize(src: &str) -> Vec<Token> {
    let chars: Vec<char> = src.chars().collect();
    let mut tokens = Vec::new();
    let mut i = 0;
    while i < chars.len() {
        let c = chars[i];
        if c.is_whitespace() {
            i += 1;
        } else if c.is_alphanumeric() || c == '_' || c == '$' {
            let start = i;
            while i < chars.len() && (chars[i].is_alphanumeric() || chars[i] == '_' || chars[i] == '$') {
                i += 1;
            }
            tokens.push(Token { text: chars[start..i].iter().collect(), start, end: i });
        } else if c == '"' {
            let start = i;
            i += 1;
            while i < chars.len() && chars[i] != '"' {
                i += 1;
            }
            i += 1;
            tokens.push(Token { text: chars[start..i].iter().collect(), start, end: i });
        } else {
            tokens.push(Token { text: c.to_string(), start: i, end: i + 1 });
            i += 1;
        }
    }
    tokens
}

/// Character range of the `nth` occurrence of `needle`.
fn at(src: &str, needle: &str, nth: usize) -> (usize, usize) {
    let mut from = 0;
    let mut found = 0;
    loop {
        let idx = src[from..].find(needle).expect("needle") + from;
        if found == nth {
            let start = src[..idx].chars().count();
            return (start, start + needle.chars().count());
        }
        found += 1;
        from = idx + needle.len();
    }
}

fn node(kind: NodeKind, range: (usize, usize), children: Vec<Node>) -> Node {
    Node { kind, start: range.0, end: range.1, children }
}

fn ident(src: &str, name: &str, nth: usize, scope: u64) -> Ident {
    let (start, end) = at(src, name, nth);
    Ident { sym: name.to_string(), scope, start, end }
}

fn ident_node(src: &str, name: &str, nth: usize, scope: u64) -> Node {
    let i = ident(src, name, nth, scope);
    let range = (i.start, i.end);
    node(NodeKind::Ident { ident: i, shorthand: false }, range, vec![])
}

fn program(src: &str, body: Vec<Node>) -> Program {
    Program { source: src.to_string(), tokens: tokenize(src), body }
}

fn esm(specifier: &str, p: Program) -> GraphModule {
    GraphModule { specifier: specifier.to_string(), source: ModuleSource::Esm(p) }
}

fn graph(modules: Vec<GraphModule>) -> ModuleGraph {
    let root = modules[0].specifier.clone();
    ModuleGraph { roots: vec![root], modules }
}

fn no_transpile(s: &str) -> Result<String, String> {
    Ok(s.to_string())
}

fn named_import(src: &str, name: &str, scope: u64) -> ImportSpecifier {
    ImportSpecifier::Named { local: ident(src, name, 0, scope), imported: None, type_only: false }
}

const LOGGER_TS: &str = "export interface Logger {\n  log(msg: string): void;\n}\n\nexport const logger: Logger = {\n  log(msg: string) {\n    console.log(msg);\n  },\n};\n";

fn logger_module() -> GraphModule {
    let src = LOGGER_TS;
    let interface_end = at(src, "}\n\n", 0).0 + 1;
    let decl_start = at(src, "const", 0).0;
    let decl_end = src.chars().count() - 1;
    let body = vec![
        node(NodeKind::ExportDecl { decl: ExportedDecl::TypeOnly }, (0, interface_end), vec![]),
        node(
            NodeKind::ExportDecl {
                decl: ExportedDecl::Var { declare: false, patterns: vec![VarPattern::Ident("logger".to_string())] },
            },
            (at(src, "export const", 0).0, decl_end),
            vec![node(
                NodeKind::VarDecl { declare: false },
                (decl_start, decl_end),
                vec![
                    ident_node(src, "logger", 0, 1),
                    node(NodeKind::TypeOnly, at(src, ": Logger", 0), vec![]),
                    node(
                        NodeKind::Other,
                        (at(src, "{\n  log(msg", 0).0, at(src, "},\n};", 0).1 - 1),
                        vec![
                            node(NodeKind::TypeOnly, at(src, ": string", 1), vec![]),
                            ident_node(src, "console", 0, 0),
                            ident_node(src, "msg", 2, 2),
                        ],
                    ),
                ],
            )],
        ),
    ];
    esm("file:///a/logger.ts", program(src, body))
}

const LOGGER_OUT: &str = "const pack0 = {\n  logger: undefined,\n};\n\n// /logger.ts\n(() => {\nconst logger = {\n  log(msg) {\n    console.log(msg);\n  },\n};\nObject.defineProperty(pack0, \"logger\", { get: () => logger });\n})();\n\n// /mod.ts\nconst l = pack0.logger;\nl.log(\"hi\");\n";

fn ident_at(name: &str, start: usize, scope: u64) -> Node {
    let i = Ident { sym: name.to_string(), scope, start, end: start + name.chars().count() };
    node(NodeKind::Ident { ident: i, shorthand: false }, (start, start + name.chars().count()), vec![])
}

#[test]
fn named_import_binding_rewrite() {
    let src = "import { logger, Logger } from \"./logger.ts\";\nconst l: Logger = logger;\nl.log(\"hi\");\n";
    let body = vec![
        node(
            NodeKind::ImportDecl {
                resolved: Some("file:///a/logger.ts".to_string()),
                type_only: false,
                specifiers: vec![named_import(src, "logger", 1), named_import(src, "Logger", 1)],
            },
            (0, at(src, ";\n", 0).1 - 1),
            vec![],
        ),
        node(
            NodeKind::VarDecl { declare: false },
            (at(src, "const", 0).0, at(src, "logger;", 0).1),
            vec![
                ident_at("l", at(src, "l: Logger", 0).0, 1),
                node(NodeKind::TypeOnly, at(src, ": Logger", 0), vec![]),
                ident_at("logger", at(src, "= logger", 0).0 + 2, 1),
            ],
        ),
        node(NodeKind::Other, at(src, "l.log(\"hi\");", 0), vec![ident_at("l", at(src, "l.log", 0).0, 1)]),
    ];
    let g = graph(vec![esm("file:///a/mod.ts", program(src, body)), logger_module()]);
    let out = pack(&g, &PackOptions { include_remote: false }, no_transpile).unwrap();
    assert_eq!(out, LOGGER_OUT);
}

#[test]
fn namespace_and_named_imports_pack_the_same() {
    let named_src = "import { logger } from \"./logger.ts\";\nconst l = logger;\nl.log(\"hi\");\n";
    let ns_src = "import * as logger from \"./logger.ts\";\nconst l = logger.logger;\nl.log(\"hi\");\n";
    let named_body = vec![
        node(
            NodeKind::ImportDecl {
                resolved: Some("file:///a/logger.ts".to_string()),
                type_only: false,
                specifiers: vec![named_import(named_src, "logger", 1)],
            },
            (0, at(named_src, ";\n", 0).1 - 1),
            vec![],
        ),
        node(NodeKind::Other, (at(named_src, "const", 0).0, at(named_src, "l.log", 0).0 - 1), vec![ident_at("logger", at(named_src, "= logger", 0).0 + 2, 1)]),
    ];
    let ns_body = vec![
        node(
            NodeKind::ImportDecl {
                resolved: Some("file:///a/logger.ts".to_string()),
                type_only: false,
                specifiers: vec![ImportSpecifier::Namespace { local: ident(ns_src, "logger", 0, 1) }],
            },
            (0, at(ns_src, ";\n", 0).1 - 1),
            vec![],
        ),
        node(NodeKind::Other, (at(ns_src, "const", 0).0, at(ns_src, "l.log", 0).0 - 1), vec![ident_at("logger", at(ns_src, "= logger", 0).0 + 2, 1)]),
    ];
    let a = pack(
        &graph(vec![esm("file:///a/mod.ts", program(named_src, named_body)), logger_module()]),
        &PackOptions { include_remote: false },
        no_transpile,
    )
    .unwrap();
    let b = pack(
        &graph(vec![esm("file:///a/mod.ts", program(ns_src, ns_body)), logger_module()]),
        &PackOptions { include_remote: false },
        no_transpile,
    )
    .unwrap();
    assert_eq!(a, b);
    assert!(a.ends_with("// /mod.ts\nconst l = pack0.logger;\nl.log(\"hi\");\n"));
}

fn default_module(specifier: &str, src: &str, decl: Option<DefaultDecl>) -> GraphModule {
    let end = src.trim_end().chars().count();
    let kind = match decl {
        Some(d) => NodeKind::ExportDefaultDecl { decl: d },
        None => NodeKind::ExportDefaultExpr,
    };
    let inner_start = at(src, "default ", 0).1;
    let children = match &kind {
        NodeKind::ExportDefaultDecl { decl: DefaultDecl::Interface } => vec![],
        _ => vec![node(NodeKind::Other, (inner_start, end), vec![])],
    };
    esm(specifier, program(src, vec![node(kind, (0, end), children)]))
}

#[test]
fn default_export_forms() {
    let root_src = "import A from \"./a.ts\";\nimport B from \"./b.ts\";\nimport C from \"./c.ts\";\nimport D from \"./d.ts\";\nimport E from \"./e.ts\";\nconsole.log(B, C, D, E);\n";
    let mut body = Vec::new();
    for (k, (name, file)) in [("A", "a"), ("B", "b"), ("C", "c"), ("D", "d"), ("E", "e")].iter().enumerate() {
        let line = format!("import {} from \"./{}.ts\";", name, file);
        let (start, end) = at(root_src, &line, 0);
        body.push(node(
            NodeKind::ImportDecl {
                resolved: Some(format!("file:///a/{}.ts", file)),
                type_only: false,
                specifiers: vec![ImportSpecifier::Default { local: ident(root_src, name, 0, 1) }],
            },
            (start, end),
            vec![],
        ));
        let _ = k;
    }
    let call = at(root_src, "console.log(B, C, D, E);", 0);
    body.push(node(
        NodeKind::Other,
        call,
        vec![
            ident_node(root_src, "B, C", 0, 1),
            ident_node(root_src, "C, D", 0, 1),
            ident_node(root_src, "D, E", 0, 1),
            ident_node(root_src, "E);", 0, 1),
        ],
    ));
    // identifier nodes cover the single letter only
    for child in body[5].children.iter_mut() {
        if let NodeKind::Ident { ident, .. } = &mut child.kind {
            ident.sym = ident.sym[..1].to_string();
            ident.end = ident.start + 1;
            child.end = child.start + 1;
        }
    }
    let b_src = "export default class B {}\n";
    let d_src = "export default function d() {}\n";
    let b_ident = ident(b_src, "B", 0, 1);
    let d_ident = ident(d_src, "d", 1, 1);
    let modules = vec![
        esm("file:///a/mod.ts", program(root_src, body)),
        default_module("file:///a/a.ts", "export default interface A {\n  x: number;\n}\n", Some(DefaultDecl::Interface)),
        default_module("file:///a/b.ts", b_src, Some(DefaultDecl::Class(Some(b_ident)))),
        default_module("file:///a/c.ts", "export default class {}\n", Some(DefaultDecl::Class(None))),
        default_module("file:///a/d.ts", d_src, Some(DefaultDecl::Fn(Some(d_ident)))),
        default_module("file:///a/e.ts", "export default function () {}\n", Some(DefaultDecl::Fn(None))),
    ];
    let out = pack(&graph(modules), &PackOptions { include_remote: false }, no_transpile).unwrap();
    let expected = "const pack1 = {\n  default: undefined,\n};\nconst pack2 = {\n  default: undefined,\n};\nconst pack3 = {\n  default: undefined,\n};\nconst pack4 = {\n  default: undefined,\n};\n\n// /e.ts\n(() => {\nconst __pack_default__ = function () {}\nObject.defineProperty(pack4, \"default\", { get: () => __pack_default__ });\n})();\n\n// /d.ts\n(() => {\nfunction d() {}\nObject.defineProperty(pack3, \"default\", { get: () => d });\n})();\n\n// /c.ts\n(() => {\nconst __pack_default__ = class {}\nObject.defineProperty(pack2, \"default\", { get: () => __pack_default__ });\n})();\n\n// /b.ts\n(() => {\nclass B {}\nObject.defineProperty(pack1, \"default\", { get: () => B });\n})();\n\n// /mod.ts\nconsole.log(pack1.default, pack2.default, pack3.default, pack4.default);\n";
    assert_eq!(out, expected);
    assert!(!out.contains("pack0 ="));
}

#[test]
fn json_module_is_embedded() {
    let src = "import data from \"./data.json\" assert { type: \"json\" };\nconsole.log(data.a);\n";
    let body = vec![
        node(
            NodeKind::ImportDecl {
                resolved: Some("file:///a/data.json".to_string()),
                type_only: false,
                specifiers: vec![ImportSpecifier::Default { local: ident(src, "data", 0, 1) }],
            },
            (0, at(src, ";\n", 0).1 - 1),
            vec![],
        ),
        node(NodeKind::Other, at(src, "console.log(data.a);", 0), vec![ident_node(src, "data.a", 0, 1)]),
    ];
    let mut body = body;
    let d = at(src, "data.a", 0).0;
    body[1].children[0] = node(
        NodeKind::Ident { ident: Ident { sym: "data".to_string(), scope: 1, start: d, end: d + 4 }, shorthand: false },
        (d, d + 4),
        vec![],
    );
    let modules = vec![
        esm("file:///a/mod.ts", program(src, body)),
        GraphModule {
            specifier: "file:///a/data.json".to_string(),
            source: ModuleSource::Json("{ \"a\": 1 }\n".to_string()),
        },
    ];
    let out = pack(&graph(modules), &PackOptions { include_remote: false }, no_transpile).unwrap();
    assert_eq!(
        out,
        "// /data.json\nconst pack0 = {\n  default: { \"a\": 1 }\n};\n\n// /mod.ts\nconsole.log(pack0.default.a);\n"
    );
}

#[test]
fn packing_twice_gives_the_same_text() {
    let make = || {
        let src = "import { logger } from \"./logger.ts\";\nconst l = logger;\n";
        let body = vec![
            node(
                NodeKind::ImportDecl {
                    resolved: Some("file:///a/logger.ts".to_string()),
                    type_only: false,
                    specifiers: vec![named_import(src, "logger", 1)],
                },
                (0, at(src, ";\n", 0).1 - 1),
                vec![],
            ),
            node(NodeKind::Other, at(src, "const l = logger;", 0), vec![ident_at("logger", at(src, "= logger", 0).0 + 2, 1)]),
        ];
        graph(vec![esm("file:///a/mod.ts", program(src, body)), logger_module()])
    };
    let a = pack(&make(), &PackOptions { include_remote: false }, no_transpile).unwrap();
    let b = pack(&make(), &PackOptions { include_remote: false }, no_transpile).unwrap();
    assert_eq!(a, b);
}

#[test]
fn module_without_imports_or_exports_is_only_wrapped() {
    let dep_src = "\nconsole.log(\"side effect\");\n";
    let dep_body = vec![node(NodeKind::Other, at(dep_src, "console.log(\"side effect\");", 0), vec![ident_node(dep_src, "console", 0, 0)])];
    let root_src = "import \"./dep.ts\";\n";
    let root_body = vec![node(
        NodeKind::ImportDecl { resolved: Some("file:///dep.ts".to_string()), type_only: false, specifiers: vec![] },
        (0, root_src.len() - 1),
        vec![],
    )];
    let modules = vec![
        esm("file:///mod.ts", program(root_src, root_body)),
        esm("file:///dep.ts", program(dep_src, dep_body)),
    ];
    let out = pack(&graph(modules), &PackOptions { include_remote: false }, no_transpile).unwrap();
    assert_eq!(out, "// dep.ts\n(() => {\nconsole.log(\"side effect\");\n})();\n");
}

#[test]
fn unresolved_import_fails() {
    let src = "import { x } from \"./missing.ts\";\n";
    let body = vec![node(
        NodeKind::ImportDecl { resolved: None, type_only: false, specifiers: vec![named_import(src, "x", 1)] },
        (0, src.len() - 1),
        vec![],
    )];
    let r = pack(&graph(vec![esm("file:///mod.ts", program(src, body))]), &PackOptions { include_remote: false }, no_transpile);
    assert_eq!(r, Err(PackError::Unresolved("file:///mod.ts".to_string())));
}

#[test]
fn more_than_one_root_fails() {
    let g = ModuleGraph { roots: vec!["file:///a.ts".to_string(), "file:///b.ts".to_string()], modules: vec![] };
    assert_eq!(pack(&g, &PackOptions { include_remote: false }, no_transpile), Err(PackError::RootCount));
}

#[test]
fn npm_module_fails() {
    let g = ModuleGraph {
        roots: vec!["file:///a.ts".to_string()],
        modules: vec![GraphModule { specifier: "npm:x".to_string(), source: ModuleSource::Unsupported }],
    };
    assert_eq!(
        pack(&g, &PackOptions { include_remote: false }, no_transpile),
        Err(PackError::UnsupportedModule("npm:x".to_string()))
    );
}

#[test]
fn remote_module_stays_an_import() {
    let src = "import { x } from \"https://example.com/x.ts\";\nconsole.log(x);\n";
    let body = vec![
        node(
            NodeKind::ImportDecl {
                resolved: Some("https://example.com/x.ts".to_string()),
                type_only: false,
                specifiers: vec![named_import(src, "x", 1)],
            },
            (0, at(src, ";\n", 0).1 - 1),
            vec![],
        ),
        node(NodeKind::Other, at(src, "console.log(x);", 0), vec![ident_node(src, "x)", 0, 1)]),
    ];
    let mut body = body;
    let x = at(src, "x)", 0).0;
    body[1].children[0] = node(
        NodeKind::Ident { ident: Ident { sym: "x".to_string(), scope: 1, start: x, end: x + 1 }, shorthand: false },
        (x, x + 1),
        vec![],
    );
    let remote = esm("https://example.com/x.ts", program("export const x = 1;\n", vec![]));
    let out = pack(
        &graph(vec![esm("file:///mod.ts", program(src, body)), remote]),
        &PackOptions { include_remote: false },
        no_transpile,
    )
    .unwrap();
    assert_eq!(out, "import * as pack0 from \"https://example.com/x.ts\";\n\n// mod.ts\nconsole.log(pack0.x);\n");
}

fn export_const(specifier: &str, src: &str, names: &[&str]) -> GraphModule {
    let mut body = Vec::new();
    for name in names {
        let line = format!("export const {} = ", name);
        let (start, _) = at(src, &line, 0);
        let end = start + src[start..].find(';').unwrap() + 1;
        body.push(node(
            NodeKind::ExportDecl {
                decl: ExportedDecl::Var { declare: false, patterns: vec![VarPattern::Ident(name.to_string())] },
            },
            (start, end),
            vec![node(NodeKind::VarDecl { declare: false }, (start + 7, end), vec![])],
        ));
    }
    esm(specifier, program(src, body))
}

#[test]
fn re_exports_fill_the_namespace_object() {
    let root_src = "import { a, b, ns } from \"./index.ts\";\nconsole.log(a, b, ns);\n";
    let call = at(root_src, "console.log(a, b, ns);", 0);
    let root_body = vec![
        node(
            NodeKind::ImportDecl {
                resolved: Some("file:///index.ts".to_string()),
                type_only: false,
                specifiers: vec![named_import(root_src, "a", 1), named_import(root_src, "b", 1), named_import(root_src, "ns", 1)],
            },
            (0, at(root_src, ";\n", 0).1 - 1),
            vec![],
        ),
        node(
            NodeKind::Other,
            call,
            vec![
                ident_at("a", at(root_src, "a, b, ns)", 0).0, 1),
                ident_at("b", at(root_src, "b, ns)", 0).0, 1),
                ident_at("ns", at(root_src, "ns)", 0).0, 1),
            ],
        ),
    ];
    let index_src = "export { a } from \"./a.ts\";\nexport * as ns from \"./a.ts\";\nexport * from \"./b.ts\";\n";
    let l0 = at(index_src, "export { a } from \"./a.ts\";", 0);
    let l1 = at(index_src, "export * as ns from \"./a.ts\";", 0);
    let l2 = at(index_src, "export * from \"./b.ts\";", 0);
    let index_body = vec![
        node(
            NodeKind::NamedExport {
                has_src: true,
                resolved: Some("file:///a.ts".to_string()),
                type_only: false,
                specifiers: vec![ExportSpecifier::Named {
                    orig: ModuleExportName::Ident(ident(index_src, "a", 0, 1)),
                    exported: None,
                    type_only: false,
                }],
            },
            l0,
            vec![],
        ),
        node(
            NodeKind::NamedExport {
                has_src: true,
                resolved: Some("file:///a.ts".to_string()),
                type_only: false,
                specifiers: vec![ExportSpecifier::Namespace { name: ModuleExportName::Ident(ident(index_src, "ns", 0, 1)) }],
            },
            l1,
            vec![],
        ),
        node(NodeKind::ExportAll { resolved: Some("file:///b.ts".to_string()), type_only: false }, l2, vec![]),
    ];
    let modules = vec![
        esm("file:///mod.ts", program(root_src, root_body)),
        esm("file:///index.ts", program(index_src, index_body)),
        export_const("file:///a.ts", "export const a = 1;\n", &["a"]),
        export_const("file:///b.ts", "export const b = 2;\nexport const a = 3;\n", &["b", "a"]),
    ];
    let out = pack(&graph(modules), &PackOptions { include_remote: false }, no_transpile).unwrap();
    let expected = [
        "const pack0 = {\n  a: undefined,\n  b: undefined,\n  ns: undefined,\n};\n",
        "const pack2 = {\n  a: undefined,\n};\n",
        "const pack3 = {\n  a: undefined,\n  b: undefined,\n};\n",
        "\n// b.ts\n(() => {\nconst b = 2;\nconst a = 3;\n",
        "Object.defineProperty(pack3, \"b\", { get: () => b });\n",
        "Object.defineProperty(pack3, \"a\", { get: () => a });\n})();\n",
        "\n// a.ts\n(() => {\nconst a = 1;\nObject.defineProperty(pack2, \"a\", { get: () => a });\n})();\n",
        "\n// index.ts\n(() => {\n",
        "Object.defineProperty(pack0, \"a\", { get: () => pack2.a });\n",
        "Object.defineProperty(pack0, \"ns\", { get: () => pack2 });\n",
        "Object.defineProperty(pack0, \"b\", { get: () => pack3.b });\n})();\n",
        "\n// mod.ts\nconsole.log(pack0.a, pack0.b, pack0.ns);\n",
    ]
    .concat();
    assert_eq!(out, expected);
}

fn enum_graph() -> ModuleGraph {
    let root_src = "import \"./e.ts\";\n";
    let root_body = vec![node(
        NodeKind::ImportDecl { resolved: Some("file:///e.ts".to_string()), type_only: false, specifiers: vec![] },
        (0, root_src.len() - 1),
        vec![],
    )];
    let e_src = "enum E { A }\nawait 1;\n";
    let e_body = vec![
        node(NodeKind::TsRuntime, at(e_src, "enum E { A }", 0), vec![]),
        node(NodeKind::Other, at(e_src, "await 1;", 0), vec![node(NodeKind::AwaitExpr, at(e_src, "await 1", 0), vec![])]),
    ];
    graph(vec![esm("file:///mod.ts", program(root_src, root_body)), esm("file:///e.ts", program(e_src, e_body))])
}

#[test]
fn modules_with_enums_go_through_the_transpiler() {
    let out = pack(&enum_graph(), &PackOptions { include_remote: false }, |s: &str| Ok(s.replace("enum E { A }", "var E = {}")))
        .unwrap();
    assert_eq!(out, "// e.ts\nawait (async () => {\nvar E = {}\nawait 1;\n})();\n");
}

#[test]
fn transpiler_failure_fails_the_pack() {
    let r = pack(&enum_graph(), &PackOptions { include_remote: false }, |_: &str| Err("bad enum".to_string()));
    assert_eq!(r, Err(PackError::Transpile("file:///e.ts".to_string(), "bad enum".to_string())));
}

#[test]
fn string_named_import_is_unsupported() {
    let src = "import { \"a-b\" as x } from \"./dep.ts\";\n";
    let spec = ImportSpecifier::Named {
        local: ident(src, "x", 0, 1),
        imported: Some(ModuleExportName::Str("a-b".to_string())),
        type_only: false,
    };
    let body = vec![node(
        NodeKind::ImportDecl { resolved: Some("file:///dep.ts".to_string()), type_only: false, specifiers: vec![spec] },
        (0, src.len() - 1),
        vec![],
    )];
    let r = pack(&graph(vec![esm("file:///mod.ts", program(src, body))]), &PackOptions { include_remote: false }, no_transpile);
    assert_eq!(r, Err(PackError::UnsupportedSyntax("file:///mod.ts".to_string())));
}

#[test]
fn overlapping_syntax_model_is_an_edit_conflict() {
    let src = "let x: number = 1;\n";
    let body = vec![
        node(NodeKind::TypeOnly, at(src, ": number", 0), vec![]),
        node(NodeKind::TypeOnly, at(src, "number = 1", 0), vec![]),
    ];
    let r = pack(&graph(vec![esm("file:///mod.ts", program(src, body))]), &PackOptions { include_remote: false }, no_transpile);
    assert_eq!(
        r,
        Err(PackError::EditConflict("file:///mod.ts".to_string(), deno_emit::text_change::ChangeConflict::Overlap))
    );
}

#[test]
fn await_in_an_exported_declaration_makes_the_wrapper_async() {
    let dep_src = "export const x = await 1;\n";
    let (start, _) = at(dep_src, "export const x", 0);
    let end = dep_src.find(';').unwrap() + 1;
    let dep_body = vec![node(
        NodeKind::ExportDecl {
            decl: ExportedDecl::Var { declare: false, patterns: vec![VarPattern::Ident("x".to_string())] },
        },
        (start, end),
        vec![node(
            NodeKind::VarDecl { declare: false },
            (start + 7, end),
            vec![node(NodeKind::AwaitExpr, at(dep_src, "await 1", 0), vec![])],
        )],
    )];
    let root_src = "import { x } from \"./e2.ts\";\nconsole.log(x);\n";
    let root_body = vec![
        node(
            NodeKind::ImportDecl {
                resolved: Some("file:///e2.ts".to_string()),
                type_only: false,
                specifiers: vec![named_import(root_src, "x", 1)],
            },
            (0, at(root_src, ";\n", 0).1 - 1),
            vec![],
        ),
        node(NodeKind::Other, at(root_src, "console.log(x);", 0), vec![ident_at("x", at(root_src, "x);", 0).0, 1)]),
    ];
    let modules = vec![esm("file:///mod.ts", program(root_src, root_body)), esm("file:///e2.ts", program(dep_src, dep_body))];
    let out = pack(&graph(modules), &PackOptions { include_remote: false }, no_transpile).unwrap();
    assert_eq!(
        out,
        "const pack0 = {\n  x: undefined,\n};\n\n// e2.ts\nawait (async () => {\nconst x = await 1;\nObject.defineProperty(pack0, \"x\", { get: () => x });\n})();\n\n// mod.ts\nconsole.log(pack0.x);\n"
    );
}
