//! The checks on hand-made syntax trees.

use soroban_checks::finding::{Check, Severity};
use soroban_checks::global_state::MutableGlobalStateCheck;
use soroban_checks::key_collision::{
    collect_keys, report_duplicates, KeyOccurrence, SymbolKeyCollisionCheck, SymbolKeyVisitor,
};
use soroban_checks::storage::{
    collect_const_and_static_names, is_storage_mutation_call, is_temporary_get_unchecked,
    is_temporary_storage_mutation, symbol_new_second_arg_is_string_lit, UnsafeStoragePatternsCheck,
};
use soroban_checks::syntax::{
    ExprCall, ExprLit, ExprMethodCall, ExprPath, File, ImplItemConst, ImplItemFn, ItemConst,
    ItemImpl, ItemMod, ItemStatic, Lit, Macro, Meta, MetaList, Node, Position,
};
use soroban_checks::text::{decimal, join2, join3, text_is};
use soroban_checks::util::{
    contractimpl_functions_excluding_test, is_cfg_test, is_contractimpl, is_symbol_new_path,
    receiver_chain_contains_storage, receiver_chain_contains_temporary,
};

fn at(line: usize, column: usize) -> Position {
    Position { line, column }
}

fn words(path: &str) -> Vec<String> {
    path.split("::").map(|s| s.to_string()).collect()
}

fn path(text: &str) -> Node {
    Node::Path(ExprPath { segments: words(text), inner: vec![] })
}

fn string(text: &str) -> Node {
    Node::Lit(ExprLit { lit: Lit::Str(text.to_string()), inner: vec![] })
}

fn call(func: &str, args: Vec<Node>, line: usize) -> ExprCall {
    ExprCall { header: vec![], func: Box::new(path(func)), args, start: at(line, 0) }
}

/// `root.m1().m2()...`, starting at `line`.
fn chain(root: &str, methods: &[&str], line: usize) -> Node {
    let mut expr = path(root);
    for m in methods {
        expr = Node::MethodCall(ExprMethodCall {
            header: vec![],
            receiver: Box::new(expr),
            method: m.to_string(),
            turbofish: vec![],
            args: vec![],
            start: at(line, 0),
        });
    }
    expr
}

fn method_call(methods: &[&str]) -> ExprMethodCall {
    match chain("env", methods, 1) {
        Node::MethodCall(m) => m,
        _ => unreachable!(),
    }
}

fn file(items: Vec<Node>) -> File {
    File { header: vec![], items }
}

fn stat(ident: &str, mutable: bool, line: usize) -> Node {
    Node::Static(ItemStatic { mutable, ident: ident.to_string(), start: at(line, 0), inner: vec![] })
}

fn module(attrs: Vec<Meta>, ident: &str, items: Vec<Node>) -> Node {
    Node::Mod(ItemMod { attrs, ident: ident.to_string(), header: vec![], items })
}

fn method(attrs: Vec<Meta>, ident: &str, block: Vec<Node>) -> Node {
    Node::ImplFn(ImplItemFn { attrs, ident: ident.to_string(), header: vec![], block })
}

fn implementation(attrs: Vec<Meta>, items: Vec<Node>) -> Node {
    block_at(1, attrs, items)
}

fn block_at(line: usize, attrs: Vec<Meta>, items: Vec<Node>) -> Node {
    Node::Impl(ItemImpl { attrs, start: at(line, 0), header: vec![], items })
}

fn list(name: &str, nested: Vec<Meta>) -> Meta {
    Meta::List(MetaList { path: words(name), nested })
}

fn flag(name: &str) -> Meta {
    Meta::Path(words(name))
}

fn short(tokens: &str, line: usize, column: usize) -> Node {
    Node::Macro(Macro {
        path: words("symbol_short"),
        tokens: tokens.to_string(),
        start: at(line, column),
        inner: vec![],
    })
}

#[test]
fn decimal_notation() {
    assert_eq!(decimal(0), "0");
    assert_eq!(decimal(9), "9");
    assert_eq!(decimal(10), "10");
    assert_eq!(decimal(1234567890), "1234567890");
    assert_eq!(decimal(usize::MAX), usize::MAX.to_string());
}

#[test]
fn joining_and_comparing_text() {
    assert_eq!(join2("a", "b—"), "ab—");
    assert_eq!(join3("a", "", "c"), "ac");
    assert!(text_is(&"héllo".to_string(), "héllo"));
    assert!(!text_is(&"hello".to_string(), "hell"));
    assert!(!text_is(&String::new(), "x"));
}

#[test]
fn test_gates() {
    assert!(is_cfg_test(&vec![list("cfg", vec![flag("test")])]));
    assert!(is_cfg_test(&vec![flag("inline"), list("cfg", vec![flag("test")])]));
    assert!(is_cfg_test(&vec![list(
        "cfg",
        vec![list("all", vec![flag("unix"), list("any", vec![list("all", vec![flag("test")])])])]
    )]));
    assert!(!is_cfg_test(&vec![]));
    assert!(!is_cfg_test(&vec![flag("test")]));
    assert!(!is_cfg_test(&vec![flag("cfg")]));
    assert!(!is_cfg_test(&vec![list("cfg", vec![list("not", vec![flag("test")])])]));
    assert!(!is_cfg_test(&vec![list("cfg", vec![Meta::NameValue(words("test"))])]));
    assert!(!is_cfg_test(&vec![list("cfg", vec![flag("a::test")])]));
    assert!(!is_cfg_test(&vec![list("a::cfg", vec![flag("test")])]));
    assert!(!is_cfg_test(&vec![list("cfg", vec![list("all", vec![])])]));
}

#[test]
fn contractimpl_attributes() {
    assert!(is_contractimpl(&vec![flag("contractimpl")]));
    assert!(is_contractimpl(&vec![flag("inline"), flag("soroban_sdk::contractimpl")]));
    assert!(is_contractimpl(&vec![list("contractimpl", vec![flag("contracttrait")])]));
    assert!(!is_contractimpl(&vec![]));
    assert!(!is_contractimpl(&vec![flag("contractimpl::other")]));
}

#[test]
fn contract_methods_in_order() {
    let gate = || vec![list("cfg", vec![flag("test")])];
    let contract = || vec![flag("contractimpl")];
    let tree = file(vec![
        implementation(contract(), vec![method(vec![], "a", vec![]), method(gate(), "b", vec![])]),
        module(vec![], "m", vec![implementation(contract(), vec![method(vec![], "c", vec![])])]),
        module(gate(), "n", vec![implementation(contract(), vec![method(vec![], "d", vec![])])]),
        implementation(vec![], vec![method(vec![], "e", vec![])]),
        implementation(contract(), vec![stat("S", true, 1), method(vec![], "f", vec![])]),
        Node::Other(vec![implementation(contract(), vec![method(vec![], "g", vec![])])]),
    ]);
    let names: Vec<&str> = contractimpl_functions_excluding_test(&tree)
        .iter()
        .map(|f| f.ident.as_str())
        .collect();
    assert_eq!(names, vec!["a", "c", "f"]);
}

#[test]
fn receiver_chains() {
    let temporary = chain("env", &["storage", "temporary"], 1);
    assert!(receiver_chain_contains_storage(&temporary));
    assert!(receiver_chain_contains_temporary(&temporary));
    let persistent = chain("env", &["storage", "persistent"], 1);
    assert!(receiver_chain_contains_storage(&persistent));
    assert!(!receiver_chain_contains_temporary(&persistent));
    assert!(!receiver_chain_contains_storage(&path("storage")));
    assert!(!receiver_chain_contains_storage(&Node::Other(vec![chain("env", &["storage"], 1)])));
}

#[test]
fn storage_calls() {
    assert!(is_storage_mutation_call(&method_call(&["storage", "persistent", "set"])));
    assert!(!is_storage_mutation_call(&method_call(&["map", "set"])));
    assert!(!is_storage_mutation_call(&method_call(&["storage", "persistent", "get"])));
    assert!(is_temporary_storage_mutation(&method_call(&["storage", "temporary", "bump"])));
    assert!(!is_temporary_storage_mutation(&method_call(&["storage", "persistent", "bump"])));
    assert!(!is_temporary_storage_mutation(&method_call(&["temporary", "bump"])));
    assert!(is_temporary_get_unchecked(&method_call(&["storage", "temporary", "get_unchecked"])));
    assert!(!is_temporary_get_unchecked(&method_call(&["storage", "temporary", "get"])));
    assert!(!is_temporary_get_unchecked(&method_call(&["storage", "instance", "get_unchecked"])));
}

#[test]
fn symbol_new_paths() {
    assert!(is_symbol_new_path(&path("Symbol::new")));
    assert!(is_symbol_new_path(&path("soroban_sdk::Symbol::new")));
    assert!(!is_symbol_new_path(&path("new")));
    assert!(!is_symbol_new_path(&path("Symbol::new::x")));
    assert!(!is_symbol_new_path(&path("Symbol::x::new")));
    assert!(!is_symbol_new_path(&string("Symbol::new")));
}

#[test]
fn names_of_constants_and_statics() {
    let named = |n: &str| n.to_string();
    let tree = File {
        header: vec![Node::Other(vec![stat("IN_ATTRIBUTE", false, 1)])],
        items: vec![
            Node::Const(ItemConst { ident: named("A"), inner: vec![stat("INSIDE", false, 1)] }),
            module(
                vec![list("cfg", vec![flag("test")])],
                "tests",
                vec![implementation(
                    vec![],
                    vec![
                        Node::ImplConst(ImplItemConst { ident: named("ASSOCIATED"), inner: vec![] }),
                        method(vec![], "m", vec![stat("LOCAL", true, 1)]),
                    ],
                )],
            ),
        ],
    };
    let names = collect_const_and_static_names(&tree);
    for name in ["IN_ATTRIBUTE", "A", "INSIDE", "ASSOCIATED", "LOCAL"] {
        assert!(names.contains(name), "{name}");
    }
    for name in ["m", "tests", "a", ""] {
        assert!(!names.contains(name), "{name}");
    }
}

#[test]
fn names_of_items_add_up() {
    let first = || vec![stat("A", false, 1), module(vec![], "m", vec![stat("B", true, 2)])];
    let rest = || vec![stat("C", false, 3), stat("A", false, 4)];
    let mut items = first();
    items.extend(rest());
    let whole = collect_const_and_static_names(&file(items));
    let of_first = collect_const_and_static_names(&file(first()));
    let of_rest = collect_const_and_static_names(&file(rest()));
    for name in ["A", "B", "C", "D", "m"] {
        assert_eq!(
            whole.contains(name),
            of_first.contains(name) || of_rest.contains(name),
            "{name}"
        );
    }
    assert!(of_first.contains("B") && !of_rest.contains("B"));
    assert!(of_rest.contains("C") && !of_first.contains("C"));
}

#[test]
fn headers_without_findings_do_not_matter() {
    let whole = File {
        header: vec![path("no_std"), stat("H", false, 9)],
        items: vec![stat("A", true, 1), stat("B", true, 2)],
    };
    let first = File { header: vec![string("doc")], items: vec![stat("A", true, 1)] };
    let rest = File {
        header: vec![stat("I", false, 8), path("allow")],
        items: vec![stat("B", true, 2)],
    };
    let lines = |tree: &File| -> Vec<usize> {
        MutableGlobalStateCheck.run(tree, "").iter().map(|h| h.line).collect()
    };
    assert_eq!(lines(&whole), vec![1, 2]);
    assert_eq!(lines(&first), vec![1]);
    assert_eq!(lines(&rest), vec![2]);
}

#[test]
fn stable_second_arguments() {
    let names = collect_const_and_static_names(&file(vec![stat("KEY", false, 1)]));
    let stable = |args: Vec<Node>| {
        symbol_new_second_arg_is_string_lit(&call("Symbol::new", args, 1), &names)
    };
    assert!(stable(vec![path("env"), string("k")]));
    assert!(stable(vec![path("env"), path("KEY")]));
    assert!(stable(vec![path("env"), path("m::KEY")]));
    assert!(!stable(vec![path("env"), path("KEY::m")]));
    assert!(!stable(vec![path("env"), path("key")]));
    assert!(!stable(vec![string("k")]));
    assert!(!stable(vec![]));
    let number = Node::Lit(ExprLit { lit: Lit::Other, inner: vec![] });
    assert!(!stable(vec![path("env"), number]));
    assert!(!stable(vec![path("env"), Node::Other(vec![string("k")])]));
    let nothing = Node::Path(ExprPath { segments: vec![], inner: vec![] });
    assert!(!stable(vec![path("env"), nothing]));
}

#[test]
fn global_state_of_a_tree() {
    let tree = File {
        header: vec![Node::Other(vec![stat("FIRST", true, 1)])],
        items: vec![
            stat("SKIPPED", false, 2),
            module(vec![], "tests", vec![stat("SKIPPED", true, 3)]),
            Node::Other(vec![chain("env", &["m"], 4), Node::Other(vec![stat("SECOND", true, 5)])]),
        ],
    };
    let hits = MutableGlobalStateCheck.run(&tree, "");
    assert_eq!(hits.len(), 2);
    assert!(hits[0].description.contains("FIRST"));
    assert_eq!(hits[0].line, 1);
    assert!(hits[1].description.contains("SECOND"));
    assert_eq!(hits[1].line, 5);
}

#[test]
fn a_recorded_literal_is_a_key_only_if_it_is_a_string() {
    let mut visitor = SymbolKeyVisitor {
        occurrences: vec![],
        current_function: "m".to_string(),
        current_block: Some(at(9, 0)),
    };
    visitor.record_literal(None, at(1, 1));
    visitor.record_literal(Some(Lit::Other), at(1, 2));
    assert!(visitor.occurrences.is_empty());
    visitor.record_literal(Some(Lit::Str("k".to_string())), at(1, 3));
    assert_eq!(visitor.occurrences.len(), 1);
    assert_eq!(visitor.occurrences[0].key, "k");
    assert_eq!(visitor.occurrences[0].start, at(1, 3));
    assert_eq!(visitor.occurrences[0].owner, "m");
    assert_eq!(visitor.occurrences[0].block, Some(at(9, 0)));
    assert_eq!(visitor.current_function, "m");
    assert_eq!(visitor.current_block, Some(at(9, 0)));
}

#[test]
fn duplicates_are_all_but_the_first() {
    let occurrence = |key: &str, line: usize, owner: &str| KeyOccurrence {
        key: key.to_string(),
        start: at(line, 100 + line),
        owner: owner.to_string(),
        block: None,
    };
    let hits = report_duplicates(&vec![
        occurrence("a", 1, ""),
        occurrence("b", 2, "f"),
        occurrence("b", 3, "g"),
        occurrence("a", 4, ""),
        occurrence("c", 5, ""),
        occurrence("b", 6, "h"),
    ]);
    let seen: Vec<(usize, &str, &str)> = hits
        .iter()
        .map(|h| (h.line, h.function_name.as_str(), h.description.as_str()))
        .collect();
    assert_eq!(
        seen,
        vec![
            (4, "module level", "Duplicate symbol key `a` found at position 104"),
            (3, "g", "Duplicate symbol key `b` found at position 103"),
            (6, "h", "Duplicate symbol key `b` found at position 106"),
        ]
    );
    assert!(hits.iter().all(|h| h.severity == Severity::Medium));
    assert!(report_duplicates(&vec![]).is_empty());
    assert!(report_duplicates(&vec![occurrence("a", 1, ""), occurrence("A", 2, "")]).is_empty());
}

#[test]
fn duplicates_are_looked_for_block_by_block() {
    let occurrence = |key: &str, line: usize, block: Option<usize>| KeyOccurrence {
        key: key.to_string(),
        start: at(line, 0),
        owner: String::new(),
        block: block.map(|b| at(b, 0)),
    };
    let lines = |occurrences: Vec<KeyOccurrence>| -> Vec<usize> {
        report_duplicates(&occurrences).iter().map(|h| h.line).collect()
    };
    let (a, b) = (Some(100), Some(200));
    assert_eq!(lines(vec![occurrence("k", 1, a), occurrence("k", 2, b)]), Vec::<usize>::new());
    assert_eq!(lines(vec![occurrence("k", 1, a), occurrence("k", 2, a)]), vec![2]);
    assert_eq!(
        lines(vec![occurrence("k", 1, a), occurrence("k", 2, b), occurrence("k", 3, a)]),
        vec![3]
    );
    assert_eq!(lines(vec![occurrence("k", 1, None), occurrence("k", 2, a)]), vec![2]);
    assert_eq!(lines(vec![occurrence("k", 1, a), occurrence("k", 2, None)]), vec![2]);
    assert_eq!(
        lines(vec![
            occurrence("k", 1, a),
            occurrence("j", 2, b),
            occurrence("k", 3, b),
            occurrence("j", 4, b),
            occurrence("k", 5, None),
        ]),
        vec![5, 4]
    );
}

#[test]
fn keys_carry_the_outermost_block() {
    let tree = file(vec![
        short("\"a\"", 1, 1),
        block_at(
            2,
            vec![],
            vec![
                method(
                    vec![],
                    "m",
                    vec![
                        short("\"b\"", 3, 1),
                        block_at(4, vec![], vec![method(vec![], "n", vec![short("\"c\"", 5, 1)])]),
                        short("\"d\"", 6, 1),
                    ],
                ),
            ],
        ),
        short("\"e\"", 7, 1),
    ]);
    let seen: Vec<(String, String, Option<usize>)> = collect_keys(&tree)
        .into_iter()
        .map(|o| (o.key, o.owner, o.block.map(|b| b.line)))
        .collect();
    let expected: Vec<(String, String, Option<usize>)> = [
        ("a", "", None),
        ("b", "m", Some(2)),
        ("c", "n", Some(2)),
        ("d", "m", Some(2)),
        ("e", "", None),
    ]
    .iter()
    .map(|(key, owner, block)| (key.to_string(), owner.to_string(), *block))
    .collect();
    assert_eq!(seen, expected);
}

#[test]
fn keys_of_a_tree() {
    let tree = file(vec![
        short("\"k\"", 1, 7),
        implementation(
            vec![],
            vec![method(
                vec![],
                "m",
                vec![
                    Node::Call(call("Symbol::new", vec![path("env"), string("k")], 2)),
                    Node::Const(ItemConst { ident: "X".to_string(), inner: vec![short("\"j\"", 3, 1)] }),
                    short("not_a_literal", 4, 1),
                    short("\"l\"", 5, 1),
                ],
            )],
        ),
    ]);
    let keys: Vec<(String, usize, String)> = collect_keys(&tree)
        .into_iter()
        .map(|o| (o.key, o.start.line, o.owner))
        .collect();
    let expected = |key: &str, line: usize, owner: &str| (key.to_string(), line, owner.to_string());
    assert_eq!(
        keys,
        vec![
            expected("k", 1, ""),
            expected("k", 2, "m"),
            expected("j", 3, "const X"),
            expected("l", 5, "m"),
        ]
    );
    let hits = SymbolKeyCollisionCheck.run(&tree, "");
    assert_eq!(hits.len(), 1);
    assert_eq!(hits[0].line, 2);
    assert_eq!(hits[0].function_name, "m");
}

#[test]
fn storage_of_a_tree() {
    let tree = file(vec![implementation(
        vec![flag("soroban_sdk::contractimpl")],
        vec![
            method(vec![], "m", vec![Node::Other(vec![chain("env", &["storage", "temporary", "set"], 7)])]),
            method(vec![], "n", vec![Node::Call(call("Symbol::new", vec![path("env"), path("x")], 9))]),
        ],
    )]);
    let hits = UnsafeStoragePatternsCheck.run(&tree, "");
    assert_eq!(hits.len(), 2);
    assert_eq!((hits[0].line, hits[0].function_name.as_str()), (7, "m"));
    assert_eq!((hits[1].line, hits[1].function_name.as_str()), (9, "n"));
}
