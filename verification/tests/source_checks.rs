//! The checks on source text, parsed with `syn`.

use soroban_checks::finding::{Check, Severity};
use soroban_checks::global_state::MutableGlobalStateCheck;
use soroban_checks::key_collision::SymbolKeyCollisionCheck;
use soroban_checks::storage::UnsafeStoragePatternsCheck;
use syn::parse_file;

use proc_macro2::Span;
use soroban_checks::syntax::{
    ExprCall, ExprLit, ExprMethodCall, ExprPath, File, ImplItemConst, ImplItemFn, ItemConst,
    ItemImpl, ItemMod, ItemStatic, Lit, Macro, Meta, MetaList, Node, Position,
};
use syn::punctuated::Punctuated;
use syn::spanned::Spanned;
use syn::visit::{self, Visit};

/// The syntax tree of a file, reduced to what the checks look at.
fn convert_file(file: &syn::File) -> File {
    File {
        header: nodes_in(|b| visit_attributes(b, &file.attrs)),
        items: nodes_in(|b| {
            for item in &file.items {
                b.visit_item(item);
            }
        }),
    }
}

/// Collects the nodes of the syntax that it visits.
struct Builder {
    nodes: Vec<Node>,
}

/// The nodes of the syntax that `walk` visits, in order.
fn nodes_in(walk: impl FnOnce(&mut Builder)) -> Vec<Node> {
    let mut builder = Builder { nodes: Vec::new() };
    walk(&mut builder);
    builder.nodes
}

fn visit_attributes(builder: &mut Builder, attrs: &[syn::Attribute]) {
    for attr in attrs {
        builder.visit_attribute(attr);
    }
}

fn position(span: Span) -> Position {
    let start = span.start();
    Position {
        line: start.line,
        column: start.column,
    }
}

fn segments(path: &syn::Path) -> Vec<String> {
    path.segments.iter().map(|s| s.ident.to_string()).collect()
}

fn meta(meta_item: &syn::Meta) -> Meta {
    match meta_item {
        syn::Meta::Path(path) => Meta::Path(segments(path)),
        syn::Meta::List(list) => {
            let parser = Punctuated::<syn::Meta, syn::token::Comma>::parse_terminated;
            Meta::List(MetaList {
                path: segments(&list.path),
                nested: match list.parse_args_with(parser) {
                    Ok(nested) => nested.iter().map(meta).collect(),
                    Err(_) => Vec::new(),
                },
            })
        }
        syn::Meta::NameValue(pair) => Meta::NameValue(segments(&pair.path)),
    }
}

fn metas(attrs: &[syn::Attribute]) -> Vec<Meta> {
    attrs.iter().map(|a| meta(&a.meta)).collect()
}

fn literal(lit: &syn::Lit) -> Lit {
    match lit {
        syn::Lit::Str(s) => Lit::Str(s.value()),
        _ => Lit::Other,
    }
}

fn expr_node(expr: &syn::Expr) -> Node {
    match expr {
        syn::Expr::MethodCall(m) => Node::MethodCall(ExprMethodCall {
            header: nodes_in(|b| visit_attributes(b, &m.attrs)),
            receiver: Box::new(expr_node(&m.receiver)),
            method: m.method.to_string(),
            turbofish: nodes_in(|b| {
                if let Some(generics) = &m.turbofish {
                    b.visit_angle_bracketed_generic_arguments(generics);
                }
            }),
            args: m.args.iter().map(expr_node).collect(),
            start: position(m.span()),
        }),
        syn::Expr::Call(c) => Node::Call(ExprCall {
            header: nodes_in(|b| visit_attributes(b, &c.attrs)),
            func: Box::new(expr_node(&c.func)),
            args: c.args.iter().map(expr_node).collect(),
            start: position(c.span()),
        }),
        syn::Expr::Path(p) => Node::Path(ExprPath {
            segments: segments(&p.path),
            inner: nodes_in(|b| visit::visit_expr_path(b, p)),
        }),
        syn::Expr::Lit(l) => Node::Lit(ExprLit {
            lit: literal(&l.lit),
            inner: nodes_in(|b| visit::visit_expr_lit(b, l)),
        }),
        _ => Node::Other(nodes_in(|b| visit::visit_expr(b, expr))),
    }
}

impl<'ast> Visit<'ast> for Builder {
    fn visit_item(&mut self, i: &'ast syn::Item) {
        match i {
            syn::Item::Static(_)
            | syn::Item::Const(_)
            | syn::Item::Mod(_)
            | syn::Item::Impl(_) => visit::visit_item(self, i),
            _ => self
                .nodes
                .push(Node::Other(nodes_in(|b| visit::visit_item(b, i)))),
        }
    }

    fn visit_impl_item(&mut self, i: &'ast syn::ImplItem) {
        match i {
            syn::ImplItem::Const(_) | syn::ImplItem::Fn(_) => visit::visit_impl_item(self, i),
            _ => self
                .nodes
                .push(Node::Other(nodes_in(|b| visit::visit_impl_item(b, i)))),
        }
    }

    fn visit_item_static(&mut self, i: &'ast syn::ItemStatic) {
        self.nodes.push(Node::Static(ItemStatic {
            mutable: matches!(i.mutability, syn::StaticMutability::Mut(_)),
            ident: i.ident.to_string(),
            start: position(i.ident.span()),
            inner: nodes_in(|b| visit::visit_item_static(b, i)),
        }));
    }

    fn visit_item_const(&mut self, i: &'ast syn::ItemConst) {
        self.nodes.push(Node::Const(ItemConst {
            ident: i.ident.to_string(),
            inner: nodes_in(|b| visit::visit_item_const(b, i)),
        }));
    }

    fn visit_impl_item_const(&mut self, i: &'ast syn::ImplItemConst) {
        self.nodes.push(Node::ImplConst(ImplItemConst {
            ident: i.ident.to_string(),
            inner: nodes_in(|b| visit::visit_impl_item_const(b, i)),
        }));
    }

    fn visit_item_mod(&mut self, i: &'ast syn::ItemMod) {
        self.nodes.push(Node::Mod(ItemMod {
            attrs: metas(&i.attrs),
            ident: i.ident.to_string(),
            header: nodes_in(|b| {
                visit_attributes(b, &i.attrs);
                b.visit_visibility(&i.vis);
            }),
            items: nodes_in(|b| {
                if let Some((_, items)) = &i.content {
                    for item in items {
                        b.visit_item(item);
                    }
                }
            }),
        }));
    }

    fn visit_item_impl(&mut self, i: &'ast syn::ItemImpl) {
        self.nodes.push(Node::Impl(ItemImpl {
            start: position(i.span()),
            attrs: metas(&i.attrs),
            header: nodes_in(|b| {
                visit_attributes(b, &i.attrs);
                b.visit_generics(&i.generics);
                if let Some((_, path, _)) = &i.trait_ {
                    b.visit_path(path);
                }
                b.visit_type(&i.self_ty);
            }),
            items: nodes_in(|b| {
                for item in &i.items {
                    b.visit_impl_item(item);
                }
            }),
        }));
    }

    fn visit_impl_item_fn(&mut self, i: &'ast syn::ImplItemFn) {
        self.nodes.push(Node::ImplFn(ImplItemFn {
            attrs: metas(&i.attrs),
            ident: i.sig.ident.to_string(),
            header: nodes_in(|b| {
                visit_attributes(b, &i.attrs);
                b.visit_visibility(&i.vis);
                b.visit_signature(&i.sig);
            }),
            block: nodes_in(|b| b.visit_block(&i.block)),
        }));
    }

    fn visit_macro(&mut self, m: &'ast syn::Macro) {
        self.nodes.push(Node::Macro(Macro {
            path: segments(&m.path),
            tokens: m.tokens.to_string(),
            start: position(m.span()),
            inner: nodes_in(|b| visit::visit_macro(b, m)),
        }));
    }

    fn visit_expr(&mut self, e: &'ast syn::Expr) {
        self.nodes.push(expr_node(e));
    }
}

#[test]
fn flags_static_mut() {
    let file = convert_file(&parse_file("static mut COUNT: u32 = 0;").unwrap());
    let hits = MutableGlobalStateCheck.run(&file, "");
    assert_eq!(hits.len(), 1);
    assert_eq!(hits[0].severity, Severity::High);
    assert!(hits[0].description.contains("COUNT"));
}

#[test]
fn ignores_immutable_static() {
    let file = convert_file(&parse_file("static COUNT: u32 = 0;").unwrap());
    let hits = MutableGlobalStateCheck.run(&file, "");
    assert!(hits.is_empty());
}

#[test]
fn flags_static_mut_inside_contractimpl_method() {
    let src = r#"
#[contractimpl]
impl MyContract {
    pub fn risky(_env: Env) {
        static mut COUNTER: u32 = 0;
        unsafe { COUNTER += 1; }
    }
}
"#;
    let file = convert_file(&parse_file(src).unwrap());
    let hits = MutableGlobalStateCheck.run(&file, "");
    assert_eq!(hits.len(), 1, "should flag local static mut inside impl method");
    assert!(hits[0].description.contains("COUNTER"));
    assert_eq!(hits[0].severity, Severity::High);
}

#[test]
fn ignores_static_mut_inside_cfg_test_module() {
    let src = r#"
#[cfg(test)]
mod tests {
    static mut COUNTER: u32 = 0;
}
"#;
    let file = convert_file(&parse_file(src).unwrap());
    let hits = MutableGlobalStateCheck.run(&file, "");
    assert!(hits.is_empty(), "should not flag static mut inside #[cfg(test)] module");
}

#[test]
fn ignores_static_mut_inside_module_named_tests() {
    let src = r#"
mod tests {
    static mut COUNTER: u32 = 0;
}
"#;
    let file = convert_file(&parse_file(src).unwrap());
    let hits = MutableGlobalStateCheck.run(&file, "");
    assert!(hits.is_empty(), "should not flag static mut inside module named `tests`");
}

#[test]
fn flags_static_mut_nested_inside_an_unsafe_block() {
    let src = r#"
pub fn tick(_env: Env) {
    unsafe {
        static mut N: u32 = 0;
        N += 1;
    }
}
"#;
    let file = convert_file(&parse_file(src).unwrap());
    let hits = MutableGlobalStateCheck.run(&file, "");
    assert_eq!(
        hits.len(),
        1,
        "should flag static mut nested inside an unsafe block"
    );
    assert!(hits[0].description.contains('N'));
}

#[test]
fn flags_static_mut_inside_a_module_level_free_function() {
    let src = r#"
fn helper() {
    static mut CACHE: u64 = 0;
}
"#;
    let file = convert_file(&parse_file(src).unwrap());
    let hits = MutableGlobalStateCheck.run(&file, "");
    assert_eq!(
        hits.len(),
        1,
        "should flag static mut inside a module-level free function"
    );
    assert!(hits[0].description.contains("CACHE"));
}

#[test]
fn ignores_static_mut_inside_cfg_all_test_not_wasm32_module() {
    let src = r#"
#[cfg(all(test, not(target_arch = "wasm32")))]
mod native {
    static mut COUNTER: u32 = 0;
}
"#;
    let file = convert_file(&parse_file(src).unwrap());
    let hits = MutableGlobalStateCheck.run(&file, "");
    assert!(
        hits.is_empty(),
        "should not flag static mut inside a #[cfg(all(test, ...))] module"
    );
}

#[test]
fn detects_duplicate_symbol_keys() {
    let src = r#"
use soroban_sdk::{contractimpl, symbol_short, Symbol, Env};

pub struct Contract;

#[contractimpl]
impl Contract {
    pub fn foo(env: Env) {
        let k1 = symbol_short!("key");
        let k2 = symbol_short!("key");
    }
}
"#;
    let file = convert_file(&parse_file(src).unwrap());
    let findings = SymbolKeyCollisionCheck.run(&file, src);
    assert_eq!(findings.len(), 1);
    assert_eq!(findings[0].severity, Severity::Medium);
}

#[test]
fn ignores_unique_symbol_keys() {
    let src = r#"
use soroban_sdk::{contractimpl, symbol_short, Symbol, Env};

pub struct Contract;

#[contractimpl]
impl Contract {
    pub fn foo(env: Env) {
        let k1 = symbol_short!("key1");
        let k2 = symbol_short!("key2");
    }
}
"#;
    let file = convert_file(&parse_file(src).unwrap());
    let findings = SymbolKeyCollisionCheck.run(&file, src);
    assert!(findings.is_empty());
}

#[test]
fn detects_module_level_const_collisions() {
    let src = r#"
use soroban_sdk::{symbol_short, Symbol, Env};

const BALANCE_KEY: Symbol = symbol_short!("bal");
const OLD_ADMIN_KEY: Symbol = Symbol::new(&env, "bal");
"#;
    let file = convert_file(&parse_file(src).unwrap());
    let findings = SymbolKeyCollisionCheck.run(&file, src);
    assert_eq!(findings.len(), 1);
    assert_eq!(findings[0].severity, Severity::Medium);
    assert_eq!(findings[0].function_name, "const OLD_ADMIN_KEY");
}

#[test]
fn flags_temporary_get_unchecked() -> Result<(), syn::Error> {
    let file = convert_file(&parse_file(
        r#"
use soroban_sdk::{contractimpl, symbol_short, Env};

pub struct C;

const K: soroban_sdk::Symbol = symbol_short!("k");

#[contractimpl]
impl C {
    pub fn load(env: Env) -> u32 {
        env.storage().temporary().get_unchecked(&K)
    }
}
"#,
    )?);
    let hits = UnsafeStoragePatternsCheck.run(&file, "");
    assert_eq!(hits.len(), 1);
    assert!(hits[0].description.contains("get_unchecked"));
    Ok(())
}

#[test]
fn flags_temporary_set() -> Result<(), syn::Error> {
    let file = convert_file(&parse_file(
        r#"
use soroban_sdk::{contractimpl, symbol_short, Env};

pub struct C;

const K: soroban_sdk::Symbol = symbol_short!("k");

#[contractimpl]
impl C {
    pub fn stash(env: Env, v: u32) {
        env.require_auth();
        env.storage().temporary().set(&K, &v);
    }
}
"#,
    )?);
    let hits = UnsafeStoragePatternsCheck.run(&file, "");
    assert_eq!(hits.len(), 1);
    assert_eq!(hits[0].severity, Severity::Medium);
    assert!(hits[0].description.contains("temporary"));
    Ok(())
}

#[test]
fn flags_dynamic_symbol_new() -> Result<(), syn::Error> {
    let file = convert_file(&parse_file(
        r#"
use soroban_sdk::{contractimpl, Env, Symbol};

pub struct C;

#[contractimpl]
impl C {
    pub fn put(env: Env, tag: soroban_sdk::String) {
        env.require_auth();
        let sym = Symbol::new(&env, tag);
        env.storage().persistent().set(&sym, &0u32);
    }
}
"#,
    )?);
    let hits = UnsafeStoragePatternsCheck.run(&file, "");
    assert_eq!(hits.len(), 1);
    assert!(hits[0].description.contains("Symbol::new"));
    Ok(())
}

#[test]
fn ignores_symbol_new_with_literal() -> Result<(), syn::Error> {
    let file = convert_file(&parse_file(
        r#"
use soroban_sdk::{contractimpl, Env, Symbol};

pub struct C;

#[contractimpl]
impl C {
    pub fn put(env: Env) {
        env.require_auth();
        let sym = Symbol::new(&env, "fixed");
        env.storage().persistent().set(&sym, &0u32);
    }
}
"#,
    )?);
    let hits = UnsafeStoragePatternsCheck.run(&file, "");
    assert!(
        hits.iter().all(|h| !h.description.contains("Symbol::new")),
        "{hits:?}"
    );
    Ok(())
}

#[test]
fn ignores_symbol_new_with_named_const() -> Result<(), syn::Error> {
    let file = convert_file(&parse_file(
        r#"
use soroban_sdk::{contractimpl, Env, Symbol};

pub struct C;

const KEY: &str = "balance";

#[contractimpl]
impl C {
    pub fn put(env: Env) {
        env.require_auth();
        let sym = Symbol::new(&env, KEY);
        env.storage().persistent().set(&sym, &0u32);
    }
}
"#,
    )?);
    let hits = UnsafeStoragePatternsCheck.run(&file, "");
    assert!(
        hits.iter().all(|h| !h.description.contains("Symbol::new")),
        "{hits:?}"
    );
    Ok(())
}

#[test]
fn flags_fully_qualified_symbol_new_with_dynamic_key() -> Result<(), syn::Error> {
    let file = convert_file(&parse_file(
        r#"
use soroban_sdk::Env;

pub struct C;

#[soroban_sdk::contractimpl]
impl C {
    pub fn put(env: Env, tag: soroban_sdk::String) {
        env.require_auth();
        let sym = soroban_sdk::Symbol::new(&env, tag);
        env.storage().persistent().set(&sym, &0u32);
    }
}
"#,
    )?);
    let hits = UnsafeStoragePatternsCheck.run(&file, "");
    assert_eq!(hits.len(), 1);
    assert!(hits[0].description.contains("Symbol::new"));
    Ok(())
}

#[test]
fn ignores_symbol_new_with_lowercase_named_const() -> Result<(), syn::Error> {
    let file = convert_file(&parse_file(
        r#"
use soroban_sdk::{contractimpl, Env, Symbol};

pub struct C;

const key: &str = "balance";

#[contractimpl]
impl C {
    pub fn put(env: Env) {
        env.require_auth();
        let sym = Symbol::new(&env, key);
        env.storage().persistent().set(&sym, &0u32);
    }
}
"#,
    )?);
    let hits = UnsafeStoragePatternsCheck.run(&file, "");
    assert!(
        hits.iter().all(|h| !h.description.contains("Symbol::new")),
        "a lowercase-named const is still a fixed literal, not a dynamic key: {hits:?}"
    );
    Ok(())
}

#[test]
fn flags_symbol_new_with_uppercase_named_parameter() -> Result<(), syn::Error> {
    let file = convert_file(&parse_file(
        r#"
use soroban_sdk::{contractimpl, Env, Symbol};

pub struct C;

#[contractimpl]
impl C {
    pub fn put(env: Env, USER_SUPPLIED: soroban_sdk::String) {
        env.require_auth();
        let sym = Symbol::new(&env, USER_SUPPLIED);
        env.storage().persistent().set(&sym, &0u32);
    }
}
"#,
    )?);
    let hits = UnsafeStoragePatternsCheck.run(&file, "");
    assert_eq!(
        hits.iter().filter(|h| h.description.contains("Symbol::new")).count(),
        1,
        "an upper-cased parameter is still caller-controlled, not a stable const: {hits:?}"
    );
    Ok(())
}

#[test]
fn persistent_literal_key_no_storage_finding() -> Result<(), syn::Error> {
    let file = convert_file(&parse_file(
        r#"
use soroban_sdk::{contractimpl, symbol_short, Env};

pub struct C;

const K: soroban_sdk::Symbol = symbol_short!("k");

#[contractimpl]
impl C {
    pub fn put(env: Env, v: u32) {
        env.require_auth();
        env.storage().persistent().set(&K, &v);
    }
}
"#,
    )?);
    let hits = UnsafeStoragePatternsCheck.run(&file, "");
    assert!(hits.is_empty());
    Ok(())
}

fn global_state_hits(src: &str) -> Vec<soroban_checks::finding::Finding> {
    MutableGlobalStateCheck.run(&convert_file(&parse_file(src).unwrap()), src)
}

fn collision_hits(src: &str) -> Vec<soroban_checks::finding::Finding> {
    SymbolKeyCollisionCheck.run(&convert_file(&parse_file(src).unwrap()), src)
}

fn storage_hits(src: &str) -> Vec<soroban_checks::finding::Finding> {
    UnsafeStoragePatternsCheck.run(&convert_file(&parse_file(src).unwrap()), src)
}

/// The storage findings in a contract method with the given body.
fn method_hits(body: &str) -> Vec<soroban_checks::finding::Finding> {
    storage_hits(&format!(
        "#[contractimpl]\nimpl C {{\n    pub fn m(env: Env, arg: String) {{\n{body}\n    }}\n}}\n"
    ))
}

#[test]
fn check_names() {
    assert_eq!(MutableGlobalStateCheck.name(), "mutable-global-state");
    assert_eq!(SymbolKeyCollisionCheck.name(), "symbol-key-collision");
    assert_eq!(UnsafeStoragePatternsCheck.name(), "unsafe-storage-patterns");
}

#[test]
fn static_mut_finding_in_full() {
    let hits = global_state_hits("\n\nstatic mut COUNT: u32 = 0;");
    assert_eq!(hits.len(), 1);
    assert_eq!(hits[0].check_name, "mutable-global-state");
    assert_eq!(hits[0].severity, Severity::High);
    assert_eq!(hits[0].file_path, "");
    assert_eq!(hits[0].line, 3);
    assert_eq!(hits[0].function_name, "");
    assert_eq!(
        hits[0].description,
        "`static mut COUNT` introduces mutable global state. In Soroban, contract instances are \
         stateless between invocations — `static mut` is unsafe and its value is not persisted \
         on-chain."
    );
    assert_eq!(
        hits[0].rule_url.as_deref(),
        Some("https://github.com/SorobanGuard/Guard-CLI/blob/main/docs/checks.md#mutable-global-state-high")
    );
    assert_eq!(
        hits[0].suggestion.as_deref(),
        Some("Replace `static mut` with `env.storage().persistent()` or `env.storage().instance()` for on-chain state.")
    );
}

#[test]
fn static_mut_line_is_that_of_the_identifier() {
    let hits = global_state_hits("static\n    mut\n    COUNT: u32 = 0;");
    assert_eq!(hits.len(), 1);
    assert_eq!(hits[0].line, 3);
}

#[test]
fn static_mut_at_every_depth_in_order() {
    let src = r#"
static mut A: u32 = 0;
mod inner {
    static mut B: u32 = 0;
    fn free() {
        static mut C: u32 = {
            static mut D: u32 = 0;
            0
        };
    }
}
impl Display for T {
    fn fmt(&self) {
        let f = |x| { static mut E: u32 = 0; x };
        if f(1) > 0 { loop { match 1 { _ => { static mut F: u32 = 0; } } } }
    }
}
trait Tr {
    fn default_method() { static mut G: u32 = 0; }
}
const H: u32 = { static mut H: u32 = 0; 0 };
static IMMUTABLE: u32 = 0;
"#;
    let hits = global_state_hits(src);
    let found: Vec<&str> = hits
        .iter()
        .map(|h| &h.description["`static mut ".len().."`static mut ".len() + 1])
        .collect();
    assert_eq!(found, vec!["A", "B", "C", "D", "E", "F", "G", "H"]);
    let lines: Vec<usize> = hits.iter().map(|h| h.line).collect();
    assert_eq!(lines, vec![2, 4, 6, 7, 14, 15, 19, 21]);
}

#[test]
fn test_modules_are_not_entered() {
    let gated = "mod m { mod deeper { fn f() { static mut X: u32 = 0; } } }";
    assert_eq!(global_state_hits(gated).len(), 1);
    for gate in [
        "#[cfg(test)]",
        "#[cfg(any(test, feature = \"testutils\"))]",
        "#[cfg(all(unix, any(test, windows)))]",
        "#[allow(dead_code)] #[cfg(test)]",
    ] {
        assert_eq!(global_state_hits(&format!("{gate} {gated}")).len(), 0, "{gate}");
    }
    for gate in [
        "#[cfg(not(test))]",
        "#[cfg(all(unix, not(test)))]",
        "#[cfg(feature = \"test\")]",
        "#[cfg(unix)]",
        "#[cfg_attr(test, allow(dead_code))]",
        "#[test]",
    ] {
        assert_eq!(global_state_hits(&format!("{gate} {gated}")).len(), 1, "{gate}");
    }
    assert_eq!(global_state_hits("mod test { static mut X: u32 = 0; }").len(), 0);
    assert_eq!(global_state_hits("mod a { mod tests { static mut X: u32 = 0; } }").len(), 0);
    assert_eq!(global_state_hits("mod testing { static mut X: u32 = 0; }").len(), 1);
    assert_eq!(global_state_hits("#[cfg(test)] fn f() { static mut X: u32 = 0; }").len(), 1);
}

#[test]
fn items_are_checked_independently() {
    let first = "static mut A: u32 = 0;\n";
    let rest = "mod tests { static mut B: u32 = 0; }\nstatic mut C: u32 = 0;\n";
    let whole = global_state_hits(&format!("{first}{rest}"));
    let mut parts = global_state_hits(first);
    parts.extend(global_state_hits(rest));
    assert_eq!(whole.len(), 2);
    assert_eq!(whole.len(), parts.len());
    for (w, p) in whole.iter().zip(&parts) {
        assert_eq!(w.description, p.description);
    }
}

#[test]
fn collision_finding_in_full() {
    let hits = collision_hits(
        "const A: Symbol = symbol_short!(\"bal\");\nconst B: Symbol = symbol_short!(\"bal\");\n",
    );
    assert_eq!(hits.len(), 1);
    assert_eq!(hits[0].check_name, "symbol-key-collision");
    assert_eq!(hits[0].severity, Severity::Medium);
    assert_eq!(hits[0].file_path, "");
    assert_eq!(hits[0].line, 2);
    assert_eq!(hits[0].function_name, "const B");
    assert_eq!(hits[0].description, "Duplicate symbol key `bal` found at position 18");
    assert_eq!(
        hits[0].rule_url.as_deref(),
        Some("https://github.com/SorobanGuard/Guard-CLI/blob/main/docs/checks.md#symbol-key-collision-medium")
    );
    assert_eq!(
        hits[0].suggestion.as_deref(),
        Some(
            "Rename one of the duplicate `symbol_short!(\"bal\")` / `Symbol::new(…, \"bal\")` usages \
             to a unique key to avoid accidental storage slot collisions."
        )
    );
}

#[test]
fn literals_are_compared_by_the_string_they_stand_for() {
    for other in ["\"k\\u{65}y\"", "r\"key\"", "r#\"key\"#", "\"k\\x65y\""] {
        let src = format!("fn f() {{ symbol_short!(\"key\"); symbol_short!({other}); }}");
        let hits = collision_hits(&src);
        assert_eq!(hits.len(), 1, "{other}");
        assert!(hits[0].description.contains("`key`"), "{other}");
    }
}

#[test]
fn macros_without_a_single_string_literal_have_no_key() {
    for tokens in ["", "key", "b\"key\"", "\"key\", 1", "\"key\",", "'k'", "1", "(\"key\")"] {
        let src = format!("fn f() {{ symbol_short!({tokens}); symbol_short!({tokens}); }}");
        assert_eq!(collision_hits(&src).len(), 0, "{tokens}");
    }
}

#[test]
fn only_the_last_segment_of_a_macro_path_counts() {
    let hits = collision_hits(
        "fn f() { soroban_sdk::symbol_short!(\"k\"); symbol_short!(\"k\"); symbol_long!(\"k\"); }",
    );
    assert_eq!(hits.len(), 1);
}

#[test]
fn owners_of_colliding_keys() {
    let src = r#"
static S: Symbol = symbol_short!("k");
impl C {
    const A: Symbol = symbol_short!("k");
    pub fn m(env: Env) {
        const INNER: Symbol = symbol_short!("k");
        let s = symbol_short!("k");
        fn nested() { symbol_short!("k"); }
    }
    pub fn n(env: Env) { Symbol::new(&env, "k"); }
}
fn free() { soroban_sdk::Symbol::new(&env, "k"); }
trait T { fn provided() { symbol_short!("k"); } }
"#;
    let owners: Vec<String> = collision_hits(src).into_iter().map(|h| h.function_name).collect();
    assert_eq!(
        owners,
        vec![
            "module level",
            "const INNER",
            "m",
            "m",
            "n",
            "module level",
            "module level"
        ]
    );
}

#[test]
fn collisions_are_grouped_by_key() {
    let src = r#"
fn f() {
    symbol_short!("a");
    symbol_short!("b");
    symbol_short!("a");
    symbol_short!("c");
    Symbol::new(&env, "b");
    symbol_short!("a");
    symbol_short!("b");
}
"#;
    let hits = collision_hits(src);
    let of_key = |key: &str| -> Vec<usize> {
        hits.iter()
            .filter(|h| h.description.contains(&format!("`{key}`")))
            .map(|h| h.line)
            .collect()
    };
    assert_eq!(of_key("a"), vec![5, 8]);
    assert_eq!(of_key("b"), vec![7, 9]);
    assert_eq!(of_key("c"), Vec::<usize>::new());
    let lines: Vec<usize> = hits.iter().map(|h| h.line).collect();
    assert_eq!(lines, vec![5, 8, 7, 9]);
}

#[test]
fn collisions_across_impl_blocks() {
    let src = r#"
#[contractimpl]
impl A { pub fn f(env: Env) { symbol_short!("shared"); } }
#[contractimpl]
impl B { pub fn g(env: Env) { Symbol::new(&env, "shared"); } }
"#;
    assert_eq!(collision_hits(src).len(), 0);
    let one_line = "impl A { fn f() { let k = symbol_short!(\"key\"); } } \
        impl B { fn g() { let k = symbol_short!(\"key\"); } }";
    assert_eq!(collision_hits(one_line).len(), 0);
    let same_type = "impl A { fn f() { symbol_short!(\"key\"); } } \
        impl A { fn g() { symbol_short!(\"key\"); } }";
    assert_eq!(collision_hits(same_type).len(), 0);
}

#[test]
fn collisions_in_each_impl_block() {
    let src = r#"
impl A {
    pub fn f(env: Env) { symbol_short!("k"); }
    pub fn g(env: Env) { Symbol::new(&env, "k"); }
}
impl B {
    pub fn h(env: Env) { symbol_short!("k"); }
    pub fn i(env: Env) { symbol_short!("k"); }
}
"#;
    let owners: Vec<String> = collision_hits(src).into_iter().map(|h| h.function_name).collect();
    assert_eq!(owners, vec!["g", "i"]);
}

#[test]
fn collisions_with_keys_outside_of_blocks() {
    let before = r#"
const KEY: Symbol = symbol_short!("k");
impl A { pub fn f(env: Env) { symbol_short!("k"); } }
impl B { pub fn g(env: Env) { symbol_short!("k"); } }
"#;
    let owners: Vec<String> = collision_hits(before).into_iter().map(|h| h.function_name).collect();
    assert_eq!(owners, vec!["f", "g"]);
    let after = r#"
impl A { pub fn f(env: Env) { symbol_short!("k"); } }
impl B { pub fn g(env: Env) { symbol_short!("k"); } }
const KEY: Symbol = symbol_short!("k");
"#;
    let owners: Vec<String> = collision_hits(after).into_iter().map(|h| h.function_name).collect();
    assert_eq!(owners, vec!["const KEY"]);
}

#[test]
fn a_nested_impl_block_is_in_the_block_around_it() {
    let src = r#"
impl A {
    fn f() {
        symbol_short!("k");
        impl B { fn g() { symbol_short!("k"); } }
        symbol_short!("k");
    }
}
"#;
    let lines: Vec<usize> = collision_hits(src).into_iter().map(|h| h.line).collect();
    assert_eq!(lines, vec![5, 6]);
    let siblings = r#"
impl A {
    fn f() {
        impl B { fn g() { symbol_short!("k"); } }
        impl C { fn h() { symbol_short!("k"); } }
    }
}
impl D { fn i() { symbol_short!("k"); } }
"#;
    let lines: Vec<usize> = collision_hits(siblings).into_iter().map(|h| h.line).collect();
    assert_eq!(lines, vec![5]);
    let in_a_function = r#"
fn f() {
    impl B { fn g() { symbol_short!("k"); } }
    impl C { fn h() { symbol_short!("k"); } }
}
"#;
    assert_eq!(collision_hits(in_a_function).len(), 0);
}

#[test]
fn symbol_new_keys_need_a_literal_second_argument() {
    for call in ["Symbol::new(\"k\")", "Symbol::new(&env, k)", "Symbol::new(&env, b\"k\")",
        "Symbol::short(&env, \"k\")", "Other::new(&env, \"k\")", "new(&env, \"k\")"] {
        let src = format!("fn f() {{ {call}; {call}; }}");
        assert_eq!(collision_hits(&src).len(), 0, "{call}");
    }
    assert_eq!(
        collision_hits("fn f() { Symbol::new(&env, \"k\", 1); a::Symbol::new(&env, \"k\"); }").len(),
        1
    );
}

#[test]
fn unchecked_read_finding_in_full() {
    let hits = method_hits("        env.storage().temporary().get_unchecked(&K);");
    assert_eq!(hits.len(), 1);
    assert_eq!(hits[0].check_name, "unsafe-storage-patterns");
    assert_eq!(hits[0].severity, Severity::Medium);
    assert_eq!(hits[0].file_path, "");
    assert_eq!(hits[0].line, 4);
    assert_eq!(hits[0].function_name, "m");
    assert_eq!(
        hits[0].description,
        "Method `m` calls `get_unchecked` on temporary storage. If the entry has expired the call \
         will panic at runtime."
    );
    assert_eq!(
        hits[0].rule_url.as_deref(),
        Some("https://github.com/SorobanGuard/Guard-CLI/blob/main/docs/checks.md#unsafe-storage-patterns-medium")
    );
    assert_eq!(
        hits[0].suggestion.as_deref(),
        Some("Use `env.storage().temporary().get(&key)` (returns `Option`) and handle the missing case.")
    );
}

#[test]
fn temporary_write_finding_in_full() {
    let hits = method_hits("        env.storage().temporary().set(&K, &arg);");
    assert_eq!(hits.len(), 1);
    assert_eq!(hits[0].line, 4);
    assert_eq!(hits[0].function_name, "m");
    assert_eq!(
        hits[0].description,
        "Method `m` writes to **temporary** storage (`env.storage().temporary()`). Data expires \
         with TTL—only use for scratch or contest-style flows, not long-lived balances or ownership."
    );
    assert_eq!(
        hits[0].suggestion.as_deref(),
        Some("Use `env.storage().persistent()` for long-lived state; reserve `temporary()` for scratch data only.")
    );
}

#[test]
fn dynamic_symbol_finding_in_full() {
    let hits = method_hits("        Symbol::new(&env, arg);");
    assert_eq!(hits.len(), 1);
    assert_eq!(hits[0].line, 4);
    assert_eq!(hits[0].function_name, "m");
    assert_eq!(
        hits[0].description,
        "`Symbol::new` in `m` uses a non-literal key string. Keys derived from caller input are \
         easier to guess or collide with; prefer `symbol_short!` / fixed literals or a namespaced \
         encoding you control."
    );
    assert_eq!(
        hits[0].suggestion.as_deref(),
        Some("Use `symbol_short!(\"literal\")` or a named constant for storage keys.")
    );
}

#[test]
fn calls_on_temporary_storage() {
    for method in ["set", "remove", "extend_ttl", "bump", "append", "get_unchecked"] {
        let chain = |kind: &str| format!("env.storage().{kind}().{method}(&K);");
        assert_eq!(method_hits(&chain("temporary")).len(), 1, "{method}");
        assert_eq!(method_hits(&chain("persistent")).len(), 0, "{method}");
        assert_eq!(method_hits(&chain("instance")).len(), 0, "{method}");
        assert_eq!(method_hits(&format!("env.temporary().{method}(&K);")).len(), 0, "{method}");
    }
    for method in ["get", "has", "setter", "unset"] {
        let body = format!("env.storage().temporary().{method}(&K);");
        assert_eq!(method_hits(&body).len(), 0, "{method}");
    }
}

#[test]
fn the_line_of_a_chain_is_that_of_its_first_token() {
    let hits = method_hits(
        "        env\n            .storage()\n            .temporary()\n            .set(&K, &1);",
    );
    assert_eq!(hits.len(), 1);
    assert_eq!(hits[0].line, 4);
}

#[test]
fn storage_findings_at_every_depth_in_order() {
    let hits = method_hits(
        "if arg.len() > 0 {\n\
         let f = |x| env.storage().temporary().set(&Symbol::new(&env, x), &1);\n\
         }\n\
         foo(bar(env.storage().temporary().get_unchecked(&K)));\n\
         env.storage().temporary().set(&K, &env.storage().temporary().get_unchecked(&K));",
    );
    let lines: Vec<usize> = hits.iter().map(|h| h.line).collect();
    assert_eq!(lines, vec![5, 5, 7, 8, 8]);
    assert!(hits[0].description.contains("writes to"));
    assert!(hits[1].description.contains("Symbol::new"));
    assert!(hits[2].description.contains("get_unchecked"));
    assert!(hits[3].description.contains("writes to"));
    assert!(hits[4].description.contains("get_unchecked"));
}

#[test]
fn only_contract_methods_are_searched() {
    let body = "{ env.storage().temporary().set(&K, &1); }";
    for (src, n) in [
        (format!("impl C {{ fn f() {body} }}"), 0),
        (format!("fn f() {body}"), 0),
        (format!("#[contractimpl] impl C {{ fn f() {body} fn g() {body} }}"), 2),
        (format!("#[soroban_sdk::contractimpl] impl C {{ fn f() {body} }}"), 1),
        (format!("#[contractimpl] impl T for C {{ fn f() {body} }}"), 1),
        (format!("#[contract] impl C {{ fn f() {body} }}"), 0),
        (format!("mod m {{ #[contractimpl] impl C {{ fn f() {body} }} }}"), 1),
        (format!("#[cfg(test)] mod m {{ #[contractimpl] impl C {{ fn f() {body} }} }}"), 0),
        (format!("#[cfg(test)] #[contractimpl] impl C {{ fn f() {body} }}"), 0),
        (format!("#[contractimpl] impl C {{ #[cfg(test)] fn f() {body} fn g() {body} }}"), 1),
    ] {
        assert_eq!(storage_hits(&src).len(), n, "{src}");
    }
}

#[test]
fn storage_findings_follow_each_other_method_by_method() {
    let hits = storage_hits(
        r#"
#[contractimpl]
impl C {
    pub fn first(env: Env) { env.storage().temporary().set(&1, &2); }
    pub fn second(env: Env, name: String) {
        if name.is_empty() { env.storage().temporary().get_unchecked(&1); }
        Symbol::new(&env, &name);
    }
}
"#,
    );
    let seen: Vec<(usize, &str)> = hits.iter().map(|h| (h.line, h.function_name.as_str())).collect();
    assert_eq!(seen, vec![(4, "first"), (6, "second"), (7, "second")]);
    for h in &hits {
        assert_eq!(h.check_name, "unsafe-storage-patterns");
        assert_eq!(h.severity, Severity::Medium);
        assert_eq!(h.file_path, "");
        assert!(h.rule_url.is_some());
        assert!(h.suggestion.is_some());
    }
}

#[test]
fn declared_names_are_stable_keys_at_every_depth() {
    let call = "#[contractimpl] impl C { fn f() { Symbol::new(&env, KEY); } }";
    assert_eq!(storage_hits(call).len(), 1);
    for declaration in [
        "const KEY: &str = \"k\";",
        "static KEY: &str = \"k\";",
        "static mut KEY: &str = \"k\";",
        "mod a { mod b { const KEY: &str = \"k\"; } }",
        "fn g() { loop { const KEY: &str = \"k\"; } }",
        "impl D { const KEY: &str = \"k\"; }",
        "impl D { fn g() { static KEY: &str = \"k\"; } }",
        "#[cfg(test)] mod tests { const KEY: &str = \"k\"; }",
    ] {
        assert_eq!(storage_hits(&format!("{declaration} {call}")).len(), 0, "{declaration}");
    }
    for declaration in ["const KEYS: &str = \"k\";", "fn KEY() {}", "struct KEY;", "enum E { KEY }"] {
        assert_eq!(storage_hits(&format!("{declaration} {call}")).len(), 1, "{declaration}");
    }
}

#[test]
fn associated_constants_are_stable_keys() {
    let src = r#"
#[contractimpl]
impl C {
    const KEY: &'static str = "balance";
    pub fn put(env: Env) { Symbol::new(&env, Self::KEY); }
}
"#;
    assert_eq!(storage_hits(src).len(), 0);
}

#[test]
fn other_symbol_new_arguments() {
    for (call, n) in [
        ("Symbol::new(&env)", 0),
        ("Symbol::new()", 0),
        ("Symbol::new(&env, \"k\")", 0),
        ("Symbol::new(&env, r\"k\")", 0),
        ("Symbol::new(&env, 5)", 1),
        ("Symbol::new(&env, b\"k\")", 1),
        ("Symbol::new(&env, &arg)", 1),
        ("Symbol::new(&env, arg.as_str())", 1),
        ("Symbol::new(arg, \"k\")", 0),
        ("soroban_sdk::Symbol::new(&env, arg)", 1),
        ("Symbol::from(&env, arg)", 0),
        ("Text::new(&env, arg)", 0),
        ("new(&env, arg)", 0),
        ("Symbol::new(&env, arg, 1)", 1),
    ] {
        assert_eq!(method_hits(&format!("{call};")).len(), n, "{call}");
    }
}
