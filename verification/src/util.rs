//! Questions about syntax that several checks ask.

use vstd::prelude::*;

use crate::syntax::{ExprPath, File, ImplItemFn, ItemImpl, ItemMod, Meta, MetaList, Node};
use crate::text::text_is;
use crate::walk::lemma_add_contains;

verus! {

/// Whether a path is the single identifier `name`.
pub open spec fn is_ident(path: Seq<String>, name: Seq<char>) -> bool {
    path.len() == 1 && path[0]@ == name
}

/// Whether the last segment of a path is `name`.
pub open spec fn ends_with(path: Seq<String>, name: Seq<char>) -> bool {
    path.len() > 0 && path.last()@ == name
}

/// Whether a path is the single identifier `name`.
pub fn path_is_ident(path: &Vec<String>, name: &str) -> (r: bool)
    ensures
        r == is_ident(path@, name@),
{
    path.len() == 1 && text_is(&path[0], name)
}

/// Whether the last segment of a path is `name`.
pub fn path_ends_with(path: &Vec<String>, name: &str) -> (r: bool)
    ensures
        r == ends_with(path@, name@),
{
    path.len() > 0 && text_is(&path[path.len() - 1], name)
}

/// The segments of the path that an attribute starts with.
pub open spec fn spec_meta_path(meta: Meta) -> Seq<String> {
    match meta {
        Meta::Path(path) => path@,
        Meta::List(list) => list.path@,
        Meta::NameValue(path) => path@,
    }
}

/// The segments of the path that an attribute starts with.
pub fn meta_path(meta: &Meta) -> (r: &Vec<String>)
    ensures
        r@ == spec_meta_path(*meta),
{
    match meta {
        Meta::Path(path) => path,
        Meta::List(list) => &list.path,
        Meta::NameValue(path) => path,
    }
}

/// Whether a configuration predicate is `test`, or names such a predicate inside `all(..)` or
/// `any(..)`.
pub open spec fn selects_test(meta: Meta) -> bool
    decreases meta,
{
    match meta {
        Meta::Path(path) => is_ident(path@, "test"@),
        Meta::List(list) => (is_ident(list.path@, "all"@) || is_ident(list.path@, "any"@))
            && exists|i: int|
            0 <= i < list.nested@.len() && selects_test(#[trigger] list.nested@[i]),
        Meta::NameValue(_) => false,
    }
}

/// Whether an attribute is a `cfg(..)` that [`selects_test`].
pub open spec fn is_test_gate(attr: Meta) -> bool {
    match attr {
        Meta::List(list) => is_ident(list.path@, "cfg"@) && exists|i: int|
            0 <= i < list.nested@.len() && selects_test(#[trigger] list.nested@[i]),
        _ => false,
    }
}

/// Whether one of the attributes is a [test gate](is_test_gate).
pub open spec fn gated_by_test(attrs: Seq<Meta>) -> bool {
    exists|i: int| 0 <= i < attrs.len() && #[trigger] is_test_gate(attrs[i])
}

/// Whether a configuration predicate is `test`, or names such a predicate inside `all(..)` or
/// `any(..)`.
fn meta_selects_test(meta: &Meta) -> (r: bool)
    ensures
        r == selects_test(*meta),
    decreases meta,
{
    match meta {
        Meta::Path(path) => path_is_ident(path, "test"),
        Meta::List(list) => {
            if !path_is_ident(&list.path, "all") && !path_is_ident(&list.path, "any") {
                return false;
            }
            for i in 0..list.nested.len()
                invariant
                    *meta == Meta::List(*list),
                    is_ident(list.path@, "all"@) || is_ident(list.path@, "any"@),
                    forall|j: int| 0 <= j < i ==> !selects_test(#[trigger] list.nested@[j]),
            {
                assert(decreases_to!(*meta => meta->List_0.nested@[i as int]));
                if meta_selects_test(&list.nested[i]) {
                    return true;
                }
            }
            false
        },
        Meta::NameValue(_) => false,
    }
}

/// Whether an attribute is a `cfg(..)` whose predicate is `test`, or names such a predicate
/// inside `all(..)` or `any(..)`.
fn attr_is_test_gate(attr: &Meta) -> (r: bool)
    ensures
        r == is_test_gate(*attr),
{
    if let Meta::List(list) = attr {
        if path_is_ident(&list.path, "cfg") {
            for i in 0..list.nested.len()
                invariant
                    *attr == Meta::List(*list),
                    is_ident(list.path@, "cfg"@),
                    forall|j: int| 0 <= j < i ==> !selects_test(#[trigger] list.nested@[j]),
            {
                if meta_selects_test(&list.nested[i]) {
                    assert(selects_test(attr->List_0.nested@[i as int]));
                    return true;
                }
            }
        }
    }
    false
}

/// Whether something with these attributes is compiled for tests: under `#[cfg(test)]`, or a
/// `cfg` with `test` nested inside `all(..)` or `any(..)`.
pub fn is_cfg_test(attrs: &Vec<Meta>) -> (r: bool)
    ensures
        r == gated_by_test(attrs@),
{
    for i in 0..attrs.len()
        invariant
            forall|j: int| 0 <= j < i ==> !#[trigger] is_test_gate(attrs@[j]),
    {
        if attr_is_test_gate(&attrs[i]) {
            return true;
        }
    }
    false
}

/// Whether one of the attributes is `#[contractimpl]`, under whatever path it is imported.
pub open spec fn has_contractimpl(attrs: Seq<Meta>) -> bool {
    exists|i: int|
        0 <= i < attrs.len() && #[trigger] ends_with(spec_meta_path(attrs[i]), "contractimpl"@)
}

/// Whether one of the attributes is `#[contractimpl]`, under whatever path it is imported.
pub fn is_contractimpl(attrs: &Vec<Meta>) -> (r: bool)
    ensures
        r == has_contractimpl(attrs@),
{
    for i in 0..attrs.len()
        invariant
            forall|j: int|
                0 <= j < i ==> !#[trigger] ends_with(spec_meta_path(attrs@[j]), "contractimpl"@),
    {
        if path_ends_with(meta_path(&attrs[i]), "contractimpl") {
            return true;
        }
    }
    false
}

/// The methods among the items of an `impl` that are not gated by `test`.
pub open spec fn methods(items: Seq<Node>) -> Seq<ImplItemFn>
    decreases items.len(),
{
    if items.len() == 0 {
        Seq::empty()
    } else {
        methods(items.drop_last()) + match items.last() {
            Node::ImplFn(f) => if gated_by_test(f.attrs@) {
                Seq::empty()
            } else {
                seq![f]
            },
            _ => Seq::empty(),
        }
    }
}

/// The contract methods in an item: the methods of a `#[contractimpl]` block, or those in a
/// module. Nothing that is gated by `test` counts.
pub open spec fn contract_methods_of(item: Node) -> Seq<ImplItemFn>
    decreases item,
{
    match item {
        Node::Impl(i) => if has_contractimpl(i.attrs@) && !gated_by_test(i.attrs@) {
            methods(i.items@)
        } else {
            Seq::empty()
        },
        Node::Mod(m) => if gated_by_test(m.attrs@) {
            Seq::empty()
        } else {
            contract_methods(m.items@)
        },
        _ => Seq::empty(),
    }
}

/// The contract methods in a list of items.
pub open spec fn contract_methods(items: Seq<Node>) -> Seq<ImplItemFn>
    decreases items,
{
    if items.len() == 0 {
        Seq::empty()
    } else {
        contract_methods(items.drop_last()) + contract_methods_of(items.last())
    }
}

/// Puts the methods among `items` that are not gated by `test` behind those in `out`.
fn push_methods<'a>(items: &'a Vec<Node>, out: &mut Vec<&'a ImplItemFn>)
    ensures
        final(out)@.unref() == old(out)@.unref() + methods(items@),
{
    for i in 0..items.len()
        invariant
            out@.unref() == old(out)@.unref() + methods(items@.take(i as int)),
    {
        assert(items@.take(i + 1).drop_last() == items@.take(i as int));
        let ghost before = out@.unref();
        if let Node::ImplFn(f) = &items[i] {
            if !is_cfg_test(&f.attrs) {
                out.push(f);
                assert(out@.unref() == before + seq![*f]);
            }
        }
    }
    assert(items@.take(items@.len() as int) == items@);
}

/// Puts the contract methods in `items` behind those in `out`.
fn push_contract_methods<'a>(items: &'a Vec<Node>, out: &mut Vec<&'a ImplItemFn>)
    ensures
        final(out)@.unref() == old(out)@.unref() + contract_methods(items@),
    decreases items@,
{
    for i in 0..items.len()
        invariant
            out@.unref() == old(out)@.unref() + contract_methods(items@.take(i as int)),
    {
        assert(items@.take(i + 1).drop_last() == items@.take(i as int));
        assert(contract_methods(items@.take(i + 1)) == contract_methods(items@.take(i as int))
            + contract_methods_of(items@[i as int]));
        match &items[i] {
            Node::Impl(imp) => {
                if is_contractimpl(&imp.attrs) && !is_cfg_test(&imp.attrs) {
                    push_methods(&imp.items, out);
                }
            },
            Node::Mod(m) => {
                if !is_cfg_test(&m.attrs) {
                    assert(decreases_to!(items@ => items@[i as int]));
                    assert(decreases_to!(items@[i as int] => m.items@));
                    push_contract_methods(&m.items, out);
                }
            },
            _ => {},
        }
    }
    assert(items@.take(items@.len() as int) == items@);
}

/// The methods of the `#[contractimpl]` blocks of a file, leaving out what is gated by `test`.
pub fn contractimpl_functions_excluding_test(file: &File) -> (r: Vec<&ImplItemFn>)
    ensures
        r@.unref() == contract_methods(file.items@),
{
    let mut out: Vec<&ImplItemFn> = Vec::new();
    push_contract_methods(&file.items, &mut out);
    out
}

/// Whether an expression is a chain of method calls in which `method` is called.
pub open spec fn chain_calls(expr: Node, method: Seq<char>) -> bool
    decreases expr,
{
    match expr {
        Node::MethodCall(m) => m.method@ == method || chain_calls(*m.receiver, method),
        _ => false,
    }
}

/// Whether an expression is a chain of method calls in which `method` is called.
fn receiver_chain_contains(expr: &Node, method: &str) -> (r: bool)
    ensures
        r == chain_calls(*expr, method@),
    decreases expr,
{
    match expr {
        Node::MethodCall(m) => text_is(&m.method, method) || receiver_chain_contains(
            &m.receiver,
            method,
        ),
        _ => false,
    }
}

/// Whether `.storage()` is called in a chain of method calls.
pub fn receiver_chain_contains_storage(expr: &Node) -> (r: bool)
    ensures
        r == chain_calls(*expr, "storage"@),
{
    receiver_chain_contains(expr, "storage")
}

/// Whether `.temporary()` is called in a chain of method calls.
pub fn receiver_chain_contains_temporary(expr: &Node) -> (r: bool)
    ensures
        r == chain_calls(*expr, "temporary"@),
{
    receiver_chain_contains(expr, "temporary")
}

/// Whether an expression is a path whose last two segments are `Symbol::new`.
pub open spec fn is_symbol_new(expr: Node) -> bool {
    match expr {
        Node::Path(p) => p.segments@.len() >= 2 && p.segments@[p.segments@.len() - 2]@
            == "Symbol"@ && p.segments@.last()@ == "new"@,
        _ => false,
    }
}

/// Whether an expression is a path whose *last two* segments are `Symbol::new`, so both the bare
/// `Symbol::new` (imported) and the fully qualified `soroban_sdk::Symbol::new` are recognized.
pub fn is_symbol_new_path(expr: &Node) -> (r: bool)
    ensures
        r == is_symbol_new(*expr),
{
    match expr {
        Node::Path(p) => {
            let n: usize = p.segments.len();
            n >= 2 && text_is(&p.segments[n - 2], "Symbol") && text_is(&p.segments[n - 1], "new")
        },
        _ => false,
    }
}

/// A predicate that selects tests still does so inside `all(..)` or `any(..)`, however deep.
pub proof fn law_test_selected_inside_all_and_any(list: MetaList, i: int)
    requires
        is_ident(list.path@, "all"@) || is_ident(list.path@, "any"@),
        0 <= i < list.nested@.len(),
        selects_test(list.nested@[i]),
    ensures
        selects_test(Meta::List(list)),
{
    assert(selects_test(Meta::List(list)->List_0.nested@[i]));
}

/// `not(..)` never selects tests, whatever stands in it.
pub proof fn law_test_not_selected_inside_not(list: MetaList)
    requires
        is_ident(list.path@, "not"@),
    ensures
        !selects_test(Meta::List(list)),
{
    reveal_strlit("not");
    reveal_strlit("all");
    reveal_strlit("any");
    assert("not"@[0] != "all"@[0]);
    assert("not"@[0] != "any"@[0]);
}

/// How `#[contractimpl]` is qualified does not matter: attributes whose paths end in the same
/// segment are both it or both not.
pub proof fn law_contractimpl_qualification(a: Meta, b: Meta)
    requires
        spec_meta_path(a).len() > 0,
        spec_meta_path(b).len() > 0,
        spec_meta_path(a).last()@ == spec_meta_path(b).last()@,
    ensures
        has_contractimpl(seq![a]) == has_contractimpl(seq![b]),
{
    assert(has_contractimpl(seq![a]) == ends_with(spec_meta_path(a), "contractimpl"@)) by {
        assert(seq![a][0] == a);
    }
    assert(has_contractimpl(seq![b]) == ends_with(spec_meta_path(b), "contractimpl"@)) by {
        assert(seq![b][0] == b);
    }
}

/// How `Symbol::new` is qualified does not matter: only the last two segments of the path do.
pub proof fn law_symbol_new_qualification(a: ExprPath, b: ExprPath)
    requires
        a.segments@.len() >= 2,
        b.segments@.len() >= 2,
        a.segments@.last()@ == b.segments@.last()@,
        a.segments@[a.segments@.len() - 2]@ == b.segments@[b.segments@.len() - 2]@,
    ensures
        is_symbol_new(Node::Path(a)) == is_symbol_new(Node::Path(b)),
{
}

/// Nothing inside a module that is gated by `test` is a contract method: taking the module out
/// of the items leaves the contract methods as they are.
pub proof fn law_test_modules_hold_no_contract_methods(
    before: Seq<Node>,
    m: ItemMod,
    after: Seq<Node>,
)
    requires
        gated_by_test(m.attrs@),
    ensures
        contract_methods(before.push(Node::Mod(m)) + after) == contract_methods(before + after),
{
    lemma_contract_methods_add(before.push(Node::Mod(m)), after);
    lemma_contract_methods_add(before, after);
    assert(before.push(Node::Mod(m)).drop_last() == before);
    assert(contract_methods_of(Node::Mod(m)) == Seq::<ImplItemFn>::empty());
    assert(contract_methods(before.push(Node::Mod(m))) == contract_methods(before));
}

/// The contract methods in two lists of items are those in one and then those in the other.
pub proof fn lemma_contract_methods_add(a: Seq<Node>, b: Seq<Node>)
    ensures
        contract_methods(a + b) == contract_methods(a) + contract_methods(b),
    decreases b.len(),
{
    if b.len() == 0 {
        assert(a + b == a);
        assert(contract_methods(b) == Seq::<ImplItemFn>::empty());
    } else {
        lemma_contract_methods_add(a, b.drop_last());
        assert((a + b).drop_last() == a + b.drop_last());
        assert((a + b).last() == b.last());
    }
}

/// The texts of the segments of a path.
pub open spec fn texts(path: Seq<String>) -> Seq<Seq<char>> {
    path.map_values(|segment: String| segment@)
}

/// A path is a single identifier if its only segment is it, and ends with a name if that follows
/// some segments or none.
pub proof fn law_identifiers_and_ends(path: Seq<String>, name: Seq<char>)
    ensures
        is_ident(path, name) <==> texts(path) == seq![name],
        ends_with(path, name) <==> exists|lead: Seq<Seq<char>>| texts(path) == #[trigger] lead.push(
            name,
        ),
{
    let n = path.len() as int;
    if is_ident(path, name) {
        assert(texts(path) =~= seq![name]);
    }
    if texts(path) == seq![name] {
        assert(texts(path).len() == path.len());
        assert(texts(path)[0] == path[0]@);
    }
    if ends_with(path, name) {
        assert(texts(path) =~= texts(path.drop_last()).push(name));
    }
    if exists|lead: Seq<Seq<char>>| texts(path) == #[trigger] lead.push(name) {
        let lead = choose|lead: Seq<Seq<char>>| texts(path) == #[trigger] lead.push(name);
        assert(texts(path).len() == path.len());
        assert(lead.push(name)[n - 1] == name);
        assert(texts(path)[n - 1] == path[n - 1]@);
    }
}

/// Whether a configuration predicate is an argument of another one that is `all(..)` or `any(..)`.
pub open spec fn is_argument_of(inner: Meta, outer: Meta) -> bool {
    &&& outer matches Meta::List(list)
    &&& texts(list.path@) == seq!["all"@] || texts(list.path@) == seq!["any"@]
    &&& list.nested@.contains(inner)
}

/// Whether configuration predicates, each an argument of the `all(..)` or `any(..)` ahead of it,
/// lead to `test`.
pub open spec fn leads_to_test(line: Seq<Meta>) -> bool {
    &&& line.len() > 0
    &&& forall|i: int, j: int|
        0 <= i && j == i + 1 && j < line.len() ==> #[trigger] is_argument_of(line[j], line[i])
    &&& line.last() matches Meta::Path(path)
    &&& texts(path@) == seq!["test"@]
}

/// A configuration predicate selects tests if and only if it leads to `test` through nothing but
/// `all(..)` and `any(..)`, however many of them and whatever else stands beside.
pub proof fn law_test_is_selected_through_all_and_any(meta: Meta)
    ensures
        selects_test(meta) <==> exists|line: Seq<Meta>|
            #[trigger] leads_to_test(line) && line[0] == meta,
{
    if selects_test(meta) {
        lemma_selected_has_line(meta);
    }
    if exists|line: Seq<Meta>| #[trigger] leads_to_test(line) && line[0] == meta {
        let line = choose|line: Seq<Meta>| #[trigger] leads_to_test(line) && line[0] == meta;
        lemma_line_selects(line);
    }
}

/// A predicate that selects tests leads to `test`.
proof fn lemma_selected_has_line(meta: Meta)
    requires
        selects_test(meta),
    ensures
        exists|line: Seq<Meta>| #[trigger] leads_to_test(line) && line[0] == meta,
    decreases meta,
{
    match meta {
        Meta::Path(path) => {
            law_identifiers_and_ends(path@, "test"@);
            let line = seq![meta];
            assert(leads_to_test(line) && line[0] == meta);
        },
        Meta::List(list) => {
            law_identifiers_and_ends(list.path@, "all"@);
            law_identifiers_and_ends(list.path@, "any"@);
            let k = choose|k: int|
                0 <= k < list.nested@.len() && selects_test(#[trigger] list.nested@[k]);
            let inner = list.nested@[k];
            assert(decreases_to!(meta => meta->List_0.nested@[k]));
            lemma_selected_has_line(inner);
            let rest = choose|line: Seq<Meta>| #[trigger] leads_to_test(line) && line[0] == inner;
            let line = seq![meta] + rest;
            assert(is_argument_of(inner, meta));
            assert forall|i: int, j: int|
                0 <= i && j == i + 1 && j < line.len() implies #[trigger] is_argument_of(
                line[j],
                line[i],
            ) by {
                assert(line[j] == rest[j - 1]);
                if i > 0 {
                    assert(line[i] == rest[i - 1]);
                    assert(is_argument_of(rest[j - 1], rest[i - 1]));
                }
            }
            assert(line.last() == rest.last());
            assert(leads_to_test(line) && line[0] == meta);
        },
        Meta::NameValue(_) => {},
    }
}

/// A predicate that leads to `test` selects tests.
proof fn lemma_line_selects(line: Seq<Meta>)
    requires
        leads_to_test(line),
    ensures
        selects_test(line[0]),
    decreases line.len(),
{
    if line.len() == 1 {
        law_identifiers_and_ends(line[0]->Path_0@, "test"@);
    } else {
        let rest = line.skip(1);
        assert forall|i: int, j: int|
            0 <= i && j == i + 1 && j < rest.len() implies #[trigger] is_argument_of(
            rest[j],
            rest[i],
        ) by {
            assert(is_argument_of(line[j + 1], line[i + 1]));
        }
        assert(rest.last() == line.last());
        lemma_line_selects(rest);
        assert(rest[0] == line[1]);
        let list = line[0]->List_0;
        assert(is_argument_of(line[1], line[0]));
        law_identifiers_and_ends(list.path@, "all"@);
        law_identifiers_and_ends(list.path@, "any"@);
        let k = choose|k: int| 0 <= k < list.nested@.len() && list.nested@[k] == line[1];
        assert(selects_test(list.nested@[k]));
    }
}

/// Whether an attribute is a `cfg(..)` from one argument of which predicates lead to `test`.
pub open spec fn gates_by(attr: Meta, line: Seq<Meta>) -> bool {
    &&& attr matches Meta::List(list)
    &&& texts(list.path@) == seq!["cfg"@]
    &&& leads_to_test(line)
    &&& list.nested@.contains(line[0])
}

/// Something is gated by `test` if and only if one of its attributes, whichever, is a `cfg(..)`
/// that leads to `test`.
pub proof fn law_gated_by_a_cfg_that_leads_to_test(attrs: Seq<Meta>)
    ensures
        gated_by_test(attrs) <==> exists|i: int, line: Seq<Meta>|
            0 <= i < attrs.len() && #[trigger] gates_by(attrs[i], line),
{
    if gated_by_test(attrs) {
        let i = choose|i: int| 0 <= i < attrs.len() && #[trigger] is_test_gate(attrs[i]);
        let list = attrs[i]->List_0;
        law_identifiers_and_ends(list.path@, "cfg"@);
        let k = choose|k: int|
            0 <= k < list.nested@.len() && selects_test(#[trigger] list.nested@[k]);
        law_test_is_selected_through_all_and_any(list.nested@[k]);
        let line = choose|line: Seq<Meta>| #[trigger]
            leads_to_test(line) && line[0] == list.nested@[k];
        assert(gates_by(attrs[i], line));
    }
    if exists|i: int, line: Seq<Meta>|
        0 <= i < attrs.len() && #[trigger] gates_by(attrs[i], line) {
        let (i, line) = choose|i: int, line: Seq<Meta>|
            0 <= i < attrs.len() && #[trigger] gates_by(attrs[i], line);
        let list = attrs[i]->List_0;
        law_identifiers_and_ends(list.path@, "cfg"@);
        law_test_is_selected_through_all_and_any(line[0]);
        let k = choose|k: int| 0 <= k < list.nested@.len() && list.nested@[k] == line[0];
        assert(selects_test(list.nested@[k]));
        assert(is_test_gate(attrs[i]));
    }
}

/// Attributes other than `cfg(..)` gate nothing: doc comments, flags and other lists do not
/// matter.
pub proof fn law_only_cfg_gates(attrs: Seq<Meta>)
    requires
        forall|i: int|
            0 <= i < attrs.len() ==> !(#[trigger] attrs[i] matches Meta::List(list) && texts(
                list.path@,
            ) == seq!["cfg"@]),
    ensures
        !gated_by_test(attrs),
{
    law_gated_by_a_cfg_that_leads_to_test(attrs);
}

/// Further attributes take no gate away, and their order does not matter: something is gated if
/// and only if some of its attributes gate it.
pub proof fn law_gates_add_up(a: Seq<Meta>, b: Seq<Meta>)
    ensures
        gated_by_test(a + b) <==> gated_by_test(a) || gated_by_test(b),
{
    let all = a + b;
    if gated_by_test(all) {
        let i = choose|i: int| 0 <= i < all.len() && #[trigger] is_test_gate(all[i]);
        if i < a.len() {
            assert(is_test_gate(a[i]));
        } else {
            assert(is_test_gate(b[i - a.len()]));
        }
    }
    if gated_by_test(a) {
        let i = choose|i: int| 0 <= i < a.len() && #[trigger] is_test_gate(a[i]);
        assert(is_test_gate(all[i]));
    }
    if gated_by_test(b) {
        let i = choose|i: int| 0 <= i < b.len() && #[trigger] is_test_gate(b[i]);
        assert(is_test_gate(all[a.len() + i]));
    }
}

/// Attributes hold `#[contractimpl]` if and only if the path of one of them ends with that name,
/// whatever it is qualified by, and with or without arguments.
pub proof fn law_contractimpl_ends_the_path(attrs: Seq<Meta>)
    ensures
        has_contractimpl(attrs) <==> exists|i: int, lead: Seq<Seq<char>>|
            #![trigger attrs[i], lead.push("contractimpl"@)]
            0 <= i < attrs.len() && texts(
                match attrs[i] {
                    Meta::Path(path) => path@,
                    Meta::List(list) => list.path@,
                    Meta::NameValue(path) => path@,
                },
            ) == lead.push("contractimpl"@),
{
    if has_contractimpl(attrs) {
        let i = choose|i: int|
            0 <= i < attrs.len() && #[trigger] ends_with(
                spec_meta_path(attrs[i]),
                "contractimpl"@,
            );
        law_identifiers_and_ends(spec_meta_path(attrs[i]), "contractimpl"@);
        let lead = choose|lead: Seq<Seq<char>>|
            texts(spec_meta_path(attrs[i])) == #[trigger] lead.push("contractimpl"@);
        assert(attrs[i] == attrs[i] && texts(spec_meta_path(attrs[i])) == lead.push(
            "contractimpl"@,
        ));
    }
    if exists|i: int, lead: Seq<Seq<char>>|
        #![trigger attrs[i], lead.push("contractimpl"@)]
        0 <= i < attrs.len() && texts(
            match attrs[i] {
                Meta::Path(path) => path@,
                Meta::List(list) => list.path@,
                Meta::NameValue(path) => path@,
            },
        ) == lead.push("contractimpl"@) {
        let (i, lead) = choose|i: int, lead: Seq<Seq<char>>|
            #![trigger attrs[i], lead.push("contractimpl"@)]
            0 <= i < attrs.len() && texts(
                match attrs[i] {
                    Meta::Path(path) => path@,
                    Meta::List(list) => list.path@,
                    Meta::NameValue(path) => path@,
                },
            ) == lead.push("contractimpl"@);
        law_identifiers_and_ends(spec_meta_path(attrs[i]), "contractimpl"@);
        assert(ends_with(spec_meta_path(attrs[i]), "contractimpl"@));
    }
}

/// Whether an item of an `impl` is a method that is not gated by `test`.
pub open spec fn is_live_method(item: Node) -> bool {
    item matches Node::ImplFn(f) && !gated_by_test(f.attrs@)
}

/// The methods of a block are those of its items that are methods not gated by `test`: all of
/// them, whatever other attributes they have, each once and in order.
pub proof fn law_methods_are_the_live_ones(items: Seq<Node>)
    ensures
        methods(items) == items.filter(|item: Node| is_live_method(item)).map_values(
            |item: Node| item->ImplFn_0,
        ),
    decreases items.len(),
{
    reveal(Seq::filter);
    if items.len() > 0 {
        law_methods_are_the_live_ones(items.drop_last());
    }
    assert(methods(items) =~= items.filter(|item: Node| is_live_method(item)).map_values(
        |item: Node| item->ImplFn_0,
    ));
}

/// A method is among those of a block if and only if it is one of the items and not gated by
/// `test`.
pub proof fn law_live_methods_belong(items: Seq<Node>, f: ImplItemFn)
    ensures
        methods(items).contains(f) <==> items.contains(Node::ImplFn(f)) && !gated_by_test(f.attrs@),
    decreases items.len(),
{
    if items.len() > 0 {
        let rest = items.drop_last();
        let last = items.last();
        law_live_methods_belong(rest, f);
        assert(items == rest.push(last));
        assert(items.contains(Node::ImplFn(f)) <==> rest.contains(Node::ImplFn(f)) || last
            == Node::ImplFn(f)) by {
            if rest.contains(Node::ImplFn(f)) {
                let k = choose|k: int| 0 <= k < rest.len() && rest[k] == Node::ImplFn(f);
                assert(items[k] == rest[k]);
            }
            if items.contains(Node::ImplFn(f)) {
                let k = choose|k: int| 0 <= k < items.len() && items[k] == Node::ImplFn(f);
                if k < rest.len() {
                    assert(rest[k] == items[k]);
                }
            }
            assert(items[items.len() - 1] == last);
        }
        let own = match last {
            Node::ImplFn(g) => if gated_by_test(g.attrs@) {
                Seq::empty()
            } else {
                seq![g]
            },
            _ => Seq::empty(),
        };
        assert(methods(items) == methods(rest) + own);
        lemma_add_contains(methods(rest), own, f);
        assert(seq![f][0] == f);
    }
}

/// Whether an item is directly in a module that is not gated by `test`.
pub open spec fn is_in_live_module(item: Node, module: Node) -> bool {
    &&& module matches Node::Mod(m)
    &&& !gated_by_test(m.attrs@)
    &&& m.items@.contains(item)
}

/// Whether items lead to an `impl` block: directly, or through modules in modules, none of them
/// gated by `test`.
pub open spec fn leads_to_block(items: Seq<Node>, line: Seq<Node>, block: ItemImpl) -> bool {
    &&& line.len() > 0
    &&& items.contains(line[0])
    &&& forall|i: int, j: int|
        0 <= i && j == i + 1 && j < line.len() ==> #[trigger] is_in_live_module(line[j], line[i])
    &&& line.last() == Node::Impl(block)
}

/// Whether a block that items lead to is a `#[contractimpl]` one not gated by `test`, with the
/// method among its items, not gated by `test` either.
pub open spec fn holds_contract_method(
    items: Seq<Node>,
    line: Seq<Node>,
    block: ItemImpl,
    f: ImplItemFn,
) -> bool {
    &&& leads_to_block(items, line, block)
    &&& has_contractimpl(block.attrs@)
    &&& !gated_by_test(block.attrs@)
    &&& block.items@.contains(Node::ImplFn(f))
    &&& !gated_by_test(f.attrs@)
}

/// A method is a contract method if and only if it stands in a `#[contractimpl]` block, however
/// deep in modules, with nothing around it and itself not gated by `test`.
pub proof fn law_contract_methods_at_any_depth(items: Seq<Node>, f: ImplItemFn)
    ensures
        contract_methods(items).contains(f) <==> exists|line: Seq<Node>, block: ItemImpl|
            #[trigger] holds_contract_method(items, line, block, f),
{
    if contract_methods(items).contains(f) {
        lemma_contract_method_has_line(items, f);
    }
    if exists|line: Seq<Node>, block: ItemImpl| #[trigger]
        holds_contract_method(items, line, block, f) {
        let (line, block) = choose|line: Seq<Node>, block: ItemImpl| #[trigger]
            holds_contract_method(items, line, block, f);
        lemma_line_holds_contract_method(items, line, block, f);
    }
}

/// A contract method stands in a block that the items lead to.
proof fn lemma_contract_method_has_line(items: Seq<Node>, f: ImplItemFn)
    requires
        contract_methods(items).contains(f),
    ensures
        exists|line: Seq<Node>, block: ItemImpl| #[trigger]
            holds_contract_method(items, line, block, f),
    decreases items,
{
    if items.len() > 0 {
        let rest = items.drop_last();
        let last = items.last();
        lemma_add_contains(contract_methods(rest), contract_methods_of(last), f);
        if contract_methods(rest).contains(f) {
            lemma_contract_method_has_line(rest, f);
            let (line, block) = choose|line: Seq<Node>, block: ItemImpl| #[trigger]
                holds_contract_method(rest, line, block, f);
            let k = choose|k: int| 0 <= k < rest.len() && rest[k] == line[0];
            assert(items[k] == line[0]);
            assert(holds_contract_method(items, line, block, f));
        } else {
            assert(items[items.len() - 1] == last);
            match last {
                Node::Impl(block) => {
                    law_live_methods_belong(block.items@, f);
                    let line = seq![last];
                    assert(line.last() == last && items.contains(line[0]));
                    assert(holds_contract_method(items, line, block, f));
                },
                Node::Mod(m) => {
                    assert(decreases_to!(items => items[items.len() - 1]));
                    assert(decreases_to!(last => m.items@));
                    lemma_contract_method_has_line(m.items@, f);
                    let (inner, block) = choose|line: Seq<Node>, block: ItemImpl| #[trigger]
                        holds_contract_method(m.items@, line, block, f);
                    let line = seq![last] + inner;
                    assert(is_in_live_module(inner[0], last));
                    assert forall|i: int, j: int|
                        0 <= i && j == i + 1 && j < line.len() implies #[trigger] is_in_live_module(
                        line[j],
                        line[i],
                    ) by {
                        assert(line[j] == inner[j - 1]);
                        if i > 0 {
                            assert(line[i] == inner[i - 1]);
                            assert(is_in_live_module(inner[j - 1], inner[i - 1]));
                        }
                    }
                    assert(line.last() == inner.last());
                    assert(line[0] == last && items.contains(line[0]));
                    assert(holds_contract_method(items, line, block, f));
                },
                _ => {},
            }
        }
    }
}

/// The methods in a block that the items lead to are contract methods.
proof fn lemma_line_holds_contract_method(
    items: Seq<Node>,
    line: Seq<Node>,
    block: ItemImpl,
    f: ImplItemFn,
)
    requires
        holds_contract_method(items, line, block, f),
    ensures
        contract_methods(items).contains(f),
    decreases line.len(),
{
    let k = choose|k: int| 0 <= k < items.len() && items[k] == line[0];
    if line.len() == 1 {
        law_live_methods_belong(block.items@, f);
    } else {
        let m = line[0]->Mod_0;
        let rest = line.skip(1);
        assert(line[1] == rest[0]);
        assert(is_in_live_module(line[1], line[0]));
        assert forall|i: int, j: int|
            0 <= i && j == i + 1 && j < rest.len() implies #[trigger] is_in_live_module(
            rest[j],
            rest[i],
        ) by {
            assert(is_in_live_module(line[j + 1], line[i + 1]));
        }
        assert(rest.last() == line.last());
        assert(holds_contract_method(m.items@, rest, block, f));
        lemma_line_holds_contract_method(m.items@, rest, block, f);
    }
    assert(contract_methods_of(items[k]).contains(f));
    assert(items == items.take(k) + (seq![items[k]] + items.skip(k + 1)));
    lemma_contract_methods_add(items.take(k), seq![items[k]] + items.skip(k + 1));
    lemma_contract_methods_add(seq![items[k]], items.skip(k + 1));
    law_contract_methods_of_one_item(items[k]);
    lemma_add_contains(contract_methods(seq![items[k]]), contract_methods(items.skip(k + 1)), f);
    lemma_add_contains(
        contract_methods(items.take(k)),
        contract_methods(seq![items[k]] + items.skip(k + 1)),
        f,
    );
}

/// The contract methods of a single item: of a `#[contractimpl]` block its methods, of a module
/// those of its items, as long as no `test` gates it, and none of anything else.
pub proof fn law_contract_methods_of_one_item(item: Node)
    ensures
        contract_methods(seq![item]) == contract_methods_of(item),
        item is Impl && has_contractimpl(item->Impl_0.attrs@) && !gated_by_test(
            item->Impl_0.attrs@,
        ) ==> contract_methods(seq![item]) == methods(item->Impl_0.items@),
        item is Mod && !gated_by_test(item->Mod_0.attrs@) ==> contract_methods(seq![item])
            == contract_methods(item->Mod_0.items@),
        item !is Impl && item !is Mod ==> contract_methods(seq![item]).len() == 0,
{
    let one = seq![item];
    assert(one.drop_last() == Seq::<Node>::empty());
    assert(contract_methods(one.drop_last()) == Seq::<ImplItemFn>::empty());
    assert(contract_methods(one) == contract_methods_of(item));
}

/// Whether these are method calls, each the receiver of the one ahead of it.
pub open spec fn is_receiver_line(line: Seq<Node>) -> bool {
    &&& line.len() > 0
    &&& forall|i: int| 0 <= i < line.len() ==> #[trigger] line[i] is MethodCall
    &&& forall|i: int|
        #![trigger line[i]]
        0 < i < line.len() ==> line[i] == *line[i - 1]->MethodCall_0.receiver
}

/// A method is called in a chain if and only if it is the method of the expression itself, of its
/// receiver, of the receiver of that, and so on, whatever expression the chain starts from.
pub proof fn law_chain_calls_what_its_receivers_call(expr: Node, name: Seq<char>)
    ensures
        chain_calls(expr, name) <==> exists|line: Seq<Node>|
            #[trigger] is_receiver_line(line) && line[0] == expr
                && line.last()->MethodCall_0.method@ == name,
{
    if chain_calls(expr, name) {
        lemma_chain_has_line(expr, name);
    }
    if exists|line: Seq<Node>| #[trigger]
        is_receiver_line(line) && line[0] == expr && line.last()->MethodCall_0.method@ == name {
        let line = choose|line: Seq<Node>| #[trigger]
            is_receiver_line(line) && line[0] == expr && line.last()->MethodCall_0.method@ == name;
        lemma_line_in_chain(line, name);
    }
}

/// What is called in a chain is the method of one of its receivers.
proof fn lemma_chain_has_line(expr: Node, name: Seq<char>)
    requires
        chain_calls(expr, name),
    ensures
        exists|line: Seq<Node>| #[trigger]
            is_receiver_line(line) && line[0] == expr && line.last()->MethodCall_0.method@ == name,
    decreases expr,
{
    let m = expr->MethodCall_0;
    if m.method@ == name {
        let line = seq![expr];
        assert(is_receiver_line(line) && line[0] == expr);
    } else {
        lemma_chain_has_line(*m.receiver, name);
        let rest = choose|line: Seq<Node>| #[trigger]
            is_receiver_line(line) && line[0] == *m.receiver && line.last()->MethodCall_0.method@
                == name;
        let line = seq![expr] + rest;
        assert forall|i: int| 0 <= i < line.len() implies #[trigger] line[i] is MethodCall by {
            if i > 0 {
                assert(line[i] == rest[i - 1]);
            }
        }
        assert forall|i: int| #![trigger line[i]] 0 < i < line.len() implies line[i]
            == *line[i - 1]->MethodCall_0.receiver by {
            assert(line[i] == rest[i - 1]);
            if i > 1 {
                assert(line[i - 1] == rest[i - 2]);
            }
        }
        assert(line.last() == rest.last());
        assert(is_receiver_line(line) && line[0] == expr);
    }
}

/// The method of one of the receivers in a chain is called in it.
proof fn lemma_line_in_chain(line: Seq<Node>, name: Seq<char>)
    requires
        is_receiver_line(line),
        line.last()->MethodCall_0.method@ == name,
    ensures
        chain_calls(line[0], name),
    decreases line.len(),
{
    if line.len() > 1 {
        let rest = line.skip(1);
        assert forall|i: int| 0 <= i < rest.len() implies #[trigger] rest[i] is MethodCall by {
            assert(rest[i] == line[i + 1]);
        }
        assert forall|i: int| #![trigger rest[i]] 0 < i < rest.len() implies rest[i]
            == *rest[i - 1]->MethodCall_0.receiver by {
            assert(rest[i] == line[i + 1]);
            assert(rest[i - 1] == line[i]);
        }
        assert(rest.last() == line.last());
        lemma_line_in_chain(rest, name);
        assert(rest[0] == line[1]);
    }
    assert(line[0] is MethodCall);
}

/// One more call at the end of a chain calls its own method and all that was called before,
/// nothing else. What is not a method call calls nothing.
pub proof fn law_chain_grows_by_its_calls(expr: Node, name: Seq<char>)
    ensures
        expr matches Node::MethodCall(m) ==> chain_calls(expr, m.method@),
        expr matches Node::MethodCall(m) ==> (chain_calls(*m.receiver, name) ==> chain_calls(
            expr,
            name,
        )),
        expr matches Node::MethodCall(m) ==> (chain_calls(expr, name) && m.method@ != name
            ==> chain_calls(*m.receiver, name)),
        expr !is MethodCall ==> !chain_calls(expr, name),
{
}

/// An expression is `Symbol::new` if and only if it is a path of these two segments, with any
/// others or none ahead of them.
pub proof fn law_symbol_new_ends_the_path(expr: Node)
    ensures
        is_symbol_new(expr) <==> expr is Path && exists|lead: Seq<Seq<char>>|
            texts(expr->Path_0.segments@) == #[trigger] lead.push("Symbol"@).push("new"@),
{
    if expr is Path {
        let path = expr->Path_0.segments@;
        let n = path.len() as int;
        if is_symbol_new(expr) {
            assert(texts(path) =~= texts(path.take(n - 2)).push("Symbol"@).push(
                "new"@,
            ));
        }
        if exists|lead: Seq<Seq<char>>|
            texts(path) == #[trigger] lead.push("Symbol"@).push("new"@) {
            let lead = choose|lead: Seq<Seq<char>>|
                texts(path) == #[trigger] lead.push("Symbol"@).push("new"@);
            let whole = lead.push("Symbol"@).push("new"@);
            assert(path.len() == whole.len());
            assert(whole[n - 2] == "Symbol"@);
            assert(whole[n - 1] == "new"@);
            assert(texts(path)[n - 2] == path[n - 2]@);
            assert(texts(path)[n - 1] == path[n - 1]@);
        }
    }
}

} // verus!
