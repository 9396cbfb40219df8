//! Risky Soroban storage usage: temporary persistence and caller-derived `Symbol` keys.

use vstd::hash_set::StringHashSet;
use vstd::prelude::*;

use crate::finding::{finding_views, Check, Finding, FindingView, Severity};
use crate::syntax::{ExprCall, ExprMethodCall, ExprPath, File, ImplItemFn, Lit, Node};
use crate::text::{join3, text_is};
use crate::util::{
    chain_calls, contract_methods, contractimpl_functions_excluding_test, ends_with, is_symbol_new,
    is_symbol_new_path, law_chain_grows_by_its_calls, law_identifiers_and_ends,
    law_symbol_new_qualification, receiver_chain_contains_storage,
    receiver_chain_contains_temporary, texts,
};
use crate::walk::{
    file_roots, file_visits, gather, is_chain, law_walk_reaches_every_depth, lemma_add_contains,
    lemma_child_smaller, lemma_gather_contains, lemma_gather_next, lemma_gather_strings_together,
    lemma_gather_visits, lemma_visits_all_add, lemma_visits_all_next, lemma_visits_unfold,
    lemma_walk_reaches_every_depth, visits, visits_all, Visit,
};

verus! {

pub const CHECK_NAME: &'static str = "unsafe-storage-patterns";

pub const RULE_URL: &'static str =
    "https://github.com/SorobanGuard/Guard-CLI/blob/main/docs/checks.md#unsafe-storage-patterns-medium";

/// What the description of an access to storage says ahead of the name of the method.
pub const ACCESS_LEAD: &'static str = "Method `";

pub const READ_CONSEQUENCE: &'static str = "` calls `get_unchecked` on temporary storage. \
     If the entry has expired the call will panic at runtime.";

pub const READ_SUGGESTION: &'static str =
    "Use `env.storage().temporary().get(&key)` (returns `Option`) and handle the missing case.";

pub const WRITE_CONSEQUENCE: &'static str =
    "` writes to **temporary** storage (`env.storage().temporary()`). \
     Data expires with TTL—only use for scratch or contest-style flows, not \
     long-lived balances or ownership.";

pub const WRITE_SUGGESTION: &'static str =
    "Use `env.storage().persistent()` for long-lived state; reserve `temporary()` for scratch data only.";

/// What the description of a dynamic key says ahead of the name of the method.
pub const KEY_LEAD: &'static str = "`Symbol::new` in `";

pub const KEY_CONSEQUENCE: &'static str =
    "` uses a non-literal key string. Keys derived from \
     caller input are easier to guess or collide with; prefer `symbol_short!` / \
     fixed literals or a namespaced encoding you control.";

pub const KEY_SUGGESTION: &'static str =
    "Use `symbol_short!(\"literal\")` or a named constant for storage keys.";

/// The name of a constant or static, whether it stands in a module, in an `impl` or in a
/// function body.
pub open spec fn declared_name(n: Node) -> Option<Seq<char>> {
    match n {
        Node::Const(i) => Some(i.ident@),
        Node::Static(i) => Some(i.ident@),
        Node::ImplConst(i) => Some(i.ident@),
        _ => None,
    }
}

/// The names of the constants and statics among the visits of a walk.
pub open spec fn names_in(visited: Seq<Visit>) -> Set<Seq<char>> {
    Set::new(
        |name: Seq<char>|
            exists|i: int|
                0 <= i < visited.len() && declared_name((#[trigger] visited[i]).node) == Some(name),
    )
}

/// The names of the constants and statics declared anywhere in a file.
pub open spec fn declared_names(file: File) -> Set<Seq<char>> {
    names_in(file_visits(file))
}

/// Whether a method changes an entry of the storage that it is called on.
pub open spec fn is_mutator(method: Seq<char>) -> bool {
    ||| method == "set"@
    ||| method == "remove"@
    ||| method == "extend_ttl"@
    ||| method == "bump"@
    ||| method == "append"@
}

/// Whether a call changes an entry of some storage.
pub open spec fn is_storage_mutation(m: ExprMethodCall) -> bool {
    is_mutator(m.method@) && chain_calls(*m.receiver, "storage"@)
}

/// Whether a call changes an entry of the temporary storage.
pub open spec fn is_temporary_mutation(m: ExprMethodCall) -> bool {
    is_storage_mutation(m) && chain_calls(*m.receiver, "temporary"@)
}

/// Whether a call reads an entry of the temporary storage without checking that it is there.
pub open spec fn is_temporary_unchecked_read(m: ExprMethodCall) -> bool {
    &&& m.method@ == "get_unchecked"@
    &&& chain_calls(*m.receiver, "storage"@)
    &&& chain_calls(*m.receiver, "temporary"@)
}

/// Whether the second argument of a call is a string literal, or a path whose last segment is
/// the name of a constant or static.
pub open spec fn has_stable_key(c: ExprCall, known_consts: Set<Seq<char>>) -> bool {
    c.args@.len() >= 2 && match c.args@[1] {
        Node::Lit(l) => l.lit is Str,
        Node::Path(p) => p.segments@.len() > 0 && known_consts.contains(p.segments@.last()@),
        _ => false,
    }
}

/// Whether a call makes a symbol out of something else than a fixed string.
pub open spec fn is_dynamic_symbol(c: ExprCall, known_consts: Set<Seq<char>>) -> bool {
    is_symbol_new(*c.func) && c.args@.len() >= 2 && !has_stable_key(c, known_consts)
}

/// A finding of this check.
pub open spec fn storage_finding(
    fn_name: Seq<char>,
    line: nat,
    lead: Seq<char>,
    consequence: Seq<char>,
    suggestion: Seq<char>,
) -> FindingView {
    FindingView {
        check_name: CHECK_NAME@,
        severity: Severity::Medium,
        file_path: Seq::empty(),
        line,
        function_name: fn_name,
        description: lead + fn_name + consequence,
        rule_url: Some(RULE_URL@),
        suggestion: Some(suggestion),
    }
}

/// The finding for an unchecked read of temporary storage.
pub open spec fn read_finding(fn_name: Seq<char>, m: ExprMethodCall) -> FindingView {
    storage_finding(
        fn_name,
        m.start.line as nat,
        ACCESS_LEAD@,
        READ_CONSEQUENCE@,
        READ_SUGGESTION@,
    )
}

/// The finding for a change of temporary storage.
pub open spec fn write_finding(fn_name: Seq<char>, m: ExprMethodCall) -> FindingView {
    storage_finding(
        fn_name,
        m.start.line as nat,
        ACCESS_LEAD@,
        WRITE_CONSEQUENCE@,
        WRITE_SUGGESTION@,
    )
}

/// The finding for a symbol made out of something else than a fixed string.
pub open spec fn key_finding(fn_name: Seq<char>, c: ExprCall) -> FindingView {
    storage_finding(fn_name, c.start.line as nat, KEY_LEAD@, KEY_CONSEQUENCE@, KEY_SUGGESTION@)
}

/// The findings at a node in the body of a contract method.
pub open spec fn findings_at(
    n: Node,
    fn_name: Seq<char>,
    known_consts: Set<Seq<char>>,
) -> Seq<FindingView> {
    match n {
        Node::MethodCall(m) => {
            let read = if is_temporary_unchecked_read(m) {
                seq![read_finding(fn_name, m)]
            } else {
                Seq::empty()
            };
            let write = if is_temporary_mutation(m) {
                seq![write_finding(fn_name, m)]
            } else {
                Seq::empty()
            };
            read + write
        },
        Node::Call(c) => if is_dynamic_symbol(c, known_consts) {
            seq![key_finding(fn_name, c)]
        } else {
            Seq::empty()
        },
        _ => Seq::empty(),
    }
}

/// [`findings_at`] as a rule for the walk.
pub open spec fn storage_rule(
    fn_name: Seq<char>,
    known_consts: Set<Seq<char>>,
) -> spec_fn(Visit) -> Seq<FindingView> {
    |v: Visit| findings_at(v.node, fn_name, known_consts)
}

/// The findings in the body of a contract method.
pub open spec fn method_findings(
    method: ImplItemFn,
    known_consts: Set<Seq<char>>,
) -> Seq<FindingView> {
    gather(visits_all(method.block@, Seq::empty()), storage_rule(method.ident@, known_consts))
}

/// The findings in the bodies of some contract methods, in order.
pub open spec fn methods_findings(
    methods: Seq<ImplItemFn>,
    known_consts: Set<Seq<char>>,
) -> Seq<FindingView>
    decreases methods.len(),
{
    if methods.len() == 0 {
        Seq::empty()
    } else {
        methods_findings(methods.drop_last(), known_consts) + method_findings(
            methods.last(),
            known_consts,
        )
    }
}

/// Detects (1) unchecked reads of and writes to **temporary** storage (TTL-bound; easy to misuse
/// for "real" state) and (2) `Symbol::new` keys built from non-literal strings (enumerable /
/// collision-prone keys).
pub struct UnsafeStoragePatternsCheck;

/// Whether a call changes an entry of some storage.
pub fn is_storage_mutation_call(m: &ExprMethodCall) -> (r: bool)
    ensures
        r == is_storage_mutation(*m),
{
    if !(text_is(&m.method, "set") || text_is(&m.method, "remove") || text_is(
        &m.method,
        "extend_ttl",
    ) || text_is(&m.method, "bump") || text_is(&m.method, "append")) {
        return false;
    }
    receiver_chain_contains_storage(&m.receiver)
}

/// Whether a call changes an entry of the temporary storage.
pub fn is_temporary_storage_mutation(m: &ExprMethodCall) -> (r: bool)
    ensures
        r == is_temporary_mutation(*m),
{
    is_storage_mutation_call(m) && receiver_chain_contains_temporary(&m.receiver)
}

/// Whether a call reads an entry of the temporary storage without checking that it is there.
pub fn is_temporary_get_unchecked(m: &ExprMethodCall) -> (r: bool)
    ensures
        r == is_temporary_unchecked_read(*m),
{
    text_is(&m.method, "get_unchecked") && receiver_chain_contains_storage(&m.receiver)
        && receiver_chain_contains_temporary(&m.receiver)
}

/// Whether the second argument of a call is a fixed string: a string literal, or a path to one
/// of `known_consts`, the names of the constants and statics of the file. It is the declaration
/// that counts, not how the name is written: a constant with a lowercase name is fixed, and an
/// upper-cased parameter is not.
pub fn symbol_new_second_arg_is_string_lit(call: &ExprCall, known_consts: &StringHashSet) -> (r:
    bool)
    ensures
        r == has_stable_key(*call, known_consts@),
{
    if call.args.len() < 2 {
        return false;
    }
    match &call.args[1] {
        Node::Lit(l) => match &l.lit {
            Lit::Str(_) => true,
            Lit::Other => false,
        },
        Node::Path(p) => {
            let n: usize = p.segments.len();
            n > 0 && known_consts.contains(p.segments[n - 1].as_str())
        },
        _ => false,
    }
}

/// The names in two stretches of a walk are those in either.
proof fn lemma_names_in_add(a: Seq<Visit>, b: Seq<Visit>)
    ensures
        names_in(a + b) == names_in(a).union(names_in(b)),
{
    assert forall|name: Seq<char>| names_in(a + b).contains(name) == names_in(a).union(
        names_in(b),
    ).contains(name) by {
        if names_in(a).contains(name) {
            let i = choose|i: int|
                0 <= i < a.len() && declared_name((#[trigger] a[i]).node) == Some(name);
            assert((a + b)[i] == a[i]);
        }
        if names_in(b).contains(name) {
            let i = choose|i: int|
                0 <= i < b.len() && declared_name((#[trigger] b[i]).node) == Some(name);
            assert((a + b)[a.len() + i] == b[i]);
        }
        if names_in(a + b).contains(name) {
            let i = choose|i: int|
                0 <= i < (a + b).len() && declared_name((#[trigger] (a + b)[i]).node) == Some(name);
            if i < a.len() {
                assert((a + b)[i] == a[i]);
            } else {
                assert((a + b)[i] == b[i - a.len()]);
            }
        }
    }
}

/// The names in the walk over a node: that of the node itself, and those inside it.
proof fn lemma_names_in_visits(n: Node, within: Seq<Node>)
    ensures
        names_in(visits(n, within)) == match declared_name(n) {
            Some(name) => names_in(visits_all(n.spec_children(), within.push(n))).insert(name),
            None => names_in(visits_all(n.spec_children(), within.push(n))),
        },
{
    let head = seq![Visit { node: n, within }];
    let inside = visits_all(n.spec_children(), within.push(n));
    lemma_visits_unfold(n, within);
    lemma_names_in_add(head, inside);
    assert(head[0].node == n);
    assert(names_in(visits(n, within)) =~= match declared_name(n) {
        Some(name) => names_in(inside).insert(name),
        None => names_in(inside),
    });
}

/// Collects the names of constants and statics.
struct ConstVisitor {
    names: StringHashSet,
}

impl ConstVisitor {
    /// Visits a node that stands within `within`.
    fn visit(&mut self, node: &Node, Ghost(within): Ghost<Seq<Node>>)
        ensures
            final(self).names@ == old(self).names@.union(names_in(visits(*node, within))),
        decreases node,
    {
        match node {
            Node::Const(i) => {
                self.names.insert(i.ident.clone());
            },
            Node::Static(i) => {
                self.names.insert(i.ident.clone());
            },
            Node::ImplConst(i) => {
                self.names.insert(i.ident.clone());
            },
            _ => {},
        }
        let ghost before = self.names@;
        let children = node.children();
        let ghost nodes = node.spec_children();
        let ghost inside = within.push(*node);
        assert(names_in(visits_all(nodes.take(0), inside)) =~= Set::<Seq<char>>::empty());
        for i in 0..children.len()
            invariant
                children@.unref() == nodes,
                nodes == node.spec_children(),
                self.names@ == before.union(names_in(visits_all(nodes.take(i as int), inside))),
        {
            proof {
                assert(*children@[i as int] == children@.unref()[i as int]);
                lemma_child_smaller(*node, i as int);
                lemma_visits_all_next(nodes, inside, i as int);
                lemma_names_in_add(
                    visits_all(nodes.take(i as int), inside),
                    visits(nodes[i as int], inside),
                );
            }
            self.visit(children[i], Ghost(inside));
        }
        proof {
            assert(nodes.take(nodes.len() as int) == nodes);
            lemma_names_in_visits(*node, within);
        }
    }

    /// Visits nodes that stand side by side outside of any other node.
    fn visit_roots(&mut self, nodes: &Vec<Node>)
        ensures
            final(self).names@ == old(self).names@.union(
                names_in(visits_all(nodes@, Seq::empty())),
            ),
    {
        let ghost none = Seq::<Node>::empty();
        assert(names_in(visits_all(nodes@.take(0), none)) =~= Set::<Seq<char>>::empty());
        for i in 0..nodes.len()
            invariant
                none == Seq::<Node>::empty(),
                self.names@ == old(self).names@.union(
                    names_in(visits_all(nodes@.take(i as int), none)),
                ),
        {
            proof {
                lemma_visits_all_next(nodes@, none, i as int);
                lemma_names_in_add(
                    visits_all(nodes@.take(i as int), none),
                    visits(nodes@[i as int], none),
                );
            }
            self.visit(&nodes[i], Ghost(none));
        }
        assert(nodes@.take(nodes@.len() as int) == nodes@);
    }
}

/// Names of every constant and static declared anywhere in the file: at module level, inside an
/// `impl` or local to a function body. Nesting depth does not matter.
pub fn collect_const_and_static_names(file: &File) -> (r: StringHashSet)
    ensures
        r@ == declared_names(*file),
{
    let mut visitor = ConstVisitor { names: StringHashSet::new() };
    visitor.visit_roots(&file.header);
    visitor.visit_roots(&file.items);
    proof {
        let none = Seq::<Node>::empty();
        lemma_visits_all_add(file.header@, file.items@, none);
        lemma_names_in_add(visits_all(file.header@, none), visits_all(file.items@, none));
        assert(visitor.names@ =~= declared_names(*file));
    }
    visitor.names
}

/// A finding of this check.
fn report(fn_name: &str, line: usize, lead: &str, consequence: &str, suggestion: &str) -> (r:
    Finding)
    ensures
        r@ == storage_finding(fn_name@, line as nat, lead@, consequence@, suggestion@),
{
    Finding {
        check_name: CHECK_NAME.to_owned(),
        severity: Severity::Medium,
        file_path: String::new(),
        line,
        function_name: fn_name.to_owned(),
        description: join3(lead, fn_name, consequence),
        rule_url: Some(RULE_URL.to_owned()),
        suggestion: Some(suggestion.to_owned()),
    }
}

/// Collects the findings in the body of a contract method.
struct StorageVisitor<'a> {
    fn_name: &'a String,
    known_consts: &'a StringHashSet,
    out: Vec<Finding>,
}

impl<'a> StorageVisitor<'a> {
    /// The rule that the visitor follows.
    spec fn rule(self) -> spec_fn(Visit) -> Seq<FindingView> {
        storage_rule(self.fn_name@, self.known_consts@)
    }

    /// Reports a finding.
    fn push(&mut self, finding: Finding)
        ensures
            final(self).fn_name == old(self).fn_name,
            final(self).known_consts == old(self).known_consts,
            finding_views(final(self).out@) == finding_views(old(self).out@) + seq![finding@],
    {
        self.out.push(finding);
        assert(finding_views(self.out@) == finding_views(old(self).out@) + seq![finding@]);
    }

    /// Reports a method call that reads temporary storage unchecked, or writes to it.
    fn visit_expr_method_call(&mut self, i: &ExprMethodCall)
        ensures
            final(self).fn_name == old(self).fn_name,
            final(self).known_consts == old(self).known_consts,
            finding_views(final(self).out@) == finding_views(old(self).out@) + findings_at(
                Node::MethodCall(*i),
                old(self).fn_name@,
                old(self).known_consts@,
            ),
    {
        if is_temporary_get_unchecked(i) {
            let finding = report(
                self.fn_name.as_str(),
                i.start.line,
                ACCESS_LEAD,
                READ_CONSEQUENCE,
                READ_SUGGESTION,
            );
            self.push(finding);
        }
        if is_temporary_storage_mutation(i) {
            let finding = report(
                self.fn_name.as_str(),
                i.start.line,
                ACCESS_LEAD,
                WRITE_CONSEQUENCE,
                WRITE_SUGGESTION,
            );
            self.push(finding);
        }
    }

    /// Reports a call that makes a symbol out of something else than a fixed string.
    fn visit_expr_call(&mut self, i: &ExprCall)
        ensures
            final(self).fn_name == old(self).fn_name,
            final(self).known_consts == old(self).known_consts,
            finding_views(final(self).out@) == finding_views(old(self).out@) + findings_at(
                Node::Call(*i),
                old(self).fn_name@,
                old(self).known_consts@,
            ),
    {
        if is_symbol_new_path(&i.func) && i.args.len() >= 2
            && !symbol_new_second_arg_is_string_lit(i, self.known_consts) {
            let finding = report(
                self.fn_name.as_str(),
                i.start.line,
                KEY_LEAD,
                KEY_CONSEQUENCE,
                KEY_SUGGESTION,
            );
            self.push(finding);
        }
    }

    /// Visits a node that stands within `within`.
    fn visit(&mut self, node: &Node, Ghost(within): Ghost<Seq<Node>>)
        ensures
            final(self).fn_name == old(self).fn_name,
            final(self).known_consts == old(self).known_consts,
            finding_views(final(self).out@) == finding_views(old(self).out@) + gather(
                visits(*node, within),
                old(self).rule(),
            ),
        decreases node,
    {
        let ghost rule = self.rule();
        proof {
            lemma_gather_visits(*node, within, rule);
        }
        match node {
            Node::MethodCall(m) => self.visit_expr_method_call(m),
            Node::Call(c) => self.visit_expr_call(c),
            _ => {},
        }
        let ghost before = finding_views(self.out@);
        let children = node.children();
        let ghost nodes = node.spec_children();
        let ghost inside = within.push(*node);
        for i in 0..children.len()
            invariant
                children@.unref() == nodes,
                nodes == node.spec_children(),
                self.fn_name == old(self).fn_name,
                self.known_consts == old(self).known_consts,
                rule == old(self).rule(),
                finding_views(self.out@) == before + gather(
                    visits_all(nodes.take(i as int), inside),
                    rule,
                ),
        {
            proof {
                assert(*children@[i as int] == children@.unref()[i as int]);
                lemma_child_smaller(*node, i as int);
                lemma_gather_next(nodes, inside, i as int, rule);
            }
            self.visit(children[i], Ghost(inside));
        }
        assert(nodes.take(nodes.len() as int) == nodes);
    }

    /// Visits the body of the method.
    fn visit_block(&mut self, block: &Vec<Node>)
        ensures
            final(self).fn_name == old(self).fn_name,
            final(self).known_consts == old(self).known_consts,
            finding_views(final(self).out@) == finding_views(old(self).out@) + gather(
                visits_all(block@, Seq::empty()),
                old(self).rule(),
            ),
    {
        let ghost none = Seq::<Node>::empty();
        let ghost rule = self.rule();
        for i in 0..block.len()
            invariant
                none == Seq::<Node>::empty(),
                self.fn_name == old(self).fn_name,
                self.known_consts == old(self).known_consts,
                rule == old(self).rule(),
                finding_views(self.out@) == finding_views(old(self).out@) + gather(
                    visits_all(block@.take(i as int), none),
                    rule,
                ),
        {
            proof {
                lemma_gather_next(block@, none, i as int, rule);
            }
            self.visit(&block[i], Ghost(none));
        }
        assert(block@.take(block@.len() as int) == block@);
    }
}

impl Check for UnsafeStoragePatternsCheck {
    open spec fn spec_name(&self) -> Seq<char> {
        CHECK_NAME@
    }

    open spec fn spec_findings(&self, file: File) -> Seq<FindingView> {
        methods_findings(contract_methods(file.items@), declared_names(file))
    }

    fn name(&self) -> (r: &str) {
        CHECK_NAME
    }

    fn run(&self, file: &File, _source: &str) -> (r: Vec<Finding>) {
        let known_consts = collect_const_and_static_names(file);
        let methods = contractimpl_functions_excluding_test(file);
        let ghost all = contract_methods(file.items@);
        let mut out: Vec<Finding> = Vec::new();
        for i in 0..methods.len()
            invariant
                methods@.unref() == all,
                finding_views(out@) == methods_findings(all.take(i as int), known_consts@),
        {
            proof {
                assert(*methods@[i as int] == all[i as int]);
                assert(all.take(i + 1).drop_last() == all.take(i as int));
            }
            let method = methods[i];
            let mut visitor = StorageVisitor {
                fn_name: &method.ident,
                known_consts: &known_consts,
                out,
            };
            visitor.visit_block(&method.block);
            out = visitor.out;
        }
        assert(all.take(all.len() as int) == all);
        out
    }
}

/// Whether the body of a contract method holds, at whatever depth, a node at which `f` is found.
pub open spec fn found_in_method(
    file: File,
    method: ImplItemFn,
    chain: Seq<Node>,
    f: FindingView,
) -> bool {
    &&& contract_methods(file.items@).contains(method)
    &&& is_chain(method.block@, chain)
    &&& findings_at(chain.last(), method.ident@, declared_names(file)).contains(f)
}

/// A file has a finding if and only if it is found at a node that stands, at whatever depth, in
/// the body of one of its contract methods.
pub proof fn law_findings_are_those_in_contract_methods(file: File, f: FindingView)
    ensures
        UnsafeStoragePatternsCheck.spec_findings(file).contains(f) <==> exists|
            method: ImplItemFn,
            chain: Seq<Node>,
        |
            #[trigger] found_in_method(file, method, chain, f),
{
    let methods = contract_methods(file.items@);
    let consts = declared_names(file);
    lemma_methods_findings_contains(methods, consts, f);
    if UnsafeStoragePatternsCheck.spec_findings(file).contains(f) {
        let method = choose|method: ImplItemFn| #[trigger]
            methods.contains(method) && method_findings(method, consts).contains(f);
        lemma_method_findings_contains(method, consts, f);
        let chain = choose|chain: Seq<Node>| #[trigger]
            is_chain(method.block@, chain) && findings_at(
                chain.last(),
                method.ident@,
                consts,
            ).contains(f);
        assert(found_in_method(file, method, chain, f));
    }
    if exists|method: ImplItemFn, chain: Seq<Node>| #[trigger]
        found_in_method(file, method, chain, f) {
        let (method, chain) = choose|method: ImplItemFn, chain: Seq<Node>| #[trigger]
            found_in_method(file, method, chain, f);
        lemma_method_findings_contains(method, consts, f);
        assert(methods.contains(method));
    }
}

/// The findings in some methods are those in any of them.
proof fn lemma_methods_findings_contains(
    methods: Seq<ImplItemFn>,
    consts: Set<Seq<char>>,
    f: FindingView,
)
    ensures
        methods_findings(methods, consts).contains(f) <==> exists|method: ImplItemFn| #[trigger]
            methods.contains(method) && method_findings(method, consts).contains(f),
    decreases methods.len(),
{
    if methods.len() > 0 {
        let rest = methods.drop_last();
        let last = methods.last();
        lemma_methods_findings_contains(rest, consts, f);
        lemma_add_contains(methods_findings(rest, consts), method_findings(last, consts), f);
        assert(methods[methods.len() - 1] == last);
        assert(methods.contains(last));
        if methods_findings(rest, consts).contains(f) {
            let method = choose|method: ImplItemFn| #[trigger]
                rest.contains(method) && method_findings(method, consts).contains(f);
            let k = choose|k: int| 0 <= k < rest.len() && rest[k] == method;
            assert(methods[k] == method);
            assert(methods.contains(method));
        }
        if exists|method: ImplItemFn| #[trigger]
            methods.contains(method) && method_findings(method, consts).contains(f) {
            let method = choose|method: ImplItemFn| #[trigger]
                methods.contains(method) && method_findings(method, consts).contains(f);
            let k = choose|k: int| 0 <= k < methods.len() && methods[k] == method;
            if k < rest.len() {
                assert(rest[k] == method);
                assert(rest.contains(method));
            }
        }
    }
}

/// The findings in a method are those at any node in its body, at whatever depth.
proof fn lemma_method_findings_contains(
    method: ImplItemFn,
    consts: Set<Seq<char>>,
    f: FindingView,
)
    ensures
        method_findings(method, consts).contains(f) <==> exists|chain: Seq<Node>| #[trigger]
            is_chain(method.block@, chain) && findings_at(
                chain.last(),
                method.ident@,
                consts,
            ).contains(f),
{
    let rule = storage_rule(method.ident@, consts);
    let none = Seq::<Node>::empty();
    let walk = visits_all(method.block@, none);
    lemma_gather_contains(walk, rule, f);
    if method_findings(method, consts).contains(f) {
        let k = choose|k: int| 0 <= k < walk.len() && rule(#[trigger] walk[k]).contains(f);
        let v = walk[k];
        assert(walk.contains(v));
        lemma_walk_reaches_every_depth(method.block@, v);
        let chain = v.within.push(v.node);
        assert(is_chain(method.block@, chain));
        assert(chain.last() == v.node);
    }
    if exists|chain: Seq<Node>| #[trigger]
        is_chain(method.block@, chain) && findings_at(
            chain.last(),
            method.ident@,
            consts,
        ).contains(f) {
        let chain = choose|chain: Seq<Node>| #[trigger]
            is_chain(method.block@, chain) && findings_at(
                chain.last(),
                method.ident@,
                consts,
            ).contains(f);
        let v = Visit { node: chain.last(), within: chain.drop_last() };
        assert(v.within.push(v.node) == chain);
        lemma_walk_reaches_every_depth(method.block@, v);
        let k = choose|k: int| 0 <= k < walk.len() && walk[k] == v;
        assert(rule(walk[k]).contains(f));
    }
}

/// A file without `#[contractimpl]` methods has no findings.
pub proof fn law_no_contract_methods_no_findings(file: File)
    requires
        contract_methods(file.items@).len() == 0,
    ensures
        UnsafeStoragePatternsCheck.spec_findings(file).len() == 0,
{
}

/// A method call is not reported unless `temporary` is called in the chain that it ends: other
/// storage is safe.
pub proof fn law_only_temporary_storage_is_reported(
    m: ExprMethodCall,
    fn_name: Seq<char>,
    consts: Set<Seq<char>>,
)
    requires
        !chain_calls(*m.receiver, "temporary"@),
    ensures
        findings_at(Node::MethodCall(m), fn_name, consts).len() == 0,
{
}

/// On temporary storage, an unchecked read and each call that changes an entry are reported by
/// exactly one finding, and no other call is reported.
pub proof fn law_temporary_storage_is_reported_once(
    m: ExprMethodCall,
    fn_name: Seq<char>,
    consts: Set<Seq<char>>,
)
    requires
        chain_calls(*m.receiver, "storage"@),
        chain_calls(*m.receiver, "temporary"@),
    ensures
        m.method@ == "get_unchecked"@ ==> findings_at(Node::MethodCall(m), fn_name, consts) == seq![
            read_finding(fn_name, m),
        ],
        is_mutator(m.method@) ==> findings_at(Node::MethodCall(m), fn_name, consts) == seq![
            write_finding(fn_name, m),
        ],
        m.method@ != "get_unchecked"@ && !is_mutator(m.method@) ==> findings_at(
            Node::MethodCall(m),
            fn_name,
            consts,
        ).len() == 0,
{
    reveal_strlit("get_unchecked");
    reveal_strlit("set");
    reveal_strlit("remove");
    reveal_strlit("extend_ttl");
    reveal_strlit("bump");
    reveal_strlit("append");
    assert("get_unchecked"@.len() == 13);
    assert("set"@.len() == 3);
    assert("remove"@.len() == 6);
    assert("extend_ttl"@.len() == 10);
    assert("bump"@.len() == 4);
    assert("append"@.len() == 6);
}

/// A key that is a string literal is never reported.
pub proof fn law_literal_key_is_not_reported(
    c: ExprCall,
    fn_name: Seq<char>,
    consts: Set<Seq<char>>,
)
    requires
        c.args@.len() >= 2,
        c.args@[1] matches Node::Lit(l) && l.lit is Str,
    ensures
        findings_at(Node::Call(c), fn_name, consts).len() == 0,
{
}

/// A `Symbol::new` key that is a path is reported if and only if no constant or static of that
/// name is declared in the file, at whatever depth. How the name is written does not matter.
pub proof fn law_named_key_is_reported_unless_declared(file: File, c: ExprCall, fn_name: Seq<char>)
    requires
        is_symbol_new(*c.func),
        c.args@.len() >= 2,
        c.args@[1] matches Node::Path(p) && p.segments@.len() > 0,
    ensures
        findings_at(Node::Call(c), fn_name, declared_names(file)) == if exists|chain: Seq<Node>|
            #[trigger] is_chain(file_roots(file), chain) && declared_name(chain.last()) == Some(
                c.args@[1]->Path_0.segments@.last()@,
            ) {
            Seq::empty()
        } else {
            seq![key_finding(fn_name, c)]
        },
{
    let name = c.args@[1]->Path_0.segments@.last()@;
    let walk = file_visits(file);
    if declared_names(file).contains(name) {
        let k = choose|k: int|
            0 <= k < walk.len() && declared_name((#[trigger] walk[k]).node) == Some(name);
        let v = walk[k];
        assert(walk.contains(v));
        law_walk_reaches_every_depth(file, v);
        let chain = v.within.push(v.node);
        assert(is_chain(file_roots(file), chain));
        assert(chain.last() == v.node);
    }
    if exists|chain: Seq<Node>| #[trigger]
        is_chain(file_roots(file), chain) && declared_name(chain.last()) == Some(name) {
        let chain = choose|chain: Seq<Node>| #[trigger]
            is_chain(file_roots(file), chain) && declared_name(chain.last()) == Some(name);
        let v = Visit { node: chain.last(), within: chain.drop_last() };
        assert(v.within.push(v.node) == chain);
        law_walk_reaches_every_depth(file, v);
        let k = choose|k: int| 0 <= k < walk.len() && walk[k] == v;
        assert(declared_name(walk[k].node) == Some(name));
        assert(declared_names(file).contains(name));
    }
}

/// How `Symbol::new` is qualified does not matter: calls whose paths end in the same two segments
/// are reported alike.
pub proof fn law_qualified_calls_are_reported_alike(
    c: ExprCall,
    d: ExprCall,
    p: ExprPath,
    q: ExprPath,
    fn_name: Seq<char>,
    consts: Set<Seq<char>>,
)
    requires
        *c.func == Node::Path(p),
        *d.func == Node::Path(q),
        p.segments@.len() >= 2,
        q.segments@.len() >= 2,
        p.segments@.last()@ == q.segments@.last()@,
        p.segments@[p.segments@.len() - 2]@ == q.segments@[q.segments@.len() - 2]@,
        c.args@ == d.args@,
        c.start == d.start,
    ensures
        findings_at(Node::Call(c), fn_name, consts) == findings_at(Node::Call(d), fn_name, consts),
{
    law_symbol_new_qualification(p, q);
}

/// The names of the constants and statics declared in the header of a file: in its attributes,
/// that is, and not in its items.
pub open spec fn header_names(file: File) -> Set<Seq<char>> {
    names_in(visits_all(file.header@, Seq::empty()))
}

/// The names declared in a file are those declared in its first items and those declared in the
/// others, so that adding items takes no name away.
pub proof fn law_names_of_items_add_up(whole: File, first: File, rest: File)
    requires
        header_names(whole) == header_names(first).union(header_names(rest)),
        whole.items@ == first.items@ + rest.items@,
    ensures
        declared_names(whole) == declared_names(first).union(declared_names(rest)),
        declared_names(first).subset_of(declared_names(whole)),
        declared_names(rest).subset_of(declared_names(whole)),
{
    let none = Seq::<Node>::empty();
    lemma_names_in_roots(whole);
    lemma_names_in_roots(first);
    lemma_names_in_roots(rest);
    lemma_visits_all_add(first.items@, rest.items@, none);
    lemma_names_in_add(visits_all(first.items@, none), visits_all(rest.items@, none));
    assert(declared_names(whole) =~= declared_names(first).union(declared_names(rest)));
}

/// The names in a file are those in its header and those in its items.
proof fn lemma_names_in_roots(file: File)
    ensures
        declared_names(file) == header_names(file).union(
            names_in(visits_all(file.items@, Seq::empty())),
        ),
{
    let none = Seq::<Node>::empty();
    lemma_visits_all_add(file.header@, file.items@, none);
    lemma_names_in_add(visits_all(file.header@, none), visits_all(file.items@, none));
}

/// What the walk over the body of a method, or over any part of it, adds to the findings before
/// it: those stay in front, and each one added is of this check, of medium severity, names the
/// method, leaves the path of the file to the caller, and says how to mend the problem.
pub proof fn law_walk_adds_findings_of_the_method(
    before: Seq<FindingView>,
    nodes: Seq<Node>,
    within: Seq<Node>,
    fn_name: Seq<char>,
    consts: Set<Seq<char>>,
)
    ensures
        before.is_prefix_of(
            before + gather(visits_all(nodes, within), storage_rule(fn_name, consts)),
        ),
        forall|f: FindingView| #[trigger]
            gather(visits_all(nodes, within), storage_rule(fn_name, consts)).contains(f) ==> {
                &&& f.check_name == UnsafeStoragePatternsCheck.spec_name()
                &&& f.severity == Severity::Medium
                &&& f.file_path.len() == 0
                &&& f.function_name == fn_name
                &&& f.rule_url is Some
                &&& f.suggestion is Some
            },
{
    let walk = visits_all(nodes, within);
    let rule = storage_rule(fn_name, consts);
    assert forall|f: FindingView| #[trigger] gather(walk, rule).contains(f) implies {
        &&& f.check_name == UnsafeStoragePatternsCheck.spec_name()
        &&& f.severity == Severity::Medium
        &&& f.file_path.len() == 0
        &&& f.function_name == fn_name
        &&& f.rule_url is Some
        &&& f.suggestion is Some
    } by {
        lemma_gather_contains(walk, rule, f);
        let i = choose|i: int| 0 <= i < walk.len() && rule(#[trigger] walk[i]).contains(f);
        assert(findings_at(walk[i].node, fn_name, consts).contains(f));
    }
}

/// Every finding is of this check, of medium severity, names the method that it is in, leaves the
/// path of the file to the caller, and says how to mend the problem.
pub proof fn law_shape_of_findings(file: File, f: FindingView)
    requires
        UnsafeStoragePatternsCheck.spec_findings(file).contains(f),
    ensures
        f.check_name == UnsafeStoragePatternsCheck.spec_name(),
        f.severity == Severity::Medium,
        f.file_path.len() == 0,
        exists|method: ImplItemFn| #[trigger]
            contract_methods(file.items@).contains(method) && f.function_name == method.ident@,
        f.rule_url is Some,
        f.suggestion is Some,
{
    law_findings_are_those_in_contract_methods(file, f);
    let (method, chain) = choose|method: ImplItemFn, chain: Seq<Node>| #[trigger]
        found_in_method(file, method, chain, f);
    assert(contract_methods(file.items@).contains(method));
}

/// Whether a chain of nodes from the outermost ones of a file leads to a constant or static of a
/// name: at module level, in an `impl`, in a function body, wherever it stands.
pub open spec fn leads_to_declaration(file: File, chain: Seq<Node>, name: Seq<char>) -> bool {
    &&& is_chain(file_roots(file), chain)
    &&& {
        ||| chain.last() matches Node::Const(i) && i.ident@ == name
        ||| chain.last() matches Node::Static(i) && i.ident@ == name
        ||| chain.last() matches Node::ImplConst(i) && i.ident@ == name
    }
}

/// A name is declared in a file if and only if some constant or static has it, at whatever depth.
pub proof fn law_names_are_declared_at_any_depth(file: File, name: Seq<char>)
    ensures
        declared_names(file).contains(name) <==> exists|chain: Seq<Node>|
            #[trigger] leads_to_declaration(file, chain, name),
{
    let walk = file_visits(file);
    if declared_names(file).contains(name) {
        let k = choose|k: int|
            0 <= k < walk.len() && declared_name((#[trigger] walk[k]).node) == Some(name);
        let v = walk[k];
        assert(walk.contains(v));
        law_walk_reaches_every_depth(file, v);
        let chain = v.within.push(v.node);
        assert(chain.last() == v.node);
        assert(leads_to_declaration(file, chain, name));
    }
    if exists|chain: Seq<Node>| #[trigger] leads_to_declaration(file, chain, name) {
        let chain = choose|chain: Seq<Node>| #[trigger] leads_to_declaration(file, chain, name);
        let v = Visit { node: chain.last(), within: chain.drop_last() };
        assert(v.within.push(v.node) == chain);
        law_walk_reaches_every_depth(file, v);
        let k = choose|k: int| 0 <= k < walk.len() && walk[k] == v;
        assert(declared_name(walk[k].node) == Some(name));
    }
}

/// The findings name the check, the method and the line of the expression, and say in full what
/// is wrong and how to mend it.
pub proof fn law_what_findings_say(fn_name: Seq<char>, m: ExprMethodCall, c: ExprCall)
    ensures
        UnsafeStoragePatternsCheck.spec_name() == "unsafe-storage-patterns"@,
        read_finding(fn_name, m) == (FindingView {
            check_name: "unsafe-storage-patterns"@,
            severity: Severity::Medium,
            file_path: ""@,
            line: m.start.line as nat,
            function_name: fn_name,
            description: "Method `"@ + fn_name
                + "` calls `get_unchecked` on temporary storage. If the entry has expired the call will panic at runtime."@,
            rule_url: Some(
                "https://github.com/SorobanGuard/Guard-CLI/blob/main/docs/checks.md#unsafe-storage-patterns-medium"@,
            ),
            suggestion: Some(
                "Use `env.storage().temporary().get(&key)` (returns `Option`) and handle the missing case."@,
            ),
        }),
        write_finding(fn_name, m) == (FindingView {
            check_name: "unsafe-storage-patterns"@,
            severity: Severity::Medium,
            file_path: ""@,
            line: m.start.line as nat,
            function_name: fn_name,
            description: "Method `"@ + fn_name
                + "` writes to **temporary** storage (`env.storage().temporary()`). Data expires with TTL—only use for scratch or contest-style flows, not long-lived balances or ownership."@,
            rule_url: Some(
                "https://github.com/SorobanGuard/Guard-CLI/blob/main/docs/checks.md#unsafe-storage-patterns-medium"@,
            ),
            suggestion: Some(
                "Use `env.storage().persistent()` for long-lived state; reserve `temporary()` for scratch data only."@,
            ),
        }),
        key_finding(fn_name, c) == (FindingView {
            check_name: "unsafe-storage-patterns"@,
            severity: Severity::Medium,
            file_path: ""@,
            line: c.start.line as nat,
            function_name: fn_name,
            description: "`Symbol::new` in `"@ + fn_name
                + "` uses a non-literal key string. Keys derived from caller input are easier to guess or collide with; prefer `symbol_short!` / fixed literals or a namespaced encoding you control."@,
            rule_url: Some(
                "https://github.com/SorobanGuard/Guard-CLI/blob/main/docs/checks.md#unsafe-storage-patterns-medium"@,
            ),
            suggestion: Some(
                "Use `symbol_short!(\"literal\")` or a named constant for storage keys."@,
            ),
        }),
{
    reveal_strlit("");
    assert(""@ =~= Seq::<char>::empty());
}

/// Which calls change storage, change temporary storage, or read it unchecked: that is up to the
/// name of the method and to what is called in the chain ahead of it, nothing else.
pub proof fn law_calls_are_judged_by_their_chain(m: ExprMethodCall)
    ensures
        is_storage_mutation(m) <==> chain_calls(*m.receiver, "storage"@) && seq![
            "set"@,
            "remove"@,
            "extend_ttl"@,
            "bump"@,
            "append"@,
        ].contains(m.method@),
        is_temporary_mutation(m) <==> is_storage_mutation(m) && chain_calls(
            *m.receiver,
            "temporary"@,
        ),
        is_temporary_unchecked_read(m) <==> m.method@ == "get_unchecked"@ && chain_calls(
            *m.receiver,
            "storage"@,
        ) && chain_calls(*m.receiver, "temporary"@),
{
    let names = seq!["set"@, "remove"@, "extend_ttl"@, "bump"@, "append"@];
    assert(names[0] == "set"@ && names[1] == "remove"@ && names[2] == "extend_ttl"@ && names[3]
        == "bump"@ && names[4] == "append"@);
}

/// A method call is reported if and only if both `storage` and `temporary` are called in the chain
/// ahead of it, as a write if it changes an entry, as a read if it is unchecked.
pub proof fn law_method_calls_are_reported(
    m: ExprMethodCall,
    fn_name: Seq<char>,
    consts: Set<Seq<char>>,
)
    ensures
        findings_at(Node::MethodCall(m), fn_name, consts) == if !chain_calls(
            *m.receiver,
            "storage"@,
        ) || !chain_calls(*m.receiver, "temporary"@) {
            Seq::empty()
        } else if m.method@ == "get_unchecked"@ {
            seq![read_finding(fn_name, m)]
        } else if seq!["set"@, "remove"@, "extend_ttl"@, "bump"@, "append"@].contains(m.method@) {
            seq![write_finding(fn_name, m)]
        } else {
            Seq::empty()
        },
{
    law_calls_are_judged_by_their_chain(m);
    if chain_calls(*m.receiver, "storage"@) && chain_calls(*m.receiver, "temporary"@) {
        law_temporary_storage_is_reported_once(m, fn_name, consts);
    }
}

/// A call on `x.storage().temporary()` is reported whatever expression `x` is: a variable of any
/// name, a field, the result of another call.
pub proof fn law_root_of_the_chain_does_not_matter(
    m: ExprMethodCall,
    temporary: ExprMethodCall,
    storage: ExprMethodCall,
    fn_name: Seq<char>,
    consts: Set<Seq<char>>,
)
    requires
        *m.receiver == Node::MethodCall(temporary),
        temporary.method@ == "temporary"@,
        *temporary.receiver == Node::MethodCall(storage),
        storage.method@ == "storage"@,
    ensures
        m.method@ == "get_unchecked"@ ==> findings_at(Node::MethodCall(m), fn_name, consts) == seq![
            read_finding(fn_name, m),
        ],
        seq!["set"@, "remove"@, "extend_ttl"@, "bump"@, "append"@].contains(m.method@)
            ==> findings_at(Node::MethodCall(m), fn_name, consts) == seq![
            write_finding(fn_name, m),
        ],
{
    let names = seq!["set"@, "remove"@, "extend_ttl"@, "bump"@, "append"@];
    law_chain_grows_by_its_calls(Node::MethodCall(storage), "storage"@);
    law_chain_grows_by_its_calls(*m.receiver, "storage"@);
    law_chain_grows_by_its_calls(*m.receiver, "temporary"@);
    law_calls_are_judged_by_their_chain(m);
    law_temporary_storage_is_reported_once(m, fn_name, consts);
}

/// The second argument of a call is a fixed string if and only if it is a string literal, or a
/// path whose last segment is the name of a constant: nothing that is computed is one.
pub proof fn law_fixed_strings_are_literals_or_names(c: ExprCall, consts: Set<Seq<char>>)
    ensures
        has_stable_key(c, consts) <==> c.args@.len() >= 2 && {
            ||| c.args@[1] is Lit && c.args@[1]->Lit_0.lit@ is Some
            ||| c.args@[1] is Path && exists|lead: Seq<Seq<char>>, name: Seq<char>|
                texts(c.args@[1]->Path_0.segments@) == #[trigger] lead.push(name)
                    && consts.contains(name)
        },
{
    if c.args@.len() >= 2 && c.args@[1] is Path {
        let path = c.args@[1]->Path_0.segments@;
        if has_stable_key(c, consts) {
            let name = path.last()@;
            law_identifiers_and_ends(path, name);
            let lead = choose|lead: Seq<Seq<char>>| texts(path) == #[trigger] lead.push(name);
            assert(texts(path) == lead.push(name) && consts.contains(name));
        }
        if exists|lead: Seq<Seq<char>>, name: Seq<char>|
            texts(path) == #[trigger] lead.push(name) && consts.contains(name) {
            let (lead, name) = choose|lead: Seq<Seq<char>>, name: Seq<char>|
                texts(path) == #[trigger] lead.push(name) && consts.contains(name);
            law_identifiers_and_ends(path, name);
            assert(ends_with(path, name));
        }
    }
}

/// A `Symbol::new` call is reported unless its key is a string literal or the name of a constant:
/// whatever computes the key, be it a call, a method call, a macro or anything else.
pub proof fn law_computed_keys_are_reported(
    c: ExprCall,
    fn_name: Seq<char>,
    consts: Set<Seq<char>>,
)
    requires
        is_symbol_new(*c.func),
        c.args@.len() >= 2,
    ensures
        c.args@[1] !is Lit && c.args@[1] !is Path ==> findings_at(Node::Call(c), fn_name, consts)
            == seq![key_finding(fn_name, c)],
        c.args@[1] matches Node::Lit(l) ==> findings_at(Node::Call(c), fn_name, consts)
            == if l.lit@ is Some {
            Seq::empty()
        } else {
            seq![key_finding(fn_name, c)]
        },
        c.args@[1] matches Node::Path(p) ==> findings_at(Node::Call(c), fn_name, consts)
            == if p.segments@.len() > 0 && consts.contains(p.segments@[p.segments@.len() - 1]@) {
            Seq::empty()
        } else {
            seq![key_finding(fn_name, c)]
        },
{
}

/// Nothing but a method call or a `Symbol::new` call with a key is reported.
pub proof fn law_nothing_else_is_reported(n: Node, fn_name: Seq<char>, consts: Set<Seq<char>>)
    ensures
        n !is MethodCall && n !is Call ==> findings_at(n, fn_name, consts).len() == 0,
        n matches Node::Call(c) && (!is_symbol_new(*c.func) || c.args@.len() < 2) ==> findings_at(
            n,
            fn_name,
            consts,
        ).len() == 0,
{
}

/// The findings in the body of a method: those at each visit of the walk over it, in order.
pub open spec fn findings_in_body(method: ImplItemFn, consts: Set<Seq<char>>) -> Seq<FindingView> {
    visits_all(method.block@, Seq::empty()).map_values(
        |v: Visit| findings_at(v.node, method.ident@, consts),
    ).flatten()
}

/// The findings in a file are those in the body of each contract method, method by method, each
/// under the name of its method and judged by the names declared anywhere in the file: none is
/// left out, none comes twice.
pub proof fn law_findings_method_by_method(file: File)
    ensures
        UnsafeStoragePatternsCheck.spec_findings(file) == contract_methods(file.items@).map_values(
            |method: ImplItemFn| findings_in_body(method, declared_names(file)),
        ).flatten(),
{
    let consts = declared_names(file);
    let methods = contract_methods(file.items@);
    let parts = methods.map_values(|method: ImplItemFn| findings_in_body(method, consts));
    lemma_methods_findings_strung_together(methods, consts, parts);
    assert(parts =~= methods.map_values(
        |method: ImplItemFn| findings_in_body(method, declared_names(file)),
    ));
}

/// The findings in some methods are those in the body of each, in order.
proof fn lemma_methods_findings_strung_together(
    methods: Seq<ImplItemFn>,
    consts: Set<Seq<char>>,
    parts: Seq<Seq<FindingView>>,
)
    requires
        parts.len() == methods.len(),
        forall|i: int|
            0 <= i < methods.len() ==> #[trigger] parts[i] == findings_in_body(methods[i], consts),
    ensures
        methods_findings(methods, consts) == parts.flatten(),
    decreases methods.len(),
{
    if methods.len() > 0 {
        let shorter = parts.drop_last();
        let last = methods.last();
        let walk = visits_all(last.block@, Seq::empty());
        assert forall|i: int| 0 <= i < methods.len() - 1 implies #[trigger] shorter[i]
            == findings_in_body(methods.drop_last()[i], consts) by {
            assert(shorter[i] == parts[i]);
        }
        lemma_methods_findings_strung_together(methods.drop_last(), consts, shorter);
        shorter.lemma_flatten_and_flatten_alt_are_equivalent();
        lemma_gather_strings_together(
            walk,
            storage_rule(last.ident@, consts),
            walk.map_values(|v: Visit| findings_at(v.node, last.ident@, consts)),
        );
        assert(parts[parts.len() - 1] == findings_in_body(last, consts));
    }
    parts.lemma_flatten_and_flatten_alt_are_equivalent();
}

} // verus!
