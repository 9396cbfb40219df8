//! Detects `static mut` items in Soroban contracts (mutable global state).

use vstd::prelude::*;

use crate::finding::{finding_views, Check, Finding, FindingView, Severity};
use crate::syntax::{File, ItemMod, ItemStatic, Meta, Node};
use crate::text::{join3, text_is};
use crate::util::{
    gated_by_test, gates_by, is_cfg_test, law_gated_by_a_cfg_that_leads_to_test,
    law_identifiers_and_ends, law_only_cfg_gates, texts,
};
use crate::walk::{
    file_roots, file_visits, gather, is_chain, lemma_child_smaller, lemma_gather_add,
    lemma_gather_contains, lemma_gather_next, lemma_gather_nothing, lemma_gather_strings_together,
    lemma_gather_visits, lemma_visits_all_add, lemma_visits_stay_within,
    law_walk_reaches_every_depth, visits, visits_all, Visit,
};

verus! {

pub const CHECK_NAME: &'static str = "mutable-global-state";

pub const RULE_URL: &'static str =
    "https://github.com/SorobanGuard/Guard-CLI/blob/main/docs/checks.md#mutable-global-state-high";

pub const SUGGESTION: &'static str =
    "Replace `static mut` with `env.storage().persistent()` or `env.storage().instance()` for on-chain state.";

/// What the description says after the identifier.
pub const CONSEQUENCE: &'static str = "` introduces mutable global state. \
     In Soroban, contract instances are stateless between \
     invocations — `static mut` is unsafe and its value is \
     not persisted on-chain.";

/// Whether a module holds tests: it is gated by `test`, or named `tests` or `test`.
pub open spec fn is_test_module(m: ItemMod) -> bool {
    gated_by_test(m.attrs@) || m.ident@ == "tests"@ || m.ident@ == "test"@
}

/// Whether one of the nodes is a module of tests.
pub open spec fn has_test_module(nodes: Seq<Node>) -> bool {
    exists|i: int|
        0 <= i < nodes.len() && (#[trigger] nodes[i] matches Node::Mod(m) && is_test_module(m))
}

/// The static at a visit, unless it stands in a module of tests.
pub open spec fn static_at(v: Visit) -> Seq<ItemStatic> {
    match v.node {
        Node::Static(i) => if has_test_module(v.within) {
            Seq::empty()
        } else {
            seq![i]
        },
        _ => Seq::empty(),
    }
}

/// [`static_at`] as a rule for the walk.
pub open spec fn static_rule() -> spec_fn(Visit) -> Seq<ItemStatic> {
    |v: Visit| static_at(v)
}

/// The statics of a file that stand in no module of tests, in the order of the walk.
pub open spec fn reachable_statics(file: File) -> Seq<ItemStatic> {
    gather(file_visits(file), static_rule())
}

/// The finding for a mutable static.
pub open spec fn static_mut_finding(i: ItemStatic) -> FindingView {
    FindingView {
        check_name: CHECK_NAME@,
        severity: Severity::High,
        file_path: Seq::empty(),
        line: i.start.line as nat,
        function_name: Seq::empty(),
        description: "`static mut "@ + i.ident@ + CONSEQUENCE@,
        rule_url: Some(RULE_URL@),
        suggestion: Some(SUGGESTION@),
    }
}

/// A finding for each mutable one of the statics.
pub open spec fn static_mut_findings(statics: Seq<ItemStatic>) -> Seq<FindingView> {
    statics.filter(|i: ItemStatic| i.mutable).map_values(|i: ItemStatic| static_mut_finding(i))
}

/// Reports every `static mut` item outside of test modules.
pub struct MutableGlobalStateCheck;

/// Collects every static that stands in no module of tests, nested arbitrarily deep: inside a
/// block (even an `unsafe {}` one), a free function, a trait impl or a contract method. Modules
/// of tests are not entered at all.
struct StaticVisitor<'a> {
    out: Vec<&'a ItemStatic>,
}

/// Whether a module holds tests: it is gated by `test`, or named `tests` or `test`.
fn holds_tests(m: &ItemMod) -> (r: bool)
    ensures
        r == is_test_module(*m),
{
    is_cfg_test(&m.attrs) || text_is(&m.ident, "tests") || text_is(&m.ident, "test")
}

/// No static is collected from a module of tests.
proof fn lemma_test_module_pruned(m: ItemMod, within: Seq<Node>)
    requires
        is_test_module(m),
    ensures
        gather(visits(Node::Mod(m), within), static_rule()) == Seq::<ItemStatic>::empty(),
{
    let n = Node::Mod(m);
    let inside = within.push(n);
    let children = n.spec_children();
    lemma_gather_visits(n, within, static_rule());
    lemma_nothing_in_tests(children, inside);
    assert(inside[within.len() as int] == n);
}

/// No static is collected from nodes within a module of tests.
proof fn lemma_nothing_in_tests(nodes: Seq<Node>, within: Seq<Node>)
    ensures
        has_test_module(within) ==> gather(visits_all(nodes, within), static_rule()) == Seq::<
            ItemStatic,
        >::empty(),
    decreases nodes.len(),
{
    if nodes.len() > 0 && has_test_module(within) {
        let rest = nodes.drop_last();
        let walk = visits(nodes.last(), within);
        lemma_nothing_in_tests(rest, within);
        lemma_gather_add(visits_all(rest, within), walk, static_rule());
        let k = choose|k: int|
            0 <= k < within.len() && (#[trigger] within[k] matches Node::Mod(m) && is_test_module(
                m,
            ));
        assert forall|i: int| 0 <= i < walk.len() implies static_rule()(#[trigger] walk[i]) == Seq::<
            ItemStatic,
        >::empty() by {
            lemma_visits_stay_within(nodes.last(), within, i);
            assert(walk[i].within[k] == within[k]);
        }
        lemma_gather_nothing(walk, static_rule());
    }
}

impl<'a> StaticVisitor<'a> {
    /// Visits a node that stands within `within`.
    fn visit(&mut self, node: &'a Node, Ghost(within): Ghost<Seq<Node>>)
        requires
            !has_test_module(within),
        ensures
            final(self).out@.unref() == old(self).out@.unref() + gather(
                visits(*node, within),
                static_rule(),
            ),
        decreases node,
    {
        proof {
            lemma_gather_visits(*node, within, static_rule());
        }
        match node {
            Node::Static(i) => {
                self.visit_item_static(i);
            },
            Node::Mod(m) => {
                if holds_tests(m) {
                    proof {
                        lemma_test_module_pruned(*m, within);
                    }
                    return ;
                }
            },
            _ => {},
        }
        let ghost before = self.out@.unref();
        let children = node.children();
        let ghost nodes = node.spec_children();
        let ghost inside = within.push(*node);
        assert(!has_test_module(inside));
        for i in 0..children.len()
            invariant
                children@.unref() == nodes,
                nodes == node.spec_children(),
                !has_test_module(inside),
                self.out@.unref() == before + gather(
                    visits_all(nodes.take(i as int), inside),
                    static_rule(),
                ),
        {
            proof {
                assert(*children@[i as int] == children@.unref()[i as int]);
                lemma_child_smaller(*node, i as int);
                lemma_gather_next(nodes, inside, i as int, static_rule());
            }
            self.visit(children[i], Ghost(inside));
        }
        assert(nodes.take(nodes.len() as int) == nodes);
    }

    /// Keeps a static.
    fn visit_item_static(&mut self, i: &'a ItemStatic)
        ensures
            final(self).out@.unref() == old(self).out@.unref().push(*i),
    {
        self.out.push(i);
        assert(self.out@.unref() == old(self).out@.unref().push(*i));
    }

    /// Visits the nodes of a file.
    fn visit_file(&mut self, file: &'a File)
        ensures
            final(self).out@.unref() == old(self).out@.unref() + reachable_statics(*file),
    {
        let ghost none = Seq::<Node>::empty();
        for i in 0..file.header.len()
            invariant
                none.len() == 0,
                self.out@.unref() == old(self).out@.unref() + gather(
                    visits_all(file.header@.take(i as int), none),
                    static_rule(),
                ),
        {
            proof {
                lemma_gather_next(file.header@, none, i as int, static_rule());
            }
            self.visit(&file.header[i], Ghost(none));
        }
        let ghost before = self.out@.unref();
        for i in 0..file.items.len()
            invariant
                none.len() == 0,
                self.out@.unref() == before + gather(
                    visits_all(file.items@.take(i as int), none),
                    static_rule(),
                ),
        {
            proof {
                lemma_gather_next(file.items@, none, i as int, static_rule());
            }
            self.visit(&file.items[i], Ghost(none));
        }
        proof {
            assert(file.header@.take(file.header@.len() as int) == file.header@);
            assert(file.items@.take(file.items@.len() as int) == file.items@);
            lemma_visits_all_add(file.header@, file.items@, none);
            lemma_gather_add(
                visits_all(file.header@, none),
                visits_all(file.items@, none),
                static_rule(),
            );
        }
    }
}

/// The finding for a mutable static.
fn report(i: &ItemStatic) -> (r: Finding)
    ensures
        r@ == static_mut_finding(*i),
{
    Finding {
        check_name: CHECK_NAME.to_owned(),
        severity: Severity::High,
        file_path: String::new(),
        line: i.start.line,
        function_name: String::new(),
        description: join3("`static mut ", i.ident.as_str(), CONSEQUENCE),
        rule_url: Some(RULE_URL.to_owned()),
        suggestion: Some(SUGGESTION.to_owned()),
    }
}

impl Check for MutableGlobalStateCheck {
    open spec fn spec_name(&self) -> Seq<char> {
        CHECK_NAME@
    }

    open spec fn spec_findings(&self, file: File) -> Seq<FindingView> {
        static_mut_findings(reachable_statics(file))
    }

    fn name(&self) -> (r: &str) {
        CHECK_NAME
    }

    fn run(&self, file: &File, _source: &str) -> (r: Vec<Finding>) {
        let mut visitor = StaticVisitor { out: Vec::new() };
        visitor.visit_file(file);
        let statics = visitor.out;
        let mut findings: Vec<Finding> = Vec::new();
        let ghost all = reachable_statics(*file);
        assert(statics@.unref() == all);
        for i in 0..statics.len()
            invariant
                statics@.unref() == all,
                finding_views(findings@) == static_mut_findings(all.take(i as int)),
        {
            proof {
                assert(all.take(i + 1).drop_last() == all.take(i as int));
                assert(*statics@[i as int] == all[i as int]);
                reveal(Seq::filter);
            }
            let ghost before = finding_views(findings@);
            if statics[i].mutable {
                findings.push(report(statics[i]));
                assert(finding_views(findings@) == before.push(static_mut_finding(all[i as int])));
            }
        }
        assert(all.take(all.len() as int) == all);
        findings
    }
}

/// Whether a chain of nodes from the outermost ones of a file leads to a mutable static without
/// passing through a module of tests.
pub open spec fn leads_to_static_mut(file: File, chain: Seq<Node>, i: ItemStatic) -> bool {
    &&& is_chain(file_roots(file), chain)
    &&& chain.last() == Node::Static(i)
    &&& i.mutable
    &&& !has_test_module(chain)
}

/// A file has a finding if and only if it is the finding for a `static mut` that stands, at
/// whatever depth, in no module of tests.
pub proof fn law_static_mut_found_at_any_depth(file: File, f: FindingView)
    ensures
        MutableGlobalStateCheck.spec_findings(file).contains(f) <==> exists|
            chain: Seq<Node>,
            i: ItemStatic,
        | #[trigger]
            leads_to_static_mut(file, chain, i) && f == static_mut_finding(i),
{
    let all = reachable_statics(file);
    let walk = file_visits(file);
    if MutableGlobalStateCheck.spec_findings(file).contains(f) {
        lemma_static_mut_findings_contains(all, f);
        let i = choose|i: ItemStatic| #[trigger]
            all.contains(i) && i.mutable && f == static_mut_finding(i);
        lemma_gather_contains(walk, static_rule(), i);
        let k = choose|k: int|
            0 <= k < walk.len() && static_rule()(#[trigger] walk[k]).contains(i);
        let v = walk[k];
        let chain = v.within.push(v.node);
        assert(walk.contains(v));
        law_walk_reaches_every_depth(file, v);
        assert(chain.last() == Node::Static(i));
        assert forall|j: int| 0 <= j < chain.len() implies !(#[trigger] chain[j] matches Node::Mod(
            m,
        ) && is_test_module(m)) by {
            if j < v.within.len() {
                assert(chain[j] == v.within[j]);
            }
        }
        assert(leads_to_static_mut(file, chain, i));
    }
    if exists|chain: Seq<Node>, i: ItemStatic| #[trigger]
        leads_to_static_mut(file, chain, i) && f == static_mut_finding(i) {
        let (chain, i) = choose|chain: Seq<Node>, i: ItemStatic| #[trigger]
            leads_to_static_mut(file, chain, i) && f == static_mut_finding(i);
        let v = Visit { node: chain.last(), within: chain.drop_last() };
        assert(v.within.push(v.node) == chain);
        law_walk_reaches_every_depth(file, v);
        let k = choose|k: int| 0 <= k < walk.len() && walk[k] == v;
        assert forall|j: int| 0 <= j < v.within.len() implies !(
        #[trigger] v.within[j] matches Node::Mod(m) && is_test_module(m)) by {
            assert(v.within[j] == chain[j]);
        }
        assert(static_at(v) == seq![i]);
        assert(seq![i][0] == i);
        assert(static_rule()(walk[k]).contains(i));
        lemma_gather_contains(walk, static_rule(), i);
        lemma_static_mut_findings_contains(all, f);
    }
}

/// The findings for some statics are those for the mutable ones among them.
proof fn lemma_static_mut_findings_contains(statics: Seq<ItemStatic>, f: FindingView)
    ensures
        static_mut_findings(statics).contains(f) <==> exists|i: ItemStatic| #[trigger]
            statics.contains(i) && i.mutable && f == static_mut_finding(i),
{
    let mutable = |i: ItemStatic| i.mutable;
    let kept = statics.filter(mutable);
    let findings = static_mut_findings(statics);
    if findings.contains(f) {
        let k = choose|k: int| 0 <= k < findings.len() && findings[k] == f;
        statics.lemma_filter_contains_rev(mutable, kept[k]);
        statics.lemma_filter_pred(mutable, k);
        assert(statics.contains(kept[k]));
    }
    if exists|i: ItemStatic| #[trigger]
        statics.contains(i) && i.mutable && f == static_mut_finding(i) {
        let i = choose|i: ItemStatic| #[trigger]
            statics.contains(i) && i.mutable && f == static_mut_finding(i);
        let k = choose|k: int| 0 <= k < statics.len() && statics[k] == i;
        statics.lemma_filter_contains(mutable, k);
        let j = choose|j: int| 0 <= j < kept.len() && kept[j] == i;
        assert(findings[j] == f);
    }
}

/// The findings for two groups of statics are those for one and then those for the other.
proof fn lemma_static_mut_findings_add(a: Seq<ItemStatic>, b: Seq<ItemStatic>)
    ensures
        static_mut_findings(a + b) == static_mut_findings(a) + static_mut_findings(b),
{
    Seq::filter_distributes_over_add(a, b, |i: ItemStatic| i.mutable);
}

/// The statics in two groups of items side by side are those in one and then those in the other.
proof fn lemma_statics_add(a: Seq<Node>, b: Seq<Node>)
    ensures
        gather(visits_all(a + b, Seq::empty()), static_rule()) == gather(
            visits_all(a, Seq::empty()),
            static_rule(),
        ) + gather(visits_all(b, Seq::empty()), static_rule()),
{
    let none = Seq::<Node>::empty();
    lemma_visits_all_add(a, b, none);
    lemma_gather_add(visits_all(a, none), visits_all(b, none), static_rule());
}

/// A module of tests does not matter: taking it out of the items of a file leaves the findings
/// as they are.
pub proof fn law_test_modules_are_ignored(
    with_tests: File,
    without: File,
    before: Seq<Node>,
    m: ItemMod,
    after: Seq<Node>,
)
    requires
        is_test_module(m),
        with_tests.header@ == without.header@,
        with_tests.items@ == before.push(Node::Mod(m)) + after,
        without.items@ == before + after,
    ensures
        MutableGlobalStateCheck.spec_findings(with_tests)
            == MutableGlobalStateCheck.spec_findings(without),
{
    let none = Seq::<Node>::empty();
    let lead = without.header@ + before;
    let tests = seq![Node::Mod(m)];
    lemma_statics_add(lead, after);
    lemma_statics_add(lead + tests, after);
    lemma_statics_add(lead, tests);
    assert(tests.drop_last() == none);
    assert(visits_all(tests, none) == visits(Node::Mod(m), none)) by {
        reveal_with_fuel(visits_all, 2);
    }
    lemma_test_module_pruned(m, none);
    assert(file_roots(without) == lead + after);
    assert(file_roots(with_tests) == lead + tests + after);
}

/// The statics in the header of a file: in its attributes, that is, and not in its items.
pub open spec fn header_statics(file: File) -> Seq<ItemStatic> {
    gather(visits_all(file.header@, Seq::empty()), static_rule())
}

/// Items are checked one by one: the findings in a file are those in its first items, then those
/// in the others. What the headers hold does not matter unless it is reported, in which case it
/// stands in front of the first items only.
pub proof fn law_items_are_checked_independently(whole: File, first: File, rest: File)
    requires
        static_mut_findings(header_statics(whole)) == static_mut_findings(header_statics(first)),
        static_mut_findings(header_statics(rest)).len() == 0,
        whole.items@ == first.items@ + rest.items@,
    ensures
        MutableGlobalStateCheck.spec_findings(whole) == MutableGlobalStateCheck.spec_findings(first)
            + MutableGlobalStateCheck.spec_findings(rest),
{
    lemma_statics_add(whole.header@, whole.items@);
    lemma_statics_add(first.header@, first.items@);
    lemma_statics_add(rest.header@, rest.items@);
    lemma_statics_add(first.items@, rest.items@);
    let none = Seq::<Node>::empty();
    let of_first = gather(visits_all(first.items@, none), static_rule());
    let of_rest = gather(visits_all(rest.items@, none), static_rule());
    lemma_static_mut_findings_add(header_statics(whole), of_first + of_rest);
    lemma_static_mut_findings_add(header_statics(first), of_first);
    lemma_static_mut_findings_add(header_statics(rest), of_rest);
    lemma_static_mut_findings_add(of_first, of_rest);
}

/// Every finding is of this check, severe, about no function in particular, leaves the path of
/// the file to the caller, and says how to mend the problem.
pub proof fn law_shape_of_findings(file: File, f: FindingView)
    requires
        MutableGlobalStateCheck.spec_findings(file).contains(f),
    ensures
        f.check_name == MutableGlobalStateCheck.spec_name(),
        f.severity == Severity::High,
        f.file_path.len() == 0,
        f.function_name.len() == 0,
        f.rule_url is Some,
        f.suggestion is Some,
{
    lemma_static_mut_findings_contains(reachable_statics(file), f);
}

/// A module holds tests if and only if it is named `tests` or `test`, or one of its attributes is
/// a `cfg(..)` that leads to `test`.
pub proof fn law_test_modules_are_named_or_gated(m: ItemMod)
    ensures
        is_test_module(m) <==> {
            ||| texts(seq![m.ident]) == seq!["tests"@]
            ||| texts(seq![m.ident]) == seq!["test"@]
            ||| exists|i: int, line: Seq<Meta>|
                0 <= i < m.attrs@.len() && #[trigger] gates_by(m.attrs@[i], line)
        },
{
    law_gated_by_a_cfg_that_leads_to_test(m.attrs@);
    law_identifiers_and_ends(seq![m.ident], "tests"@);
    law_identifiers_and_ends(seq![m.ident], "test"@);
}

/// A module without a `cfg(..)` and of another name is not one of tests, whatever other attributes
/// it has, a doc comment included.
pub proof fn law_other_modules_are_entered(m: ItemMod)
    requires
        forall|i: int|
            0 <= i < m.attrs@.len() ==> !(#[trigger] m.attrs@[i] matches Meta::List(list) && texts(
                list.path@,
            ) == seq!["cfg"@]),
        m.ident@ != "tests"@,
        m.ident@ != "test"@,
    ensures
        !is_test_module(m),
{
    law_only_cfg_gates(m.attrs@);
}

/// Whether one of the nodes around something is a module named `tests` or `test`, or gated by
/// `test`.
pub open spec fn stands_in_tests(around: Seq<Node>) -> bool {
    exists|k: int|
        0 <= k < around.len() && (#[trigger] around[k] matches Node::Mod(m) && {
            ||| m.ident@ == "tests"@
            ||| m.ident@ == "test"@
            ||| gated_by_test(m.attrs@)
        })
}

/// What is reported at a visit: a mutable static outside of tests, at its line and by its name.
pub open spec fn reported_at(v: Visit) -> Seq<FindingView> {
    if v.node is Static && v.node->Static_0.mutable && !stands_in_tests(v.within) {
        seq![
            FindingView {
                check_name: "mutable-global-state"@,
                severity: Severity::High,
                file_path: ""@,
                line: v.node->Static_0.start.line as nat,
                function_name: ""@,
                description: "`static mut "@ + v.node->Static_0.ident@
                    + "` introduces mutable global state. In Soroban, contract instances are stateless between invocations — `static mut` is unsafe and its value is not persisted on-chain."@,
                rule_url: Some(
                    "https://github.com/SorobanGuard/Guard-CLI/blob/main/docs/checks.md#mutable-global-state-high"@,
                ),
                suggestion: Some(
                    "Replace `static mut` with `env.storage().persistent()` or `env.storage().instance()` for on-chain state."@,
                ),
            },
        ]
    } else {
        Seq::empty()
    }
}

/// [`reported_at`] as a rule for the walk.
pub open spec fn report_rule() -> spec_fn(Visit) -> Seq<FindingView> {
    |v: Visit| reported_at(v)
}

/// The findings in a file are those at each visit of the walk over it, one for each `static mut`
/// outside of tests, in the order of the source: none is left out, none comes twice.
pub proof fn law_findings_visit_by_visit(file: File)
    ensures
        MutableGlobalStateCheck.spec_name() == "mutable-global-state"@,
        MutableGlobalStateCheck.spec_findings(file) == file_visits(file).map_values(
            report_rule(),
        ).flatten(),
{
    let walk = file_visits(file);
    lemma_findings_of_a_walk(walk);
    lemma_gather_strings_together(walk, report_rule(), walk.map_values(report_rule()));
}

/// The findings for the statics that a walk comes to are those at its visits.
proof fn lemma_findings_of_a_walk(walk: Seq<Visit>)
    ensures
        static_mut_findings(gather(walk, static_rule())) == gather(walk, report_rule()),
    decreases walk.len(),
{
    reveal(Seq::filter);
    if walk.len() > 0 {
        let shorter = walk.drop_last();
        let v = walk.last();
        lemma_findings_of_a_walk(shorter);
        lemma_static_mut_findings_add(gather(shorter, static_rule()), static_at(v));
        assert(has_test_module(v.within) == stands_in_tests(v.within)) by {
            if has_test_module(v.within) {
                let k = choose|k: int|
                    0 <= k < v.within.len() && (#[trigger] v.within[k] matches Node::Mod(m)
                        && is_test_module(m));
                assert(v.within[k] is Mod);
            }
            if stands_in_tests(v.within) {
                let k = choose|k: int|
                    0 <= k < v.within.len() && (#[trigger] v.within[k] matches Node::Mod(m) && {
                        ||| m.ident@ == "tests"@
                        ||| m.ident@ == "test"@
                        ||| gated_by_test(m.attrs@)
                    });
                assert(v.within[k] is Mod);
            }
        }
        assert(static_mut_findings(static_at(v)) == reported_at(v)) by {
            reveal_strlit("");
            if v.node is Static && !has_test_module(v.within) {
                let i = v.node->Static_0;
                let one = seq![i];
                assert(one.drop_last() == Seq::<ItemStatic>::empty());
                assert(one.last() == i);
                assert(one.drop_last().filter(|i: ItemStatic| i.mutable) == Seq::<
                    ItemStatic,
                >::empty());
                assert(""@ =~= Seq::<char>::empty());
            }
        }
    }
}

} // verus!
