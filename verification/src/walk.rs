//! The depth-first walk over a syntax tree.
//!
//! The walk reaches every node of a file, at whatever depth it stands, and knows the nodes
//! around it. What a check reports is stated over the visits of the walk.

use vstd::prelude::*;

use crate::syntax::{File, Node};

verus! {

/// A node that the walk reaches.
pub struct Visit {
    pub node: Node,
    /// The nodes around it, outermost first.
    pub within: Seq<Node>,
}

/// A node directly inside another one is smaller than that.
pub proof fn lemma_child_smaller(n: Node, i: int)
    requires
        0 <= i < n.spec_children().len(),
    ensures
        decreases_to!(n => n.spec_children()[i]),
{
    match n {
        Node::Static(s) => assert(decreases_to!(n => s.inner@[i])),
        Node::Const(c) => assert(decreases_to!(n => c.inner@[i])),
        Node::Mod(m) => {
            if i < m.header@.len() {
                assert(decreases_to!(n => m.header@[i]));
            } else {
                assert(decreases_to!(n => m.items@[i - m.header@.len()]));
            }
        },
        Node::Impl(m) => {
            if i < m.header@.len() {
                assert(decreases_to!(n => m.header@[i]));
            } else {
                assert(decreases_to!(n => m.items@[i - m.header@.len()]));
            }
        },
        Node::ImplConst(c) => assert(decreases_to!(n => c.inner@[i])),
        Node::ImplFn(f) => {
            if i < f.header@.len() {
                assert(decreases_to!(n => f.header@[i]));
            } else {
                assert(decreases_to!(n => f.block@[i - f.header@.len()]));
            }
        },
        Node::MethodCall(m) => {
            let h = m.header@.len();
            let t = m.turbofish@.len();
            if i < h {
                assert(decreases_to!(n => m.header@[i]));
            } else if i == h {
                assert(decreases_to!(n => *m.receiver));
            } else if i < h + 1 + t {
                assert(decreases_to!(n => m.turbofish@[i - h - 1]));
            } else {
                assert(decreases_to!(n => m.args@[i - h - 1 - t]));
            }
        },
        Node::Call(c) => {
            let h = c.header@.len();
            if i < h {
                assert(decreases_to!(n => c.header@[i]));
            } else if i == h {
                assert(decreases_to!(n => *c.func));
            } else {
                assert(decreases_to!(n => c.args@[i - h - 1]));
            }
        },
        Node::Path(p) => assert(decreases_to!(n => p.inner@[i])),
        Node::Lit(l) => assert(decreases_to!(n => l.inner@[i])),
        Node::Macro(m) => assert(decreases_to!(n => m.inner@[i])),
        Node::Other(nodes) => assert(decreases_to!(n => nodes@[i])),
    }
}

/// The walk over a node that stands within `within`: the node itself, then what is inside it.
pub open spec fn visits(n: Node, within: Seq<Node>) -> Seq<Visit>
    decreases n, n.spec_children().len() + 1,
{
    seq![Visit { node: n, within }] + visits_inside(n, within, n.spec_children().len())
}

/// The walk over the first `k` children of a node.
pub open spec fn visits_inside(n: Node, within: Seq<Node>, k: nat) -> Seq<Visit>
    decreases n, k,
{
    if k == 0 || k > n.spec_children().len() {
        Seq::empty()
    } else {
        proof {
            lemma_child_smaller(n, k - 1);
        }
        visits_inside(n, within, (k - 1) as nat) + visits(
            n.spec_children()[k - 1],
            within.push(n),
        )
    }
}

/// The walk over nodes that stand side by side within `within`.
pub open spec fn visits_all(nodes: Seq<Node>, within: Seq<Node>) -> Seq<Visit>
    decreases nodes.len(),
{
    if nodes.len() == 0 {
        Seq::empty()
    } else {
        visits_all(nodes.drop_last(), within) + visits(nodes.last(), within)
    }
}

/// The outermost nodes of a file.
pub open spec fn file_roots(file: File) -> Seq<Node> {
    file.header@ + file.items@
}

/// The walk over a file.
pub open spec fn file_visits(file: File) -> Seq<Visit> {
    visits_all(file_roots(file), Seq::empty())
}

/// What `rule` yields at each visit, in order.
pub open spec fn gather<R>(visited: Seq<Visit>, rule: spec_fn(Visit) -> Seq<R>) -> Seq<R>
    decreases visited.len(),
{
    if visited.len() == 0 {
        Seq::empty()
    } else {
        gather(visited.drop_last(), rule) + rule(visited.last())
    }
}

/// The walk over the first children of a node is the walk over them side by side.
proof fn lemma_visits_inside(n: Node, within: Seq<Node>, k: nat)
    requires
        k <= n.spec_children().len(),
    ensures
        visits_inside(n, within, k) == visits_all(n.spec_children().take(k as int), within.push(n)),
    decreases k,
{
    if k > 0 {
        lemma_visits_inside(n, within, (k - 1) as nat);
        let first = n.spec_children().take(k as int);
        assert(first.drop_last() == n.spec_children().take(k - 1));
    }
}

/// The walk over a node is a visit to it and then the walk over its children.
pub proof fn lemma_visits_unfold(n: Node, within: Seq<Node>)
    ensures
        visits(n, within) == seq![Visit { node: n, within }] + visits_all(
            n.spec_children(),
            within.push(n),
        ),
{
    lemma_visits_inside(n, within, n.spec_children().len());
    assert(n.spec_children().take(n.spec_children().len() as int) == n.spec_children());
}

/// One more node side by side with others is walked after them.
pub proof fn lemma_visits_all_next(nodes: Seq<Node>, within: Seq<Node>, i: int)
    requires
        0 <= i < nodes.len(),
    ensures
        visits_all(nodes.take(i + 1), within) == visits_all(nodes.take(i), within) + visits(
            nodes[i],
            within,
        ),
{
    assert(nodes.take(i + 1).drop_last() == nodes.take(i));
}

/// Walking two groups of nodes side by side is walking one and then the other.
pub proof fn lemma_visits_all_add(a: Seq<Node>, b: Seq<Node>, within: Seq<Node>)
    ensures
        visits_all(a + b, within) == visits_all(a, within) + visits_all(b, within),
    decreases b.len(),
{
    if b.len() == 0 {
        assert(a + b == a);
    } else {
        lemma_visits_all_add(a, b.drop_last(), within);
        assert((a + b).drop_last() == a + b.drop_last());
        assert((a + b).last() == b.last());
    }
}

/// What a rule yields over two stretches of a walk is what it yields over one and then the
/// other.
pub proof fn lemma_gather_add<R>(a: Seq<Visit>, b: Seq<Visit>, rule: spec_fn(Visit) -> Seq<R>)
    ensures
        gather(a + b, rule) == gather(a, rule) + gather(b, rule),
    decreases b.len(),
{
    if b.len() == 0 {
        assert(a + b == a);
    } else {
        lemma_gather_add(a, b.drop_last(), rule);
        assert((a + b).drop_last() == a + b.drop_last());
        assert((a + b).last() == b.last());
    }
}

/// What a rule yields over a single visit.
pub proof fn lemma_gather_one<R>(v: Visit, rule: spec_fn(Visit) -> Seq<R>)
    ensures
        gather(seq![v], rule) == rule(v),
{
    assert(seq![v].drop_last() == Seq::<Visit>::empty());
    reveal_with_fuel(gather, 2);
}

/// `gather` over the walk of a node, step by step: the node first, then its children.
pub proof fn lemma_gather_visits<R>(n: Node, within: Seq<Node>, rule: spec_fn(Visit) -> Seq<R>)
    ensures
        gather(visits(n, within), rule) == rule(Visit { node: n, within }) + gather(
            visits_all(n.spec_children(), within.push(n)),
            rule,
        ),
{
    lemma_visits_unfold(n, within);
    lemma_gather_add(
        seq![Visit { node: n, within }],
        visits_all(n.spec_children(), within.push(n)),
        rule,
    );
    lemma_gather_one(Visit { node: n, within }, rule);
}

/// `gather` over one more node side by side with others.
pub proof fn lemma_gather_next<R>(
    nodes: Seq<Node>,
    within: Seq<Node>,
    i: int,
    rule: spec_fn(Visit) -> Seq<R>,
)
    requires
        0 <= i < nodes.len(),
    ensures
        gather(visits_all(nodes.take(i + 1), within), rule) == gather(
            visits_all(nodes.take(i), within),
            rule,
        ) + gather(visits(nodes[i], within), rule),
{
    lemma_visits_all_next(nodes, within, i);
    lemma_gather_add(visits_all(nodes.take(i), within), visits(nodes[i], within), rule);
}

/// A rule that yields nothing at any visit yields nothing over the walk.
pub proof fn lemma_gather_nothing<R>(visited: Seq<Visit>, rule: spec_fn(Visit) -> Seq<R>)
    requires
        forall|i: int| 0 <= i < visited.len() ==> rule(#[trigger] visited[i]) == Seq::<R>::empty(),
    ensures
        gather(visited, rule) == Seq::<R>::empty(),
    decreases visited.len(),
{
    if visited.len() > 0 {
        let shorter = visited.drop_last();
        assert forall|i: int| 0 <= i < shorter.len() implies rule(#[trigger] shorter[i]) == Seq::<
            R,
        >::empty() by {
            assert(shorter[i] == visited[i]);
        }
        lemma_gather_nothing(shorter, rule);
        assert(rule(visited[visited.len() - 1]) == Seq::<R>::empty());
    }
}

/// What a rule yields over a walk is what it yields at one of the visits.
pub proof fn lemma_gather_contains<R>(
    visited: Seq<Visit>,
    rule: spec_fn(Visit) -> Seq<R>,
    r: R,
)
    ensures
        gather(visited, rule).contains(r) <==> exists|i: int|
            0 <= i < visited.len() && rule(#[trigger] visited[i]).contains(r),
    decreases visited.len(),
{
    if visited.len() > 0 {
        let shorter = visited.drop_last();
        let last = visited.len() - 1;
        lemma_gather_contains(shorter, rule, r);
        lemma_add_contains(gather(shorter, rule), rule(visited.last()), r);
        if gather(visited, rule).contains(r) {
            if gather(shorter, rule).contains(r) {
                let i = choose|i: int|
                    0 <= i < shorter.len() && rule(#[trigger] shorter[i]).contains(r);
                assert(rule(visited[i]).contains(r));
            } else {
                assert(rule(visited[last]).contains(r));
            }
        }
        if exists|i: int| 0 <= i < visited.len() && rule(#[trigger] visited[i]).contains(r) {
            let i = choose|i: int|
                0 <= i < visited.len() && rule(#[trigger] visited[i]).contains(r);
            if i < last {
                assert(rule(shorter[i]).contains(r));
            }
        }
    }
}

/// An element of two sequences in a row is an element of one of them.
pub proof fn lemma_add_contains<A>(a: Seq<A>, b: Seq<A>, x: A)
    ensures
        (a + b).contains(x) <==> a.contains(x) || b.contains(x),
{
    if a.contains(x) {
        let i = choose|i: int| 0 <= i < a.len() && a[i] == x;
        assert((a + b)[i] == x);
    }
    if b.contains(x) {
        let i = choose|i: int| 0 <= i < b.len() && b[i] == x;
        assert((a + b)[a.len() + i] == x);
    }
}

/// A line of nodes from one of `roots` inwards, each directly inside the one before it.
pub open spec fn is_chain(roots: Seq<Node>, chain: Seq<Node>) -> bool {
    &&& chain.len() > 0
    &&& roots.contains(chain[0])
    &&& forall|i: int|
        #![trigger chain[i]]
        0 < i < chain.len() ==> chain[i - 1].spec_children().contains(chain[i])
}

/// The visit to the innermost node of a chain that itself stands within `within`.
pub open spec fn chain_visit(within: Seq<Node>, chain: Seq<Node>) -> Visit {
    Visit { node: chain.last(), within: within + chain.drop_last() }
}

/// The walk over a node comes to the innermost node of every chain that starts at it.
proof fn lemma_chain_visited(n: Node, within: Seq<Node>, chain: Seq<Node>)
    requires
        is_chain(seq![n], chain),
    ensures
        visits(n, within).contains(chain_visit(within, chain)),
    decreases chain.len(), 0nat,
{
    lemma_visits_unfold(n, within);
    assert(chain[0] == n);
    let head = seq![Visit { node: n, within }];
    let inside = visits_all(n.spec_children(), within.push(n));
    lemma_add_contains(head, inside, chain_visit(within, chain));
    if chain.len() == 1 {
        assert(within + chain.drop_last() == within);
        assert(head[0] == chain_visit(within, chain));
    } else {
        let rest = chain.skip(1);
        assert(n.spec_children().contains(chain[1]));
        assert forall|i: int| #![trigger rest[i]] 0 < i < rest.len() implies rest[i
            - 1].spec_children().contains(rest[i]) by {
            assert(rest[i] == chain[i + 1]);
        }
        lemma_chain_visited_all(n.spec_children(), within.push(n), rest);
        assert(within.push(n) + rest.drop_last() == within + chain.drop_last());
    }
}

/// The walk over nodes side by side comes to the innermost node of every chain that starts at
/// one of them.
proof fn lemma_chain_visited_all(nodes: Seq<Node>, within: Seq<Node>, chain: Seq<Node>)
    requires
        is_chain(nodes, chain),
    ensures
        visits_all(nodes, within).contains(chain_visit(within, chain)),
    decreases chain.len(), nodes.len() + 1,
{
    let last = nodes.last();
    lemma_add_contains(
        visits_all(nodes.drop_last(), within),
        visits(last, within),
        chain_visit(within, chain),
    );
    if nodes.drop_last().contains(chain[0]) {
        lemma_chain_visited_all(nodes.drop_last(), within, chain);
    } else {
        let i = choose|i: int| 0 <= i < nodes.len() && nodes[i] == chain[0];
        if i < nodes.len() - 1 {
            assert(nodes.drop_last()[i] == chain[0]);
        }
        assert(seq![last][0] == chain[0]);
        lemma_chain_visited(last, within, chain);
    }
}

/// Whether a visit is the one to the innermost node of some chain from `roots`.
pub open spec fn ends_a_chain(roots: Seq<Node>, within: Seq<Node>, v: Visit) -> bool {
    exists|chain: Seq<Node>|
        is_chain(roots, chain) && v == #[trigger] chain_visit(within, chain)
}

/// Every visit of the walk over a node ends a chain that starts at the node.
proof fn lemma_visit_ends_chain(n: Node, within: Seq<Node>, v: Visit)
    requires
        visits(n, within).contains(v),
    ensures
        ends_a_chain(seq![n], within, v),
    decreases n, n.spec_children().len() + 1,
{
    let head = seq![Visit { node: n, within }];
    let inside = visits_inside(n, within, n.spec_children().len());
    lemma_add_contains(head, inside, v);
    if head.contains(v) {
        let chain = seq![n];
        assert(seq![n][0] == chain[0]);
        assert(within + chain.drop_last() == within);
        assert(v == chain_visit(within, chain));
    } else {
        lemma_inner_visit_ends_chain(n, within, n.spec_children().len(), v);
    }
}

/// Every visit of the walk over the first children of a node ends a chain that starts at the
/// node.
proof fn lemma_inner_visit_ends_chain(n: Node, within: Seq<Node>, k: nat, v: Visit)
    requires
        visits_inside(n, within, k).contains(v),
    ensures
        ends_a_chain(seq![n], within, v),
    decreases n, k,
{
    if k > 0 && k <= n.spec_children().len() {
        let child = n.spec_children()[k - 1];
        lemma_child_smaller(n, k - 1);
        lemma_add_contains(
            visits_inside(n, within, (k - 1) as nat),
            visits(child, within.push(n)),
            v,
        );
        if visits_inside(n, within, (k - 1) as nat).contains(v) {
            lemma_inner_visit_ends_chain(n, within, (k - 1) as nat, v);
        } else {
            lemma_visit_ends_chain(child, within.push(n), v);
            let rest = choose|chain: Seq<Node>|
                is_chain(seq![child], chain) && v == #[trigger] chain_visit(within.push(n), chain);
            let chain = seq![n] + rest;
            assert(rest[0] == child);
            assert(seq![n][0] == chain[0]);
            assert forall|i: int| #![trigger chain[i]] 0 < i < chain.len() implies chain[i
                - 1].spec_children().contains(chain[i]) by {
                assert(chain[i] == rest[i - 1]);
                if i > 1 {
                    assert(chain[i - 1] == rest[i - 2]);
                }
            }
            assert(within.push(n) + rest.drop_last() == within + chain.drop_last());
            assert(v == chain_visit(within, chain));
        }
    }
}

/// Every visit of the walk over nodes side by side ends a chain that starts at one of them.
proof fn lemma_visit_ends_chain_all(nodes: Seq<Node>, within: Seq<Node>, v: Visit)
    requires
        visits_all(nodes, within).contains(v),
    ensures
        ends_a_chain(nodes, within, v),
    decreases nodes.len(),
{
    let shorter = nodes.drop_last();
    let last = nodes.last();
    lemma_add_contains(visits_all(shorter, within), visits(last, within), v);
    if visits_all(shorter, within).contains(v) {
        lemma_visit_ends_chain_all(shorter, within, v);
        let chain = choose|chain: Seq<Node>|
            is_chain(shorter, chain) && v == #[trigger] chain_visit(within, chain);
        let i = choose|i: int| 0 <= i < shorter.len() && shorter[i] == chain[0];
        assert(nodes[i] == chain[0]);
        assert(is_chain(nodes, chain));
    } else {
        lemma_visit_ends_chain(last, within, v);
        let chain = choose|chain: Seq<Node>|
            is_chain(seq![last], chain) && v == #[trigger] chain_visit(within, chain);
        assert(nodes[nodes.len() - 1] == chain[0]);
        assert(is_chain(nodes, chain));
    }
}

/// The walk over nodes side by side reaches everything inside them at whatever depth, knowing
/// exactly the nodes around it.
pub proof fn lemma_walk_reaches_every_depth(nodes: Seq<Node>, v: Visit)
    ensures
        visits_all(nodes, Seq::empty()).contains(v) <==> is_chain(nodes, v.within.push(v.node)),
{
    let none = Seq::<Node>::empty();
    let line = v.within.push(v.node);
    if is_chain(nodes, line) {
        lemma_chain_visited_all(nodes, none, line);
        assert(none + line.drop_last() == v.within);
        assert(chain_visit(none, line) == v);
    }
    if visits_all(nodes, none).contains(v) {
        lemma_visit_ends_chain_all(nodes, none, v);
        let chain = choose|chain: Seq<Node>|
            is_chain(nodes, chain) && v == #[trigger] chain_visit(none, chain);
        assert(none + chain.drop_last() == chain.drop_last());
        assert(line == chain);
    }
}

/// The walk over a file reaches every node at whatever depth, knowing exactly the nodes around
/// it: its visits are those to the innermost nodes of the chains from the file's outermost
/// nodes inwards.
pub proof fn law_walk_reaches_every_depth(file: File, v: Visit)
    ensures
        file_visits(file).contains(v) <==> is_chain(file_roots(file), v.within.push(v.node)),
{
    lemma_walk_reaches_every_depth(file_roots(file), v);
}

/// Everything that the walk over a node reaches stands within what is around the node.
pub proof fn lemma_visits_stay_within(n: Node, within: Seq<Node>, i: int)
    requires
        0 <= i < visits(n, within).len(),
    ensures
        within.is_prefix_of(visits(n, within)[i].within),
{
    let v = visits(n, within)[i];
    assert(visits(n, within).contains(v));
    lemma_visit_ends_chain(n, within, v);
}

/// What the walk over a node reaches is the node itself, or stands within it.
pub proof fn lemma_visits_at_or_inside(n: Node, within: Seq<Node>, v: Visit)
    requires
        visits(n, within).contains(v),
    ensures
        v == (Visit { node: n, within }) || within.push(n).is_prefix_of(v.within),
{
    lemma_visit_ends_chain(n, within, v);
    let chain = choose|chain: Seq<Node>|
        is_chain(seq![n], chain) && v == #[trigger] chain_visit(within, chain);
    assert(chain[0] == n);
    if chain.len() == 1 {
        assert(within + chain.drop_last() == within);
    }
}

/// What a rule yields over a walk is what it yields at each visit, strung together in order.
pub proof fn lemma_gather_strings_together<R>(
    visited: Seq<Visit>,
    rule: spec_fn(Visit) -> Seq<R>,
    parts: Seq<Seq<R>>,
)
    requires
        parts.len() == visited.len(),
        forall|i: int| 0 <= i < visited.len() ==> #[trigger] parts[i] == rule(visited[i]),
    ensures
        gather(visited, rule) == parts.flatten(),
    decreases visited.len(),
{
    if visited.len() > 0 {
        let shorter = parts.drop_last();
        assert forall|i: int| 0 <= i < visited.len() - 1 implies #[trigger] shorter[i] == rule(
            visited.drop_last()[i],
        ) by {
            assert(shorter[i] == parts[i]);
        }
        lemma_gather_strings_together(visited.drop_last(), rule, shorter);
        shorter.lemma_flatten_and_flatten_alt_are_equivalent();
        assert(parts[parts.len() - 1] == rule(visited[visited.len() - 1]));
    }
    parts.lemma_flatten_and_flatten_alt_are_equivalent();
}

/// The walk over a file is that over its header and then that over its items.
pub proof fn law_file_is_walked_header_first(file: File)
    ensures
        file_visits(file) == visits_all(file.header@, Seq::empty()) + visits_all(
            file.items@,
            Seq::empty(),
        ),
{
    lemma_visits_all_add(file.header@, file.items@, Seq::empty());
}

/// The walk comes to each node once, ahead of everything inside it, and to what is inside it in
/// order.
pub proof fn law_walk_is_depth_first(
    n: Node,
    before: Seq<Node>,
    after: Seq<Node>,
    within: Seq<Node>,
)
    ensures
        visits_all(before + seq![n] + after, within) == visits_all(before, within) + seq![
            Visit { node: n, within },
        ] + visits_all(n.spec_children(), within.push(n)) + visits_all(after, within),
{
    let one = seq![n];
    lemma_visits_unfold(n, within);
    lemma_visits_all_add(before + one, after, within);
    lemma_visits_all_add(before, one, within);
    assert(one.take(0) == Seq::<Node>::empty() && one.take(1) == one);
    lemma_visits_all_next(one, within, 0);
    assert(visits_all(one, within) == visits(n, within));
}

} // verus!
