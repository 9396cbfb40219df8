//! Detection of duplicate symbol keys (`symbol_short!("...")` or `Symbol::new(_, "...")`) within
//! the same `impl` block.
//!
//! A key outside of any `impl` block belongs to no block in particular: it collides with the same
//! key wherever that stands in the file. Two keys are in the same block if some `impl` block holds
//! both, be it around a nested block that holds one of them. Keys in different blocks do not
//! collide.

use vstd::prelude::*;

use crate::finding::{finding_views, Check, Finding, FindingView, Severity};
use crate::literal::{parse_literal, parsed_literal};
use crate::syntax::{ExprCall, File, ItemConst, Lit, Macro, Node, Position};
use crate::text::{decimal, decimal_chars, join2};
use crate::util::{
    ends_with, is_symbol_new, is_symbol_new_path, law_identifiers_and_ends, path_ends_with, texts,
};
use crate::walk::{
    file_visits, gather, lemma_add_contains, lemma_child_smaller, lemma_gather_add,
    lemma_gather_contains, lemma_gather_next, lemma_gather_one, lemma_gather_strings_together,
    lemma_gather_visits, lemma_visits_all_add, lemma_visits_all_next, lemma_visits_at_or_inside,
    visits, visits_all, Visit,
};

verus! {

pub const CHECK_NAME: &'static str = "symbol-key-collision";

pub const RULE_URL: &'static str =
    "https://github.com/SorobanGuard/Guard-CLI/blob/main/docs/checks.md#symbol-key-collision-medium";

/// A symbol key in the source.
#[derive(Debug)]
pub struct KeyOccurrence {
    pub key: String,
    pub start: Position,
    /// The method or constant around the key; empty if there is none.
    pub owner: String,
    /// Where the outermost `impl` block around the key starts, if there is one.
    pub block: Option<Position>,
}

/// The contents of a [`KeyOccurrence`].
pub struct KeyOccurrenceView {
    pub key: Seq<char>,
    pub start: Position,
    pub owner: Seq<char>,
    pub block: Option<Position>,
}

impl View for KeyOccurrence {
    type V = KeyOccurrenceView;

    open spec fn view(&self) -> KeyOccurrenceView {
        KeyOccurrenceView {
            key: self.key@,
            start: self.start,
            owner: self.owner@,
            block: self.block,
        }
    }
}

/// The contents of each occurrence, in order.
pub open spec fn occurrence_views(occurrences: Seq<KeyOccurrence>) -> Seq<KeyOccurrenceView> {
    occurrences.map_values(|o: KeyOccurrence| o@)
}

/// The name that a node gives to the keys inside it: a method its own name, a constant its name
/// behind `const `.
pub open spec fn owner_name(n: Node) -> Option<Seq<char>> {
    match n {
        Node::ImplFn(f) => Some(f.ident@),
        Node::Const(c) => Some("const "@ + c.ident@),
        _ => None,
    }
}

/// The name given by the innermost of some nested nodes that gives one; empty if none does.
pub open spec fn innermost_owner(within: Seq<Node>) -> Seq<char>
    decreases within.len(),
{
    if within.len() == 0 {
        Seq::empty()
    } else {
        match owner_name(within.last()) {
            Some(name) => name,
            None => innermost_owner(within.drop_last()),
        }
    }
}

/// Where the outermost `impl` block among some nested nodes starts, if there is one.
pub open spec fn outermost_block(within: Seq<Node>) -> Option<Position>
    decreases within.len(),
{
    if within.len() == 0 {
        None
    } else {
        match (outermost_block(within.drop_last()), within.last()) {
            (Some(start), _) => Some(start),
            (None, Node::Impl(i)) => Some(i.start),
            (None, _) => None,
        }
    }
}

/// The key in a node: that of a `symbol_short!` call with nothing but a string literal in it, or
/// of a `Symbol::new` call with a string literal as its second argument.
pub open spec fn key_of(n: Node) -> Option<(Seq<char>, Position)> {
    match n {
        Node::Macro(m) => if ends_with(m.path@, "symbol_short"@) {
            match parsed_literal(m.tokens@) {
                Some(Some(key)) => Some((key, m.start)),
                _ => None,
            }
        } else {
            None
        },
        Node::Call(c) => match symbol_new_key(c) {
            Some(key) => Some((key, c.start)),
            None => None,
        },
        _ => None,
    }
}

/// The string literal that is the second argument of a `Symbol::new` call.
pub open spec fn symbol_new_key(c: ExprCall) -> Option<Seq<char>> {
    if is_symbol_new(*c.func) && c.args@.len() >= 2 {
        match c.args@[1] {
            Node::Lit(l) => l.lit@,
            _ => None,
        }
    } else {
        None
    }
}

/// The key at a visit.
pub open spec fn key_at(v: Visit) -> Seq<KeyOccurrenceView> {
    match key_of(v.node) {
        Some((key, start)) => seq![
            KeyOccurrenceView {
                key,
                start,
                owner: innermost_owner(v.within),
                block: outermost_block(v.within),
            },
        ],
        None => Seq::empty(),
    }
}

/// [`key_at`] as a rule for the walk.
pub open spec fn key_rule() -> spec_fn(Visit) -> Seq<KeyOccurrenceView> {
    |v: Visit| key_at(v)
}

/// The symbol keys of a file, in the order of the walk.
pub open spec fn key_occurrences(file: File) -> Seq<KeyOccurrenceView> {
    gather(file_visits(file), key_rule())
}

/// The occurrences of one key, in order.
pub open spec fn occurrences_of(
    occurrences: Seq<KeyOccurrenceView>,
    key: Seq<char>,
) -> Seq<KeyOccurrenceView> {
    occurrences.filter(|o: KeyOccurrenceView| o.key == key)
}

/// The keys that occur, each once, in the order of their first occurrences.
pub open spec fn distinct_keys(occurrences: Seq<KeyOccurrenceView>) -> Seq<Seq<char>>
    decreases occurrences.len(),
{
    if occurrences.len() == 0 {
        Seq::empty()
    } else {
        let before = distinct_keys(occurrences.drop_last());
        let key = occurrences.last().key;
        if before.contains(key) {
            before
        } else {
            before.push(key)
        }
    }
}

/// Whether two occurrences stand in different `impl` blocks: each is in some block, and none holds
/// both.
pub open spec fn in_different_blocks(a: KeyOccurrenceView, b: KeyOccurrenceView) -> bool {
    a.block is Some && b.block is Some && a.block != b.block
}

/// Whether occurrence `j` repeats the earlier occurrence `i`: the key is the same, and they do
/// not stand in different `impl` blocks.
pub open spec fn repeats_at(occurrences: Seq<KeyOccurrenceView>, i: int, j: int) -> bool {
    &&& 0 <= i < j < occurrences.len()
    &&& occurrences[i].key == occurrences[j].key
    &&& !in_different_blocks(occurrences[i], occurrences[j])
}

/// Whether occurrence `j` repeats an earlier one.
pub open spec fn is_repeat(occurrences: Seq<KeyOccurrenceView>, j: int) -> bool {
    exists|i: int| #[trigger] repeats_at(occurrences, i, j)
}

/// The finding for an occurrence that repeats an earlier one.
pub open spec fn duplicate_finding(o: KeyOccurrenceView) -> FindingView {
    FindingView {
        check_name: CHECK_NAME@,
        severity: Severity::Medium,
        file_path: Seq::empty(),
        line: o.start.line as nat,
        function_name: if o.owner.len() == 0 {
            "module level"@
        } else {
            o.owner
        },
        description: "Duplicate symbol key `"@ + o.key + "` found at position "@ + decimal_chars(
            o.start.column as nat,
        ),
        rule_url: Some(RULE_URL@),
        suggestion: Some(
            "Rename one of the duplicate `symbol_short!(\""@ + o.key + "\")` / `Symbol::new(…, \""@
                + o.key
                + "\")` usages to a unique key to avoid accidental storage slot collisions."@,
        ),
    }
}

/// The findings for some occurrences: one for each that repeats an earlier one, in order.
pub open spec fn repeats(occurrences: Seq<KeyOccurrenceView>) -> Seq<FindingView>
    decreases occurrences.len(),
{
    if occurrences.len() == 0 {
        Seq::empty()
    } else if is_repeat(occurrences, occurrences.len() - 1) {
        repeats(occurrences.drop_last()).push(duplicate_finding(occurrences.last()))
    } else {
        repeats(occurrences.drop_last())
    }
}

/// The findings for the occurrences of some keys, key by key.
pub open spec fn repeats_of_keys(
    occurrences: Seq<KeyOccurrenceView>,
    keys: Seq<Seq<char>>,
) -> Seq<FindingView>
    decreases keys.len(),
{
    if keys.len() == 0 {
        Seq::empty()
    } else {
        repeats_of_keys(occurrences, keys.drop_last()) + repeats(
            occurrences_of(occurrences, keys.last()),
        )
    }
}

/// The findings for some occurrences: for each key, in the order of first occurrence, one
/// finding for each of its occurrences that repeats an earlier one.
pub open spec fn duplicate_key_findings(occurrences: Seq<KeyOccurrenceView>) -> Seq<FindingView> {
    repeats_of_keys(occurrences, distinct_keys(occurrences))
}

/// Detects duplicate symbol keys in the same `impl` block, or outside of one.
pub struct SymbolKeyCollisionCheck;

/// Collects the symbol keys of a file.
pub struct SymbolKeyVisitor {
    pub occurrences: Vec<KeyOccurrence>,
    /// The method or constant that the walk is in; empty if it is in none.
    pub current_function: String,
    /// Where the outermost `impl` block that the walk is in starts, if it is in one.
    pub current_block: Option<Position>,
}

/// Directly inside a method or constant, keys have the owner that it names; directly inside any
/// other node, they have the same owner as outside of it.
pub proof fn law_owner_inside_a_node(within: Seq<Node>, n: Node)
    ensures
        innermost_owner(within.push(n)) == match owner_name(n) {
            Some(name) => name,
            None => innermost_owner(within),
        },
{
    assert(within.push(n).drop_last() == within);
}

/// Directly inside an `impl` block that is in no other, keys are in that block; directly inside any
/// other node, they are in the same block as outside of it.
pub proof fn law_block_inside_a_node(within: Seq<Node>, n: Node)
    ensures
        outermost_block(within.push(n)) == match (outermost_block(within), n) {
            (None, Node::Impl(i)) => Some(i.start),
            (block, _) => block,
        },
{
    assert(within.push(n).drop_last() == within);
}

/// Everything that an `impl` block holds is in the same block, nested `impl` blocks and what they
/// hold included.
pub proof fn law_block_of_everything_inside(within: Seq<Node>, inside: Seq<Node>)
    requires
        outermost_block(within) is Some,
    ensures
        outermost_block(within + inside) == outermost_block(within),
    decreases inside.len(),
{
    if inside.len() == 0 {
        assert(within + inside == within);
    } else {
        law_block_of_everything_inside(within, inside.drop_last());
        assert((within + inside).drop_last() == within + inside.drop_last());
    }
}

/// Two keys that one `impl` block holds are not in different blocks: if they are the same, the
/// later one is reported, however deep in nested blocks either stands.
pub proof fn law_keys_in_one_block_collide(
    occurrences: Seq<KeyOccurrenceView>,
    i: int,
    j: int,
    block: Seq<Node>,
    first: Visit,
    second: Visit,
)
    requires
        0 <= i < j < occurrences.len(),
        occurrences[i].key == occurrences[j].key,
        key_at(first) == seq![occurrences[i]],
        key_at(second) == seq![occurrences[j]],
        outermost_block(block) is Some,
        block.is_prefix_of(first.within),
        block.is_prefix_of(second.within),
    ensures
        repeats_at(occurrences, i, j),
        duplicate_key_findings(occurrences).contains(duplicate_finding(occurrences[j])),
{
    let n = block.len() as int;
    assert(first.within == block + first.within.skip(n));
    assert(second.within == block + second.within.skip(n));
    law_block_of_everything_inside(block, first.within.skip(n));
    law_block_of_everything_inside(block, second.within.skip(n));
    assert(key_at(first)[0] == occurrences[i]);
    assert(key_at(second)[0] == occurrences[j]);
    assert(repeats_at(occurrences, i, j));
    law_reported_if_key_occurred_before(occurrences, duplicate_finding(occurrences[j]));
}

impl SymbolKeyVisitor {
    /// What the visitor has collected.
    pub open spec fn collected(self) -> Seq<KeyOccurrenceView> {
        occurrence_views(self.occurrences@)
    }

    /// An occurrence of `key` where the walk is.
    pub open spec fn occurrence_here(self, key: Seq<char>, start: Position) -> KeyOccurrenceView {
        KeyOccurrenceView {
            key,
            start,
            owner: self.current_function@,
            block: self.current_block,
        }
    }

    /// Whether the walk is directly inside the last of these nested nodes.
    pub open spec fn is_within(self, within: Seq<Node>) -> bool {
        &&& self.current_function@ == innermost_owner(within)
        &&& self.current_block == outermost_block(within)
    }

    /// Whether the walk is at the same place as that of another visitor.
    pub open spec fn same_place(self, other: SymbolKeyVisitor) -> bool {
        &&& self.current_function == other.current_function
        &&& self.current_block == other.current_block
    }

    /// Keeps an occurrence of `key` where the walk is.
    pub fn record(&mut self, key: String, start: Position)
        ensures
            final(self).same_place(*old(self)),
            final(self).collected() == old(self).collected().push(
                old(self).occurrence_here(key@, start),
            ),
    {
        let owner = self.current_function.clone();
        let block = self.current_block;
        self.occurrences.push(KeyOccurrence { key, start, owner, block });
        assert(self.collected() == old(self).collected().push(
            old(self).occurrence_here(key@, start),
        ));
    }

    /// Keeps the key of a `symbol_short!` call, given the literal that its tokens are.
    pub fn record_literal(&mut self, literal: Option<Lit>, start: Position)
        ensures
            final(self).same_place(*old(self)),
            final(self).collected() == match literal {
                Some(Lit::Str(key)) => old(self).collected().push(
                    old(self).occurrence_here(key@, start),
                ),
                _ => old(self).collected(),
            },
    {
        if let Some(Lit::Str(key)) = literal {
            self.record(key, start);
        }
    }

    /// Keeps the key of a macro call, if it is one of `symbol_short!` on a string literal.
    fn visit_macro(&mut self, m: &Macro, Ghost(within): Ghost<Seq<Node>>)
        requires
            old(self).is_within(within),
        ensures
            final(self).same_place(*old(self)),
            final(self).collected() == old(self).collected() + key_at(
                Visit { node: Node::Macro(*m), within },
            ),
    {
        if path_ends_with(&m.path, "symbol_short") {
            let literal = parse_literal(m.tokens.as_str());
            self.record_literal(literal, m.start);
        }
    }

    /// Keeps the key of a call, if it is one of `Symbol::new` with a string literal as its
    /// second argument.
    fn visit_expr_call(&mut self, c: &ExprCall, Ghost(within): Ghost<Seq<Node>>)
        requires
            old(self).is_within(within),
        ensures
            final(self).same_place(*old(self)),
            final(self).collected() == old(self).collected() + key_at(
                Visit { node: Node::Call(*c), within },
            ),
    {
        if is_symbol_new_path(&c.func) && c.args.len() >= 2 {
            if let Node::Lit(l) = &c.args[1] {
                if let Lit::Str(key) = &l.lit {
                    self.record(key.clone(), c.start);
                }
            }
        }
    }

    /// Visits a node that stands within `within`.
    fn visit(&mut self, node: &Node, Ghost(within): Ghost<Seq<Node>>)
        requires
            old(self).is_within(within),
        ensures
            final(self).same_place(*old(self)),
            final(self).collected() == old(self).collected() + gather(
                visits(*node, within),
                key_rule(),
            ),
        decreases node, 2nat,
    {
        proof {
            lemma_gather_visits(*node, within, key_rule());
            law_owner_inside_a_node(within, *node);
            law_block_inside_a_node(within, *node);
        }
        match node {
            Node::ImplFn(f) => {
                self.visit_owner(f.ident.clone(), node, Ghost(within.push(*node)));
            },
            Node::Const(c) => {
                let name = join2("const ", c.ident.as_str());
                self.visit_owner(name, node, Ghost(within.push(*node)));
            },
            Node::Impl(i) => {
                let outer = self.current_block;
                if outer.is_none() {
                    self.current_block = Some(i.start);
                }
                self.visit_children(node, Ghost(within.push(*node)));
                self.current_block = outer;
            },
            Node::Macro(m) => {
                self.visit_macro(m, Ghost(within));
                self.visit_children(node, Ghost(within.push(*node)));
            },
            Node::Call(c) => {
                self.visit_expr_call(c, Ghost(within));
                self.visit_children(node, Ghost(within.push(*node)));
            },
            _ => {
                self.visit_children(node, Ghost(within.push(*node)));
            },
        }
    }

    /// Visits what is directly inside a method or constant, under its name.
    fn visit_owner(&mut self, name: String, node: &Node, Ghost(inside): Ghost<Seq<Node>>)
        requires
            name@ == innermost_owner(inside),
            old(self).current_block == outermost_block(inside),
        ensures
            final(self).same_place(*old(self)),
            final(self).collected() == old(self).collected() + gather(
                visits_all(node.spec_children(), inside),
                key_rule(),
            ),
        decreases node, 1nat,
    {
        let mut other = name;
        std::mem::swap(&mut self.current_function, &mut other);
        self.visit_children(node, Ghost(inside));
        self.current_function = other;
    }

    /// Visits what is directly inside a node, which stands within `inside`.
    fn visit_children(&mut self, node: &Node, Ghost(inside): Ghost<Seq<Node>>)
        requires
            old(self).is_within(inside),
        ensures
            final(self).same_place(*old(self)),
            final(self).collected() == old(self).collected() + gather(
                visits_all(node.spec_children(), inside),
                key_rule(),
            ),
        decreases node, 0nat,
    {
        let children = node.children();
        let ghost nodes = node.spec_children();
        for i in 0..children.len()
            invariant
                children@.unref() == nodes,
                nodes == node.spec_children(),
                self.same_place(*old(self)),
                self.is_within(inside),
                self.collected() == old(self).collected() + gather(
                    visits_all(nodes.take(i as int), inside),
                    key_rule(),
                ),
        {
            proof {
                assert(*children@[i as int] == children@.unref()[i as int]);
                lemma_child_smaller(*node, i as int);
                lemma_gather_next(nodes, inside, i as int, key_rule());
            }
            self.visit(children[i], Ghost(inside));
        }
        assert(nodes.take(nodes.len() as int) == nodes);
    }

    /// Visits nodes that stand side by side outside of any other node.
    fn visit_roots(&mut self, nodes: &Vec<Node>)
        requires
            old(self).is_within(Seq::empty()),
        ensures
            final(self).same_place(*old(self)),
            final(self).collected() == old(self).collected() + gather(
                visits_all(nodes@, Seq::empty()),
                key_rule(),
            ),
    {
        let ghost none = Seq::<Node>::empty();
        for i in 0..nodes.len()
            invariant
                none == Seq::<Node>::empty(),
                self.same_place(*old(self)),
                self.is_within(none),
                self.collected() == old(self).collected() + gather(
                    visits_all(nodes@.take(i as int), none),
                    key_rule(),
                ),
        {
            proof {
                lemma_gather_next(nodes@, none, i as int, key_rule());
            }
            self.visit(&nodes[i], Ghost(none));
        }
        assert(nodes@.take(nodes@.len() as int) == nodes@);
    }

    /// Visits the nodes of a file.
    fn visit_file(&mut self, file: &File)
        requires
            old(self).is_within(Seq::empty()),
        ensures
            final(self).collected() == old(self).collected() + key_occurrences(*file),
    {
        self.visit_roots(&file.header);
        self.visit_roots(&file.items);
        proof {
            let none = Seq::<Node>::empty();
            lemma_visits_all_add(file.header@, file.items@, none);
            lemma_gather_add(
                visits_all(file.header@, none),
                visits_all(file.items@, none),
                key_rule(),
            );
        }
    }
}

/// The symbol keys of a file, in the order of the walk.
pub fn collect_keys(file: &File) -> (r: Vec<KeyOccurrence>)
    ensures
        occurrence_views(r@) == key_occurrences(*file),
{
    let mut visitor = SymbolKeyVisitor {
        occurrences: Vec::new(),
        current_function: String::new(),
        current_block: None,
    };
    visitor.visit_file(file);
    visitor.occurrences
}

/// A key with all its occurrences.
struct KeyGroup<'a> {
    key: &'a String,
    occurrences: Vec<&'a KeyOccurrence>,
}

impl<'a> KeyGroup<'a> {
    spec fn views(self) -> Seq<KeyOccurrenceView> {
        occurrence_views(self.occurrences@.unref())
    }
}

/// Whether the groups are those of the occurrences: one for each key, in the order of first
/// occurrence, with the occurrences of the key in order.
spec fn are_groups_of(groups: Seq<KeyGroup>, occurrences: Seq<KeyOccurrenceView>) -> bool {
    &&& groups.len() == distinct_keys(occurrences).len()
    &&& forall|j: int|
        #![trigger groups[j]]
        0 <= j < groups.len() ==> groups[j].key@ == distinct_keys(occurrences)[j]
            && groups[j].views() == occurrences_of(occurrences, distinct_keys(occurrences)[j])
}

/// A key is one of the distinct keys if and only if it occurs.
pub proof fn lemma_distinct_keys_contains(occurrences: Seq<KeyOccurrenceView>, key: Seq<char>)
    ensures
        distinct_keys(occurrences).contains(key) <==> occurrences_of(occurrences, key).len() > 0,
    decreases occurrences.len(),
{
    reveal(Seq::filter);
    if occurrences.len() > 0 {
        let before = distinct_keys(occurrences.drop_last());
        let last = occurrences.last().key;
        lemma_distinct_keys_contains(occurrences.drop_last(), key);
        assert(before.push(last)[before.len() as int] == last);
        if before.contains(key) {
            let i = choose|i: int| 0 <= i < before.len() && before[i] == key;
            assert(before.push(last)[i] == key);
        }
    }
}

/// No key is twice among the distinct keys.
pub proof fn lemma_distinct_keys_differ(occurrences: Seq<KeyOccurrenceView>)
    ensures
        distinct_keys(occurrences).no_duplicates(),
    decreases occurrences.len(),
{
    if occurrences.len() > 0 {
        lemma_distinct_keys_differ(occurrences.drop_last());
    }
}

/// The occurrences grouped by key, in the order of first occurrence.
fn group_by_key<'a>(occurrences: &'a Vec<KeyOccurrence>) -> (r: Vec<KeyGroup<'a>>)
    ensures
        are_groups_of(r@, occurrence_views(occurrences@)),
{
    let mut groups: Vec<KeyGroup<'a>> = Vec::new();
    let ghost all = occurrence_views(occurrences@);
    for i in 0..occurrences.len()
        invariant
            all == occurrence_views(occurrences@),
            are_groups_of(groups@, all.take(i as int)),
    {
        let o = &occurrences[i];
        let ghost seen = all.take(i as int);
        let ghost keys = distinct_keys(seen);
        let ghost old_groups = groups@;
        let mut j: usize = 0;
        while j < groups.len() && *groups[j].key != o.key
            invariant
                0 <= j <= groups.len(),
                groups@ == old_groups,
                forall|k: int| 0 <= k < j ==> (#[trigger] groups@[k]).key@ != o.key@,
            decreases groups.len() - j,
        {
            j = j + 1;
        }
        proof {
            assert(all.take(i + 1).drop_last() == seen);
            assert(all.take(i + 1).last() == o@);
            reveal(Seq::filter);
        }
        if j < groups.len() {
            assert(keys[j as int] == o.key@);
            assert(keys.contains(o.key@));
            let ghost before = groups@[j as int].views();
            groups[j].occurrences.push(o);
            proof {
                lemma_distinct_keys_differ(seen);
                assert(groups@[j as int].views() == before.push(o@));
                assert forall|k: int| 0 <= k < groups@.len() implies #[trigger] groups@[k].key@
                    == distinct_keys(all.take(i + 1))[k] && groups@[k].views() == occurrences_of(
                    all.take(i + 1),
                    distinct_keys(all.take(i + 1))[k],
                ) by {
                    if k != j {
                        assert(groups@[k] == old_groups[k]);
                        assert(keys[k] != keys[j as int]);
                    }
                }
            }
        } else {
            assert(!keys.contains(o.key@)) by {
                if keys.contains(o.key@) {
                    let k = choose|k: int| 0 <= k < keys.len() && keys[k] == o.key@;
                    assert(groups@[k].key@ == keys[k]);
                }
            }
            let mut members: Vec<&'a KeyOccurrence> = Vec::new();
            members.push(o);
            groups.push(KeyGroup { key: &o.key, occurrences: members });
            proof {
                lemma_distinct_keys_contains(seen, o.key@);
                let last = groups@.len() - 1;
                assert(groups@[last].views() == seq![o@]);
                assert forall|k: int| 0 <= k < groups@.len() implies #[trigger] groups@[k].key@
                    == distinct_keys(all.take(i + 1))[k] && groups@[k].views() == occurrences_of(
                    all.take(i + 1),
                    distinct_keys(all.take(i + 1))[k],
                ) by {
                    if k < last {
                        assert(groups@[k] == old_groups[k]);
                        assert(keys[k] != o.key@);
                    }
                }
            }
        }
    }
    assert(all.take(all.len() as int) == all);
    groups
}

/// The finding for an occurrence that repeats an earlier one.
fn report(o: &KeyOccurrence) -> (r: Finding)
    ensures
        r@ == duplicate_finding(o@),
{
    let key = o.key.as_str();
    let mut description = "Duplicate symbol key `".to_owned();
    description.append(key);
    description.append("` found at position ");
    description.append(decimal(o.start.column).as_str());
    let mut suggestion = "Rename one of the duplicate `symbol_short!(\"".to_owned();
    suggestion.append(key);
    suggestion.append("\")` / `Symbol::new(…, \"");
    suggestion.append(key);
    suggestion.append(
        "\")` usages to a unique key to avoid accidental storage slot collisions.",
    );
    let function_name = if o.owner.as_str().is_empty() {
        "module level".to_owned()
    } else {
        o.owner.clone()
    };
    Finding {
        check_name: CHECK_NAME.to_owned(),
        severity: Severity::Medium,
        file_path: String::new(),
        line: o.start.line,
        function_name,
        description,
        rule_url: Some(RULE_URL.to_owned()),
        suggestion: Some(suggestion),
    }
}

/// Whether one of the occurrences of a key repeats an earlier one.
fn repeats_earlier(members: &Vec<&KeyOccurrence>, j: usize) -> (r: bool)
    requires
        j < members@.len(),
        forall|i: int|
            0 <= i < members@.len() ==> (#[trigger] members@[i]).key@ == members@[j as int].key@,
    ensures
        r == is_repeat(occurrence_views(members@.unref()), j as int),
{
    let ghost views = occurrence_views(members@.unref());
    for i in 0..j
        invariant
            j < members@.len(),
            views == occurrence_views(members@.unref()),
            forall|i: int|
                0 <= i < members@.len() ==> (#[trigger] members@[i]).key@ == members@[j as int].key@,
            forall|k: int| 0 <= k < i ==> !repeats_at(views, k, j as int),
    {
        let different = match (members[i].block, members[j].block) {
            (Some(a), Some(b)) => a != b,
            _ => false,
        };
        assert(views[i as int] == members@[i as int]@);
        assert(views[j as int] == members@[j as int]@);
        if !different {
            assert(repeats_at(views, i as int, j as int));
            return true;
        }
    }
    false
}

/// The findings for some occurrences of keys: for each key, in the order of first occurrence,
/// one finding for each of its occurrences that repeats an earlier one.
pub fn report_duplicates(occurrences: &Vec<KeyOccurrence>) -> (r: Vec<Finding>)
    ensures
        finding_views(r@) == duplicate_key_findings(occurrence_views(occurrences@)),
{
    let groups = group_by_key(occurrences);
    let mut findings: Vec<Finding> = Vec::new();
    let ghost all = occurrence_views(occurrences@);
    let ghost keys = distinct_keys(all);
    for g in 0..groups.len()
        invariant
            keys == distinct_keys(all),
            are_groups_of(groups@, all),
            finding_views(findings@) == repeats_of_keys(all, keys.take(g as int)),
    {
        let members = &groups[g].occurrences;
        let ghost views = occurrences_of(all, keys[g as int]);
        let ghost before = finding_views(findings@);
        proof {
            assert(groups@[g as int].views() == views);
            assert(occurrence_views(members@.unref()) == views);
            assert(keys.take(g + 1).drop_last() == keys.take(g as int));
            assert forall|i: int| 0 <= i < members@.len() implies (#[trigger] members@[i]).key@
                == keys[g as int] by {
                all.lemma_filter_pred(|o: KeyOccurrenceView| o.key == keys[g as int], i);
                assert(views[i] == members@[i]@);
            }
        }
        for i in 0..members.len()
            invariant
                occurrence_views(members@.unref()) == views,
                forall|k: int|
                    0 <= k < members@.len() ==> (#[trigger] members@[k]).key@ == keys[g as int],
                finding_views(findings@) == before + repeats(views.take(i as int)),
        {
            proof {
                assert(members@.unref()[i as int]@ == views[i as int]);
                assert(views.take(i + 1).drop_last() == views.take(i as int));
                lemma_is_repeat_prefix(views, i + 1, i as int);
            }
            let ghost so_far = finding_views(findings@);
            if repeats_earlier(members, i) {
                findings.push(report(members[i]));
                assert(finding_views(findings@) == so_far.push(
                    duplicate_finding(views[i as int]),
                ));
            }
        }
        assert(views.take(views.len() as int) == views);
    }
    assert(keys.take(keys.len() as int) == keys);
    findings
}

/// Whether an occurrence repeats an earlier one does not depend on the later ones.
proof fn lemma_is_repeat_prefix(occurrences: Seq<KeyOccurrenceView>, n: int, j: int)
    requires
        0 <= j < n <= occurrences.len(),
    ensures
        is_repeat(occurrences.take(n), j) == is_repeat(occurrences, j),
{
    let first = occurrences.take(n);
    assert forall|i: int| repeats_at(first, i, j) == repeats_at(occurrences, i, j) by {
        if 0 <= i < j {
            assert(first[i] == occurrences[i]);
        }
    }
    if is_repeat(first, j) {
        let i = choose|i: int| #[trigger] repeats_at(first, i, j);
        assert(repeats_at(occurrences, i, j));
    }
    if is_repeat(occurrences, j) {
        let i = choose|i: int| #[trigger] repeats_at(occurrences, i, j);
        assert(repeats_at(first, i, j));
    }
}

impl Check for SymbolKeyCollisionCheck {
    open spec fn spec_name(&self) -> Seq<char> {
        CHECK_NAME@
    }

    open spec fn spec_findings(&self, file: File) -> Seq<FindingView> {
        duplicate_key_findings(key_occurrences(file))
    }

    fn name(&self) -> (r: &str) {
        CHECK_NAME
    }

    fn run(&self, file: &File, _source: &str) -> (r: Vec<Finding>) {
        let occurrences = collect_keys(file);
        report_duplicates(&occurrences)
    }
}

/// A key without occurrences is the key of no occurrence.
proof fn lemma_no_occurrence(occurrences: Seq<KeyOccurrenceView>, key: Seq<char>)
    requires
        occurrences_of(occurrences, key).len() == 0,
    ensures
        forall|i: int| 0 <= i < occurrences.len() ==> (#[trigger] occurrences[i]).key != key,
{
    let same = |o: KeyOccurrenceView| o.key == key;
    assert forall|i: int| 0 <= i < occurrences.len() implies (#[trigger] occurrences[i]).key
        != key by {
        if occurrences[i].key == key {
            occurrences.lemma_filter_contains(same, i);
        }
    }
}

/// An occurrence repeats an earlier one if and only if it does so among the occurrences of its
/// key.
proof fn lemma_last_repeats(occurrences: Seq<KeyOccurrenceView>)
    requires
        occurrences.len() > 0,
    ensures
        occurrences_of(occurrences, occurrences.last().key) == occurrences_of(
            occurrences.drop_last(),
            occurrences.last().key,
        ).push(occurrences.last()),
        is_repeat(
            occurrences_of(occurrences, occurrences.last().key),
            occurrences_of(occurrences, occurrences.last().key).len() - 1,
        ) == is_repeat(occurrences, occurrences.len() - 1),
{
    let o = occurrences.last();
    let same = |p: KeyOccurrenceView| p.key == o.key;
    let shorter = occurrences.drop_last();
    let before = occurrences_of(shorter, o.key);
    let of_key = occurrences_of(occurrences, o.key);
    let n = occurrences.len() - 1;
    let m = before.len() as int;
    assert(of_key == before.push(o)) by {
        reveal(Seq::filter);
    }
    if is_repeat(of_key, m) {
        let i = choose|i: int| #[trigger] repeats_at(of_key, i, m);
        assert(before[i] == of_key[i]);
        assert(before.contains(before[i]));
        shorter.lemma_filter_contains_rev(same, before[i]);
        let k = choose|k: int| 0 <= k < shorter.len() && shorter[k] == before[i];
        assert(occurrences[k] == shorter[k]);
        assert(repeats_at(occurrences, k, n));
    }
    if is_repeat(occurrences, n) {
        let k = choose|k: int| #[trigger] repeats_at(occurrences, k, n);
        assert(shorter[k] == occurrences[k]);
        shorter.lemma_filter_contains(same, k);
        let i = choose|i: int| 0 <= i < before.len() && before[i] == shorter[k];
        assert(of_key[i] == before[i]);
        assert(repeats_at(of_key, i, m));
    }
}

/// The findings for one key are those for its occurrences that repeat an earlier one.
proof fn lemma_repeats_contains(
    occurrences: Seq<KeyOccurrenceView>,
    key: Seq<char>,
    f: FindingView,
)
    ensures
        repeats(occurrences_of(occurrences, key)).contains(f) <==> exists|j: int|
            0 <= j < occurrences.len() && #[trigger] is_repeat(occurrences, j)
                && occurrences[j].key == key && f == duplicate_finding(occurrences[j]),
    decreases occurrences.len(),
{
    if occurrences.len() > 0 {
        let shorter = occurrences.drop_last();
        let o = occurrences.last();
        let n = occurrences.len() - 1;
        let before = occurrences_of(shorter, key);
        let of_key = occurrences_of(occurrences, key);
        assert(shorter == occurrences.take(n));
        lemma_repeats_contains(shorter, key, f);
        assert forall|j: int| 0 <= j < n implies #[trigger] is_repeat(shorter, j) == is_repeat(
            occurrences,
            j,
        ) by {
            lemma_is_repeat_prefix(occurrences, n, j);
        }
        assert forall|j: int| 0 <= j < n implies shorter[j] == #[trigger] occurrences[j] by {}
        if o.key == key {
            lemma_last_repeats(occurrences);
            assert(of_key.drop_last() == before);
            lemma_add_contains(repeats(before), seq![duplicate_finding(o)], f);
            assert(repeats(before).push(duplicate_finding(o)) == repeats(before) + seq![
                duplicate_finding(o),
            ]);
            assert(seq![duplicate_finding(o)][0] == duplicate_finding(o));
        } else {
            assert(of_key == before) by {
                reveal(Seq::filter);
            }
        }
        if repeats(of_key).contains(f) && repeats(before).contains(f) {
            let j = choose|j: int|
                0 <= j < shorter.len() && #[trigger] is_repeat(shorter, j) && shorter[j].key == key
                    && f == duplicate_finding(shorter[j]);
            assert(is_repeat(occurrences, j));
        }
        if repeats(of_key).contains(f) && !repeats(before).contains(f) {
            assert(is_repeat(occurrences, n));
        }
        if exists|j: int|
            0 <= j < occurrences.len() && #[trigger] is_repeat(occurrences, j)
                && occurrences[j].key == key && f == duplicate_finding(occurrences[j]) {
            let j = choose|j: int|
                0 <= j < occurrences.len() && #[trigger] is_repeat(occurrences, j)
                    && occurrences[j].key == key && f == duplicate_finding(occurrences[j]);
            if j < n {
                assert(is_repeat(shorter, j));
            }
        }
    } else {
        reveal(Seq::filter);
    }
}

/// The findings for some keys are those for any of them.
proof fn lemma_repeats_of_keys_contains(
    occurrences: Seq<KeyOccurrenceView>,
    keys: Seq<Seq<char>>,
    f: FindingView,
)
    ensures
        repeats_of_keys(occurrences, keys).contains(f) <==> exists|key: Seq<char>| #[trigger]
            keys.contains(key) && repeats(occurrences_of(occurrences, key)).contains(f),
    decreases keys.len(),
{
    if keys.len() > 0 {
        let rest = keys.drop_last();
        let last = keys.last();
        lemma_repeats_of_keys_contains(occurrences, rest, f);
        lemma_add_contains(
            repeats_of_keys(occurrences, rest),
            repeats(occurrences_of(occurrences, last)),
            f,
        );
        assert(keys == rest.push(last));
        assert(keys[keys.len() - 1] == last);
        assert(keys.contains(last));
        assert forall|key: Seq<char>| #[trigger] keys.contains(key) implies rest.contains(key)
            || key == last by {
            let k = choose|k: int| 0 <= k < keys.len() && keys[k] == key;
            if k < rest.len() {
                assert(rest[k] == key);
            }
        }
        assert forall|key: Seq<char>| #[trigger] rest.contains(key) implies keys.contains(key) by {
            let k = choose|k: int| 0 <= k < rest.len() && rest[k] == key;
            assert(keys[k] == key);
        }
    }
}

/// An occurrence is reported if and only if the same key has occurred before, not in a different
/// `impl` block: the findings are those for the occurrences that repeat an earlier one.
pub proof fn law_reported_if_key_occurred_before(
    occurrences: Seq<KeyOccurrenceView>,
    f: FindingView,
)
    ensures
        duplicate_key_findings(occurrences).contains(f) <==> exists|i: int, j: int| #[trigger]
            repeats_at(occurrences, i, j) && f == duplicate_finding(occurrences[j]),
{
    let keys = distinct_keys(occurrences);
    lemma_repeats_of_keys_contains(occurrences, keys, f);
    if duplicate_key_findings(occurrences).contains(f) {
        let key = choose|key: Seq<char>| #[trigger]
            keys.contains(key) && repeats(occurrences_of(occurrences, key)).contains(f);
        lemma_repeats_contains(occurrences, key, f);
        let j = choose|j: int|
            0 <= j < occurrences.len() && #[trigger] is_repeat(occurrences, j)
                && occurrences[j].key == key && f == duplicate_finding(occurrences[j]);
        let i = choose|i: int| #[trigger] repeats_at(occurrences, i, j);
        assert(repeats_at(occurrences, i, j) && f == duplicate_finding(occurrences[j]));
    }
    if exists|i: int, j: int| #[trigger]
        repeats_at(occurrences, i, j) && f == duplicate_finding(occurrences[j]) {
        let (i, j) = choose|i: int, j: int| #[trigger]
            repeats_at(occurrences, i, j) && f == duplicate_finding(occurrences[j]);
        let key = occurrences[j].key;
        assert(is_repeat(occurrences, j));
        lemma_repeats_contains(occurrences, key, f);
        if occurrences_of(occurrences, key).len() == 0 {
            lemma_no_occurrence(occurrences, key);
        }
        lemma_distinct_keys_contains(occurrences, key);
        assert(keys.contains(key));
    }
}

/// Where no key occurs twice but in different `impl` blocks, nothing is reported.
pub proof fn law_unique_keys_are_not_reported(occurrences: Seq<KeyOccurrenceView>)
    requires
        forall|i: int, j: int|
            0 <= i < j < occurrences.len() ==> (#[trigger] occurrences[i]).key != (
            #[trigger] occurrences[j]).key || in_different_blocks(occurrences[i], occurrences[j]),
    ensures
        duplicate_key_findings(occurrences).len() == 0,
{
    let findings = duplicate_key_findings(occurrences);
    if findings.len() > 0 {
        let f = findings[0];
        assert(findings.contains(f));
        law_reported_if_key_occurred_before(occurrences, f);
        let (i, j) = choose|i: int, j: int| #[trigger]
            repeats_at(occurrences, i, j) && f == duplicate_finding(occurrences[j]);
        assert(occurrences[i].key != occurrences[j].key || in_different_blocks(
            occurrences[i],
            occurrences[j],
        ));
    }
}

/// How many occurrences repeat an earlier one.
pub open spec fn repeat_count(occurrences: Seq<KeyOccurrenceView>) -> nat
    decreases occurrences.len(),
{
    if occurrences.len() == 0 {
        0
    } else {
        repeat_count(occurrences.drop_last()) + if is_repeat(occurrences, occurrences.len() - 1) {
            1nat
        } else {
            0nat
        }
    }
}

/// One more occurrence adds one finding to those for some keys, if its key is among them and it
/// repeats an earlier one.
proof fn lemma_one_more_occurrence(
    occurrences: Seq<KeyOccurrenceView>,
    o: KeyOccurrenceView,
    keys: Seq<Seq<char>>,
)
    requires
        keys.no_duplicates(),
    ensures
        repeats_of_keys(occurrences.push(o), keys).len() == repeats_of_keys(occurrences, keys).len()
            + if keys.contains(o.key) && is_repeat(
            occurrences.push(o),
            occurrences.len() as int,
        ) {
            1nat
        } else {
            0nat
        },
    decreases keys.len(),
{
    let more = occurrences.push(o);
    assert(more.drop_last() == occurrences);
    assert(more.last() == o);
    if keys.len() > 0 {
        let rest = keys.drop_last();
        let last = keys.last();
        lemma_one_more_occurrence(occurrences, o, rest);
        assert(keys == rest.push(last));
        if last == o.key {
            lemma_last_repeats(more);
            assert(occurrences_of(more, last).drop_last() == occurrences_of(occurrences, last));
            assert(keys[keys.len() - 1] == o.key);
            assert(!rest.contains(o.key)) by {
                if rest.contains(o.key) {
                    let k = choose|k: int| 0 <= k < rest.len() && rest[k] == o.key;
                    assert(keys[k] == keys[keys.len() - 1]);
                }
            }
        } else {
            assert(occurrences_of(more, last) == occurrences_of(occurrences, last)) by {
                reveal(Seq::filter);
            }
            assert(keys.contains(o.key) == rest.contains(o.key)) by {
                if keys.contains(o.key) {
                    let k = choose|k: int| 0 <= k < keys.len() && keys[k] == o.key;
                    assert(rest[k] == o.key);
                }
                if rest.contains(o.key) {
                    let k = choose|k: int| 0 <= k < rest.len() && rest[k] == o.key;
                    assert(keys[k] == o.key);
                }
            }
        }
    }
}

/// A key that has occurred before is among the distinct keys.
proof fn lemma_occurred_before(occurrences: Seq<KeyOccurrenceView>, i: int)
    requires
        0 <= i < occurrences.len(),
    ensures
        distinct_keys(occurrences).contains(occurrences[i].key),
{
    let key = occurrences[i].key;
    if occurrences_of(occurrences, key).len() == 0 {
        lemma_no_occurrence(occurrences, key);
    }
    lemma_distinct_keys_contains(occurrences, key);
}

/// There is one finding for each occurrence that repeats an earlier one.
pub proof fn law_number_of_findings(occurrences: Seq<KeyOccurrenceView>)
    ensures
        duplicate_key_findings(occurrences).len() == repeat_count(occurrences),
    decreases occurrences.len(),
{
    if occurrences.len() > 0 {
        let shorter = occurrences.drop_last();
        let o = occurrences.last();
        let n = occurrences.len() - 1;
        let before = distinct_keys(shorter);
        law_number_of_findings(shorter);
        assert(occurrences == shorter.push(o));
        lemma_distinct_keys_differ(shorter);
        lemma_one_more_occurrence(shorter, o, before);
        if is_repeat(occurrences, n) {
            let i = choose|i: int| #[trigger] repeats_at(occurrences, i, n);
            assert(shorter[i] == occurrences[i]);
            lemma_occurred_before(shorter, i);
        }
        if !before.contains(o.key) {
            lemma_distinct_keys_contains(shorter, o.key);
            lemma_last_repeats(occurrences);
            assert(before.push(o.key).drop_last() == before);
            assert(occurrences_of(occurrences, o.key).drop_last().len() == 0);
            assert(repeats(occurrences_of(occurrences, o.key).drop_last()).len() == 0);
        }
    }
}

/// Where no two occurrences stand in different `impl` blocks, there is one finding for each
/// occurrence but the first of each key.
pub proof fn law_number_of_findings_in_one_block(occurrences: Seq<KeyOccurrenceView>)
    requires
        forall|i: int, j: int|
            0 <= i < j < occurrences.len() ==> !in_different_blocks(
                #[trigger] occurrences[i],
                #[trigger] occurrences[j],
            ),
    ensures
        duplicate_key_findings(occurrences).len() + distinct_keys(occurrences).len()
            == occurrences.len(),
    decreases occurrences.len(),
{
    law_number_of_findings(occurrences);
    if occurrences.len() > 0 {
        let shorter = occurrences.drop_last();
        let o = occurrences.last();
        let n = occurrences.len() - 1;
        assert forall|i: int, j: int| 0 <= i < j < shorter.len() implies !in_different_blocks(
            #[trigger] shorter[i],
            #[trigger] shorter[j],
        ) by {
            assert(shorter[i] == occurrences[i] && shorter[j] == occurrences[j]);
        }
        law_number_of_findings_in_one_block(shorter);
        law_number_of_findings(shorter);
        lemma_distinct_keys_contains(shorter, o.key);
        if is_repeat(occurrences, n) {
            let i = choose|i: int| #[trigger] repeats_at(occurrences, i, n);
            assert(shorter[i] == occurrences[i]);
            lemma_occurred_before(shorter, i);
        }
        if distinct_keys(shorter).contains(o.key) {
            let same = |p: KeyOccurrenceView| p.key == o.key;
            let found = shorter.filter(same);
            shorter.lemma_filter_contains_rev(same, found[0]);
            shorter.lemma_filter_pred(same, 0);
            let i = choose|i: int| 0 <= i < shorter.len() && shorter[i] == found[0];
            assert(occurrences[i] == shorter[i]);
            assert(!in_different_blocks(occurrences[i], occurrences[n]));
            assert(repeats_at(occurrences, i, n));
        }
    }
}

/// Whether there are keys at two visits of the walk over a file, the same one, in that order and
/// not in different `impl` blocks.
pub open spec fn keys_collide(file: File, i: int, j: int) -> bool {
    let walk = file_visits(file);
    &&& 0 <= i < j < walk.len()
    &&& key_of(walk[i].node) matches Some((first, _))
    &&& key_of(walk[j].node) matches Some((second, _))
    &&& first == second
    &&& !in_different_blocks(key_at(walk[i])[0], key_at(walk[j])[0])
}

/// The occurrence at a place in what is gathered is that of some visit, and those before it are
/// of the visits before that.
proof fn lemma_occurrence_of_visit(walk: Seq<Visit>, b: int) -> (j: int)
    requires
        0 <= b < gather(walk, key_rule()).len(),
    ensures
        0 <= j < walk.len(),
        gather(walk.take(j), key_rule()) == gather(walk, key_rule()).take(b),
        key_at(walk[j]) == seq![gather(walk, key_rule())[b]],
    decreases walk.len(),
{
    let all = gather(walk, key_rule());
    let shorter = walk.drop_last();
    let before = gather(shorter, key_rule());
    if b < before.len() {
        let j = lemma_occurrence_of_visit(shorter, b);
        assert(shorter.take(j) == walk.take(j));
        assert(all.take(b) == before.take(b));
        j
    } else {
        let j = walk.len() - 1;
        assert(walk.take(j) == shorter);
        assert(key_rule()(walk.last()) == key_at(walk.last()));
        assert(all.take(b) == before);
        assert(key_at(walk[j]) == seq![all[b]]);
        j
    }
}

/// A key in a file is reported if and only if the same key stands earlier in the file, not in a
/// different `impl` block, whichever of `symbol_short!` and `Symbol::new` either is written with,
/// at whatever depth.
pub proof fn law_collisions_in_a_file(file: File, f: FindingView)
    ensures
        SymbolKeyCollisionCheck.spec_findings(file).contains(f) <==> exists|i: int, j: int|
            #[trigger] keys_collide(file, i, j) && f == duplicate_finding(
                key_at(file_visits(file)[j])[0],
            ),
{
    let walk = file_visits(file);
    let all = key_occurrences(file);
    law_reported_if_key_occurred_before(all, f);
    if SymbolKeyCollisionCheck.spec_findings(file).contains(f) {
        let (a, b) = choose|a: int, b: int| #[trigger]
            repeats_at(all, a, b) && f == duplicate_finding(all[b]);
        let j = lemma_occurrence_of_visit(walk, b);
        assert(all.take(b)[a] == all[a]);
        assert(gather(walk.take(j), key_rule()).contains(all[a]));
        lemma_gather_contains(walk.take(j), key_rule(), all[a]);
        let i = choose|i: int|
            0 <= i < walk.take(j).len() && key_rule()(#[trigger] walk.take(j)[i]).contains(all[a]);
        assert(walk.take(j)[i] == walk[i]);
        assert(key_at(walk[i]).contains(all[a]));
        assert(key_at(walk[i])[0] == all[a]);
        assert(key_at(walk[j])[0] == all[b]);
        assert(key_of(walk[i].node) == Some((all[a].key, all[a].start)));
        assert(key_of(walk[j].node) == Some((all[b].key, all[b].start)));
        assert(keys_collide(file, i, j));
    }
    if exists|i: int, j: int| #[trigger]
        keys_collide(file, i, j) && f == duplicate_finding(key_at(walk[j])[0]) {
        let (i, j) = choose|i: int, j: int| #[trigger]
            keys_collide(file, i, j) && f == duplicate_finding(key_at(walk[j])[0]);
        let first = key_at(walk[i])[0];
        let second = key_at(walk[j])[0];
        let before = gather(walk.take(j), key_rule());
        assert(walk.take(j)[i] == walk[i]);
        assert(key_at(walk[i])[0] == first);
        assert(key_rule()(walk.take(j)[i]).contains(first));
        lemma_gather_contains(walk.take(j), key_rule(), first);
        let a = choose|a: int| 0 <= a < before.len() && before[a] == first;
        assert(walk == walk.take(j) + walk.skip(j));
        lemma_gather_add(walk.take(j), walk.skip(j), key_rule());
        let rest = walk.skip(j);
        assert(rest == seq![walk[j]] + rest.skip(1));
        lemma_gather_add(seq![walk[j]], rest.skip(1), key_rule());
        lemma_gather_one(walk[j], key_rule());
        let b = before.len() as int;
        assert(all[a] == first);
        assert(all[b] == second);
        assert(repeats_at(all, a, b));
    }
}

/// Whether none of the nodes names the keys inside it.
pub open spec fn names_no_owner(nodes: Seq<Node>) -> bool {
    forall|i: int| 0 <= i < nodes.len() ==> owner_name(#[trigger] nodes[i]) is None
}

/// A key inside a method or constant, with no other method or constant in between, has the owner
/// that it names.
pub proof fn law_owner_deep_inside_a_node(within: Seq<Node>, n: Node, between: Seq<Node>)
    requires
        names_no_owner(between),
    ensures
        innermost_owner(within.push(n) + between) == innermost_owner(within.push(n)),
    decreases between.len(),
{
    let line = within.push(n) + between;
    if between.len() == 0 {
        assert(line == within.push(n));
    } else {
        let shorter = between.drop_last();
        assert forall|i: int| 0 <= i < shorter.len() implies owner_name(
            #[trigger] shorter[i],
        ) is None by {
            assert(shorter[i] == between[i]);
        }
        law_owner_deep_inside_a_node(within, n, shorter);
        assert(line.drop_last() == within.push(n) + shorter);
        assert(line.last() == between[between.len() - 1]);
    }
}

/// What the walk over a constant adds to the keys collected before it: for each key, the earlier
/// occurrences stay in front, and those added in the constant, with no method or other constant
/// in between, have the owner `const NAME`. The keys after the constant are collected as if it
/// were not there: the owner outside of it is what it was.
pub proof fn law_walk_of_a_constant(
    before: Seq<KeyOccurrenceView>,
    c: ItemConst,
    after: Seq<Node>,
    within: Seq<Node>,
)
    ensures
        forall|key: Seq<char>| #[trigger]
            occurrences_of(before, key).is_prefix_of(
                occurrences_of(
                    before + gather(visits(Node::Const(c), within), key_rule()),
                    key,
                ),
            ),
        forall|v: Visit, o: KeyOccurrenceView|
            #![trigger visits(Node::Const(c), within).contains(v), key_at(v).contains(o)]
            visits(Node::Const(c), within).contains(v) && key_at(v).contains(o) && names_no_owner(
                v.within.skip(within.len() as int + 1),
            ) ==> o.owner == "const "@ + c.ident@,
        gather(visits_all(seq![Node::Const(c)] + after, within), key_rule()) == gather(
            visits(Node::Const(c), within),
            key_rule(),
        ) + gather(visits_all(after, within), key_rule()),
{
    let n = Node::Const(c);
    let walk = visits(n, within);
    let added = gather(walk, key_rule());
    assert forall|key: Seq<char>| #[trigger]
        occurrences_of(before, key).is_prefix_of(occurrences_of(before + added, key)) by {
        Seq::filter_distributes_over_add(before, added, |o: KeyOccurrenceView| o.key == key);
    }
    assert forall|v: Visit, o: KeyOccurrenceView|
        #![trigger visits(Node::Const(c), within).contains(v), key_at(v).contains(o)]
        visits(Node::Const(c), within).contains(v) && key_at(v).contains(o) && names_no_owner(
            v.within.skip(within.len() as int + 1),
        ) implies o.owner == "const "@ + c.ident@ by {
        let between = v.within.skip(within.len() as int + 1);
        lemma_visits_at_or_inside(n, within, v);
        assert(v.node != n);
        assert(v.within == within.push(n) + between);
        law_owner_deep_inside_a_node(within, n, between);
        law_owner_inside_a_node(within, n);
    }
    let one = seq![n];
    assert(one.take(0) == Seq::<Node>::empty() && one.take(1) == one);
    lemma_visits_all_next(one, within, 0);
    assert(visits_all(one, within) == walk);
    lemma_visits_all_add(one, after, within);
    lemma_gather_add(walk, visits_all(after, within), key_rule());
}

/// Every finding is of this check, of medium severity, says where it is, leaves the path of the
/// file to the caller, and says how to mend the problem.
pub proof fn law_shape_of_findings(file: File, f: FindingView)
    requires
        SymbolKeyCollisionCheck.spec_findings(file).contains(f),
    ensures
        f.check_name == SymbolKeyCollisionCheck.spec_name(),
        f.severity == Severity::Medium,
        f.file_path.len() == 0,
        f.function_name.len() > 0,
        f.rule_url is Some,
        f.suggestion is Some,
{
    law_collisions_in_a_file(file, f);
    reveal_strlit("module level");
}

/// A `Symbol::new` call has a key if and only if its second argument is a string literal. The key
/// is what the literal stands for, of whatever length and characters, at the start of the call.
pub proof fn law_keys_of_symbol_new(c: ExprCall)
    ensures
        is_symbol_new(*c.func) && c.args@.len() >= 2 && c.args@[1] is Lit
            && c.args@[1]->Lit_0.lit is Str ==> key_of(Node::Call(c)) == Some(
            (c.args@[1]->Lit_0.lit->Str_0@, c.start),
        ),
        !is_symbol_new(*c.func) || c.args@.len() < 2 || c.args@[1] !is Lit
            || c.args@[1]->Lit_0.lit is Other ==> key_of(Node::Call(c)) is None,
{
}

/// A macro call has a key if and only if the last segment of its path is `symbol_short` and its
/// tokens are a single string literal. The key is what the literal stands for, of whatever length
/// and characters, at the start of the call.
pub proof fn law_keys_of_symbol_short(m: Macro, key: Seq<char>)
    ensures
        key_of(Node::Macro(m)) == Some((key, m.start)) <==> parsed_literal(m.tokens@) == Some(
            Some(key),
        ) && exists|lead: Seq<Seq<char>>| texts(m.path@) == #[trigger] lead.push("symbol_short"@),
        key_of(Node::Macro(m)) matches Some((_, start)) ==> start == m.start,
{
    law_identifiers_and_ends(m.path@, "symbol_short"@);
}

/// Nothing else has a key.
pub proof fn law_only_symbol_calls_have_keys(n: Node)
    ensures
        n !is Call && n !is Macro ==> key_of(n) is None,
{
}

/// How a key is written does not matter: a `symbol_short!` call and a `Symbol::new` call whose
/// literals stand for the same string have the same key.
pub proof fn law_both_ways_to_write_a_key_are_alike(m: Macro, c: ExprCall, s: String)
    requires
        ends_with(m.path@, "symbol_short"@),
        parsed_literal(m.tokens@) == Some(Some(s@)),
        is_symbol_new(*c.func),
        c.args@.len() >= 2,
        c.args@[1] matches Node::Lit(l) && l.lit == Lit::Str(s),
    ensures
        key_of(Node::Macro(m)) == Some((s@, m.start)),
        key_of(Node::Call(c)) == Some((s@, c.start)),
{
}

/// A key belongs to the last method or constant around it: to a method by its name, to a constant
/// by `const` and its name, and to none if there is neither.
pub proof fn law_owner_is_the_last_one_around(within: Seq<Node>, k: int)
    requires
        -1 <= k < within.len(),
        forall|j: int|
            k < j < within.len() ==> !(#[trigger] within[j] is ImplFn) && !(within[j] is Const),
        k >= 0 ==> within[k] is ImplFn || within[k] is Const,
    ensures
        k < 0 ==> innermost_owner(within).len() == 0,
        k >= 0 && within[k] is ImplFn ==> innermost_owner(within) == within[k]->ImplFn_0.ident@,
        k >= 0 && within[k] is Const ==> innermost_owner(within) == "const "@
            + within[k]->Const_0.ident@,
    decreases within.len(),
{
    if within.len() > 0 && k < within.len() - 1 {
        let outer = within.drop_last();
        assert(!(within[within.len() - 1] is ImplFn));
        assert forall|j: int| k < j < outer.len() implies !(#[trigger] outer[j] is ImplFn) && !(
        outer[j] is Const) by {
            assert(outer[j] == within[j]);
        }
        if k >= 0 {
            assert(outer[k] == within[k]);
        }
        law_owner_is_the_last_one_around(outer, k);
    }
}

/// A key is in the first `impl` block around it, by where that starts, and in none if there is
/// none.
pub proof fn law_block_is_the_first_one_around(within: Seq<Node>, k: int)
    requires
        0 <= k <= within.len(),
        forall|j: int| 0 <= j < k ==> !(#[trigger] within[j] is Impl),
        k < within.len() ==> within[k] is Impl,
    ensures
        outermost_block(within) == if k < within.len() {
            Some(within[k]->Impl_0.start)
        } else {
            None
        },
    decreases within.len(),
{
    if within.len() > 0 {
        let outer = within.drop_last();
        let last = within.len() - 1;
        if k < last {
            assert(outer[k] == within[k]);
        }
        let l = if k < last {
            k
        } else {
            last
        };
        assert forall|j: int| 0 <= j < l implies !(#[trigger] outer[j] is Impl) by {
            assert(outer[j] == within[j]);
        }
        law_block_is_the_first_one_around(outer, l);
        if k > last {
            assert(!(within[last] is Impl));
        }
    }
}

/// What is kept of a key: the key itself, where it starts, and the owner and block that the nodes
/// around it give it.
pub proof fn law_what_is_kept_of_a_key(v: Visit)
    ensures
        key_at(v).len() == if key_of(v.node) is Some {
            1nat
        } else {
            0nat
        },
        key_of(v.node) matches Some((key, start)) ==> {
            &&& key_at(v)[0].key == key
            &&& key_at(v)[0].start == start
            &&& key_at(v)[0].owner == innermost_owner(v.within)
            &&& key_at(v)[0].block == outermost_block(v.within)
        },
{
}

/// Nothing of an occurrence is lost in its contents.
pub proof fn law_contents_of_an_occurrence(o: KeyOccurrence)
    ensures
        o@.key == o.key@,
        o@.start == o.start,
        o@.owner == o.owner@,
        o@.block == o.block,
        occurrence_views(seq![o]) == seq![o@],
{
    assert(occurrence_views(seq![o]) =~= seq![o@]);
}

/// The keys of a file are those at each visit of the walk over it, in order, and its findings are
/// those for these keys: none is left out, none comes twice.
pub proof fn law_keys_visit_by_visit(file: File)
    ensures
        SymbolKeyCollisionCheck.spec_name() == "symbol-key-collision"@,
        key_occurrences(file) == file_visits(file).map_values(|v: Visit| key_at(v)).flatten(),
        SymbolKeyCollisionCheck.spec_findings(file) == duplicate_key_findings(
            file_visits(file).map_values(|v: Visit| key_at(v)).flatten(),
        ),
{
    let walk = file_visits(file);
    lemma_gather_strings_together(walk, key_rule(), walk.map_values(|v: Visit| key_at(v)));
}

/// Two occurrences are in different blocks if and only if each is in one and these start at
/// different places. A key outside of blocks is in none that differs from another.
pub proof fn law_different_blocks_start_apart(a: KeyOccurrenceView, b: KeyOccurrenceView)
    ensures
        in_different_blocks(a, b) <==> {
            &&& a.block matches Some(p)
            &&& b.block matches Some(q)
            &&& p.line != q.line || p.column != q.column
        },
{
}

/// Whether the same key has occurred before an occurrence, in the same block, or with one of the
/// two in none.
pub open spec fn has_occurred_before(occurrences: Seq<KeyOccurrenceView>, j: int) -> bool {
    exists|i: int|
        0 <= i < j && (#[trigger] occurrences[i]).key == occurrences[j].key && {
            ||| occurrences[i].block == occurrences[j].block
            ||| occurrences[i].block is None
            ||| occurrences[j].block is None
        }
}

/// The finding for an occurrence of a key that has occurred before; none for other occurrences.
pub open spec fn reported_for(
    occurrences: Seq<KeyOccurrenceView>,
    key: Seq<char>,
    j: int,
) -> Seq<FindingView> {
    if occurrences[j].key == key && has_occurred_before(occurrences, j) {
        seq![duplicate_finding(occurrences[j])]
    } else {
        Seq::empty()
    }
}

/// The findings for one key: one for each occurrence of it that has occurred before, in order.
pub open spec fn reported_for_key(
    occurrences: Seq<KeyOccurrenceView>,
    key: Seq<char>,
) -> Seq<FindingView> {
    Seq::new(occurrences.len(), |j: int| reported_for(occurrences, key, j)).flatten()
}

/// The findings for some occurrences are those for each key: one for each occurrence of a key that
/// has occurred before, however far back, and none for any other.
pub proof fn law_findings_key_by_key(occurrences: Seq<KeyOccurrenceView>)
    ensures
        duplicate_key_findings(occurrences) == distinct_keys(occurrences).map_values(
            |key: Seq<char>| reported_for_key(occurrences, key),
        ).flatten(),
{
    let keys = distinct_keys(occurrences);
    lemma_repeats_of_keys_strung_together(
        occurrences,
        keys,
        keys.map_values(|key: Seq<char>| reported_for_key(occurrences, key)),
    );
}

/// The findings for some keys are those for each of them, in order.
proof fn lemma_repeats_of_keys_strung_together(
    occurrences: Seq<KeyOccurrenceView>,
    keys: Seq<Seq<char>>,
    parts: Seq<Seq<FindingView>>,
)
    requires
        parts.len() == keys.len(),
        forall|i: int|
            0 <= i < keys.len() ==> #[trigger] parts[i] == reported_for_key(occurrences, keys[i]),
    ensures
        repeats_of_keys(occurrences, keys) == parts.flatten(),
    decreases keys.len(),
{
    if keys.len() > 0 {
        let shorter = parts.drop_last();
        assert forall|i: int| 0 <= i < keys.len() - 1 implies #[trigger] shorter[i]
            == reported_for_key(occurrences, keys.drop_last()[i]) by {
            assert(shorter[i] == parts[i]);
        }
        lemma_repeats_of_keys_strung_together(occurrences, keys.drop_last(), shorter);
        shorter.lemma_flatten_and_flatten_alt_are_equivalent();
        lemma_repeats_of_one_key(occurrences, keys.last());
        assert(parts[parts.len() - 1] == reported_for_key(occurrences, keys[keys.len() - 1]));
    }
    parts.lemma_flatten_and_flatten_alt_are_equivalent();
}

/// An occurrence repeats an earlier one if and only if its key has occurred before.
proof fn lemma_repeat_has_occurred_before(occurrences: Seq<KeyOccurrenceView>, j: int)
    requires
        0 <= j < occurrences.len(),
    ensures
        is_repeat(occurrences, j) == has_occurred_before(occurrences, j),
{
    if is_repeat(occurrences, j) {
        let i = choose|i: int| #[trigger] repeats_at(occurrences, i, j);
        assert(occurrences[i].key == occurrences[j].key);
    }
    if has_occurred_before(occurrences, j) {
        let i = choose|i: int|
            0 <= i < j && (#[trigger] occurrences[i]).key == occurrences[j].key && {
                ||| occurrences[i].block == occurrences[j].block
                ||| occurrences[i].block is None
                ||| occurrences[j].block is None
            };
        assert(repeats_at(occurrences, i, j));
    }
}

/// The findings for the occurrences of one key are those at each of them.
proof fn lemma_repeats_of_one_key(occurrences: Seq<KeyOccurrenceView>, key: Seq<char>)
    ensures
        repeats(occurrences_of(occurrences, key)) == reported_for_key(occurrences, key),
    decreases occurrences.len(),
{
    let parts = Seq::new(occurrences.len(), |j: int| reported_for(occurrences, key, j));
    if occurrences.len() > 0 {
        let shorter = occurrences.drop_last();
        let n = occurrences.len() - 1;
        let before = Seq::new(shorter.len(), |j: int| reported_for(shorter, key, j));
        lemma_repeats_of_one_key(shorter, key);
        assert(shorter == occurrences.take(n));
        assert forall|j: int| 0 <= j < n implies #[trigger] before[j] == parts[j] by {
            lemma_is_repeat_prefix(occurrences, n, j);
            lemma_repeat_has_occurred_before(occurrences, j);
            lemma_repeat_has_occurred_before(shorter, j);
            assert(shorter[j] == occurrences[j]);
        }
        assert(parts.drop_last() =~= before);
        lemma_repeat_has_occurred_before(occurrences, n);
        if occurrences.last().key == key {
            lemma_last_repeats(occurrences);
            assert(occurrences_of(occurrences, key).drop_last() == occurrences_of(shorter, key));
        } else {
            assert(occurrences_of(occurrences, key) == occurrences_of(shorter, key)) by {
                reveal(Seq::filter);
            }
        }
        before.lemma_flatten_and_flatten_alt_are_equivalent();
        parts.lemma_flatten_and_flatten_alt_are_equivalent();
        assert(parts.flatten_alt() == before.flatten_alt() + reported_for(occurrences, key, n));
    } else {
        reveal(Seq::filter);
    }
}

/// The distinct keys are those that occur, each once, in the order in which they first occur.
pub proof fn law_distinct_keys_by_first_occurrence(occurrences: Seq<KeyOccurrenceView>)
    ensures
        forall|key: Seq<char>| #[trigger]
            distinct_keys(occurrences).contains(key) <==> exists|i: int|
                0 <= i < occurrences.len() && (#[trigger] occurrences[i]).key == key,
        distinct_keys(occurrences).no_duplicates(),
        forall|a: int, b: int|
            0 <= a < b < distinct_keys(occurrences).len() ==> first_occurs_ahead(
                occurrences,
                #[trigger] distinct_keys(occurrences)[a],
                #[trigger] distinct_keys(occurrences)[b],
            ),
    decreases occurrences.len(),
{
    let keys = distinct_keys(occurrences);
    lemma_distinct_keys_differ(occurrences);
    assert forall|key: Seq<char>| #[trigger] keys.contains(key) <==> exists|i: int|
        0 <= i < occurrences.len() && (#[trigger] occurrences[i]).key == key by {
        lemma_distinct_keys_contains(occurrences, key);
        if keys.contains(key) {
            let found = occurrences_of(occurrences, key);
            let same = |o: KeyOccurrenceView| o.key == key;
            assert(found.contains(found[0]));
            occurrences.lemma_filter_contains_rev(same, found[0]);
            occurrences.lemma_filter_pred(same, 0);
        }
        if exists|i: int| 0 <= i < occurrences.len() && (#[trigger] occurrences[i]).key == key {
            let i = choose|i: int|
                0 <= i < occurrences.len() && (#[trigger] occurrences[i]).key == key;
            lemma_occurred_before(occurrences, i);
        }
    }
    if occurrences.len() > 0 {
        let shorter = occurrences.drop_last();
        let before = distinct_keys(shorter);
        law_distinct_keys_by_first_occurrence(shorter);
        assert forall|a: int, b: int| 0 <= a < b < keys.len() implies first_occurs_ahead(
            occurrences,
            #[trigger] keys[a],
            #[trigger] keys[b],
        ) by {
            assert(keys[a] == before[a]);
            if b < before.len() {
                assert(keys[b] == before[b]);
                assert(first_occurs_ahead(shorter, before[a], before[b]));
                let i = choose|i: int|
                    0 <= i < shorter.len() && (#[trigger] shorter[i]).key == before[a] && forall|
                        j: int,
                    |
                        0 <= j < i ==> (#[trigger] shorter[j]).key != before[b];
                assert(occurrences[i] == shorter[i]);
                assert forall|j: int| 0 <= j < i implies (#[trigger] occurrences[j]).key
                    != keys[b] by {
                    assert(occurrences[j] == shorter[j]);
                }
            } else {
                assert(before.contains(before[a]));
                let i = choose|i: int|
                    0 <= i < shorter.len() && (#[trigger] shorter[i]).key == before[a];
                assert(occurrences[i] == shorter[i]);
                assert forall|j: int| 0 <= j < i implies (#[trigger] occurrences[j]).key
                    != keys[b] by {
                    assert(occurrences[j] == shorter[j]);
                    if shorter[j].key == keys[b] {
                        assert(before.contains(keys[b]));
                    }
                }
            }
        }
    }
}

/// Whether a key occurs with no occurrence of another one ahead of it.
pub open spec fn first_occurs_ahead(
    occurrences: Seq<KeyOccurrenceView>,
    key: Seq<char>,
    other: Seq<char>,
) -> bool {
    exists|i: int|
        0 <= i < occurrences.len() && (#[trigger] occurrences[i]).key == key && forall|j: int|
            0 <= j < i ==> (#[trigger] occurrences[j]).key != other
}

/// A finding names the check, the line and column of the key, the key itself and its owner, and
/// says in full what is wrong and how to mend it.
pub proof fn law_what_a_finding_says(o: KeyOccurrenceView)
    ensures
        duplicate_finding(o).check_name == "symbol-key-collision"@,
        duplicate_finding(o).severity == Severity::Medium,
        duplicate_finding(o).file_path == ""@,
        duplicate_finding(o).line == o.start.line,
        o.owner != ""@ ==> duplicate_finding(o).function_name == o.owner,
        o.owner == ""@ ==> duplicate_finding(o).function_name == "module level"@,
        duplicate_finding(o).description == "Duplicate symbol key `"@ + o.key
            + "` found at position "@ + decimal_chars(o.start.column as nat),
        duplicate_finding(o).rule_url == Some(
            "https://github.com/SorobanGuard/Guard-CLI/blob/main/docs/checks.md#symbol-key-collision-medium"@,
        ),
        duplicate_finding(o).suggestion == Some(
            "Rename one of the duplicate `symbol_short!(\""@ + o.key
                + "\")` / `Symbol::new(…, \""@ + o.key
                + "\")` usages to a unique key to avoid accidental storage slot collisions."@,
        ),
{
    reveal_strlit("");
    assert(""@ =~= Seq::<char>::empty());
    assert(o.owner.len() == 0 ==> o.owner =~= ""@);
}

} // verus!
