//! The syntax tree of a Rust source file, reduced to what the checks look at.
//!
//! Items, expressions and macro calls that a check asks about are nodes of their own kind.
//! Every other piece of syntax is a [`Node::Other`] or is left out, and the nodes found inside
//! it take its place. The order of nodes is that of a depth-first walk over the whole source:
//! the nodes of attributes, generics, types and patterns are kept too, in the `header` of the
//! node they belong to.

use vstd::prelude::*;

verus! {

/// A place in the source text.
#[derive(Clone, Copy, Debug, PartialEq, Eq, Structural)]
pub struct Position {
    /// Line, counted from 1.
    pub line: usize,
    /// Column in characters, counted from 0.
    pub column: usize,
}

/// The contents of an attribute. A path is the list of its segments.
#[derive(Debug)]
pub enum Meta {
    /// `test`
    Path(Vec<String>),
    /// `cfg(test)`
    List(MetaList),
    /// `doc = ".."`
    NameValue(Vec<String>),
}

/// An attribute with arguments in brackets.
#[derive(Debug)]
pub struct MetaList {
    pub path: Vec<String>,
    /// The arguments; none if they do not have the form of attribute contents.
    pub nested: Vec<Meta>,
}

/// A literal.
#[derive(Debug)]
pub enum Lit {
    /// A string literal, by the string it stands for.
    Str(String),
    /// Any other literal.
    Other,
}

impl View for Lit {
    /// The string that a string literal stands for.
    type V = Option<Seq<char>>;

    open spec fn view(&self) -> Option<Seq<char>> {
        match self {
            Lit::Str(s) => Some(s@),
            Lit::Other => None,
        }
    }
}

/// A source file.
#[derive(Debug)]
pub struct File {
    /// Nodes of the file's inner attributes.
    pub header: Vec<Node>,
    pub items: Vec<Node>,
}

/// `static X: T = e;` or `static mut X: T = e;`
#[derive(Debug)]
pub struct ItemStatic {
    pub mutable: bool,
    pub ident: String,
    /// Position of the identifier.
    pub start: Position,
    /// Nodes of the attributes, the type and the value.
    pub inner: Vec<Node>,
}

/// `const X: T = e;` outside of an `impl` or a `trait`.
#[derive(Debug)]
pub struct ItemConst {
    pub ident: String,
    /// Nodes of the attributes, the generics, the type and the value.
    pub inner: Vec<Node>,
}

/// `const X: T = e;` directly in an `impl`.
#[derive(Debug)]
pub struct ImplItemConst {
    pub ident: String,
    /// Nodes of the attributes, the generics, the type and the value.
    pub inner: Vec<Node>,
}

/// `mod m { .. }`
#[derive(Debug)]
pub struct ItemMod {
    pub attrs: Vec<Meta>,
    pub ident: String,
    /// Nodes of the attributes.
    pub header: Vec<Node>,
    pub items: Vec<Node>,
}

/// `impl T { .. }` or `impl Trait for T { .. }`
#[derive(Debug)]
pub struct ItemImpl {
    pub attrs: Vec<Meta>,
    /// Position of the first token, which no other block of the file has: it tells the blocks
    /// apart.
    pub start: Position,
    /// Nodes of the attributes, the generics, the trait and the type.
    pub header: Vec<Node>,
    pub items: Vec<Node>,
}

/// `fn f(..) { .. }` directly in an `impl`.
#[derive(Debug)]
pub struct ImplItemFn {
    pub attrs: Vec<Meta>,
    pub ident: String,
    /// Nodes of the attributes and the signature.
    pub header: Vec<Node>,
    /// Nodes of the body.
    pub block: Vec<Node>,
}

/// `receiver.method::<T>(args)`
#[derive(Debug)]
pub struct ExprMethodCall {
    /// Nodes of the attributes.
    pub header: Vec<Node>,
    pub receiver: Box<Node>,
    pub method: String,
    /// Nodes of the generic arguments.
    pub turbofish: Vec<Node>,
    /// The arguments, one node each.
    pub args: Vec<Node>,
    /// Position of the first token of the expression.
    pub start: Position,
}

/// `func(args)`
#[derive(Debug)]
pub struct ExprCall {
    /// Nodes of the attributes.
    pub header: Vec<Node>,
    pub func: Box<Node>,
    /// The arguments, one node each.
    pub args: Vec<Node>,
    /// Position of the first token of the expression.
    pub start: Position,
}

/// A path as an expression.
#[derive(Debug)]
pub struct ExprPath {
    pub segments: Vec<String>,
    /// Nodes of the attributes and the generic arguments.
    pub inner: Vec<Node>,
}

/// A literal as an expression.
#[derive(Debug)]
pub struct ExprLit {
    pub lit: Lit,
    /// Nodes of the attributes.
    pub inner: Vec<Node>,
}

/// `path!(tokens)`, wherever a macro can be called.
#[derive(Debug)]
pub struct Macro {
    pub path: Vec<String>,
    /// The text between the delimiters.
    pub tokens: String,
    /// Position of the first token of the path.
    pub start: Position,
    /// Nodes of the generic arguments of the path.
    pub inner: Vec<Node>,
}

/// A node of the syntax tree.
#[derive(Debug)]
pub enum Node {
    Static(ItemStatic),
    Const(ItemConst),
    Mod(ItemMod),
    Impl(ItemImpl),
    ImplConst(ImplItemConst),
    ImplFn(ImplItemFn),
    MethodCall(ExprMethodCall),
    Call(ExprCall),
    Path(ExprPath),
    Lit(ExprLit),
    Macro(Macro),
    /// An item or expression of another kind, with the nodes inside it.
    Other(Vec<Node>),
}

/// Puts a reference to each node of `nodes` behind those in `refs`.
fn push_refs<'a>(refs: &mut Vec<&'a Node>, nodes: &'a Vec<Node>)
    ensures
        final(refs)@.unref() == old(refs)@.unref() + nodes@,
{
    for i in 0..nodes.len()
        invariant
            refs@.unref() == old(refs)@.unref() + nodes@.take(i as int),
    {
        let ghost before = refs@.unref();
        refs.push(&nodes[i]);
        assert(refs@.unref() == before.push(nodes@[i as int]));
        assert(nodes@.take(i + 1) == nodes@.take(i as int).push(nodes@[i as int]));
    }
    assert(nodes@.take(nodes@.len() as int) == nodes@);
}

impl Node {
    /// The nodes directly inside a node, in the order of the walk.
    pub open spec fn spec_children(self) -> Seq<Node> {
        match self {
            Node::Static(i) => i.inner@,
            Node::Const(i) => i.inner@,
            Node::Mod(m) => m.header@ + m.items@,
            Node::Impl(i) => i.header@ + i.items@,
            Node::ImplConst(i) => i.inner@,
            Node::ImplFn(f) => f.header@ + f.block@,
            Node::MethodCall(m) => m.header@ + seq![*m.receiver] + m.turbofish@ + m.args@,
            Node::Call(c) => c.header@ + seq![*c.func] + c.args@,
            Node::Path(p) => p.inner@,
            Node::Lit(l) => l.inner@,
            Node::Macro(m) => m.inner@,
            Node::Other(nodes) => nodes@,
        }
    }

    /// The nodes directly inside a node, in the order of the walk.
    pub fn children(&self) -> (r: Vec<&Node>)
        ensures
            r@.unref() == self.spec_children(),
    {
        let mut refs: Vec<&Node> = Vec::new();
        match self {
            Node::Static(i) => push_refs(&mut refs, &i.inner),
            Node::Const(i) => push_refs(&mut refs, &i.inner),
            Node::Mod(m) => {
                push_refs(&mut refs, &m.header);
                push_refs(&mut refs, &m.items);
            },
            Node::Impl(i) => {
                push_refs(&mut refs, &i.header);
                push_refs(&mut refs, &i.items);
            },
            Node::ImplConst(i) => push_refs(&mut refs, &i.inner),
            Node::ImplFn(f) => {
                push_refs(&mut refs, &f.header);
                push_refs(&mut refs, &f.block);
            },
            Node::MethodCall(m) => {
                push_refs(&mut refs, &m.header);
                refs.push(&m.receiver);
                push_refs(&mut refs, &m.turbofish);
                push_refs(&mut refs, &m.args);
            },
            Node::Call(c) => {
                push_refs(&mut refs, &c.header);
                refs.push(&c.func);
                push_refs(&mut refs, &c.args);
            },
            Node::Path(p) => push_refs(&mut refs, &p.inner),
            Node::Lit(l) => push_refs(&mut refs, &l.inner),
            Node::Macro(m) => push_refs(&mut refs, &m.inner),
            Node::Other(nodes) => push_refs(&mut refs, nodes),
        }
        refs
    }
}

/// Everything that the fields of a node hold is directly inside it, in the order of the source
/// and with nothing else between: the receiver of a call ahead of its arguments, what belongs to
/// the head of an item ahead of its body.
pub proof fn law_children_hold_every_field(n: Node)
    ensures
        n matches Node::Static(i) ==> i.inner@ == n.spec_children(),
        n matches Node::Const(i) ==> i.inner@ == n.spec_children(),
        n matches Node::ImplConst(i) ==> i.inner@ == n.spec_children(),
        n matches Node::Path(p) ==> p.inner@ == n.spec_children(),
        n matches Node::Lit(l) ==> l.inner@ == n.spec_children(),
        n matches Node::Macro(m) ==> m.inner@ == n.spec_children(),
        n matches Node::Other(nodes) ==> nodes@ == n.spec_children(),
        n matches Node::Mod(m) ==> {
            &&& n.spec_children().len() == m.header@.len() + m.items@.len()
            &&& m.header@.is_prefix_of(n.spec_children())
            &&& m.items@.is_suffix_of(n.spec_children())
        },
        n matches Node::Impl(i) ==> {
            &&& n.spec_children().len() == i.header@.len() + i.items@.len()
            &&& i.header@.is_prefix_of(n.spec_children())
            &&& i.items@.is_suffix_of(n.spec_children())
        },
        n matches Node::ImplFn(f) ==> {
            &&& n.spec_children().len() == f.header@.len() + f.block@.len()
            &&& f.header@.is_prefix_of(n.spec_children())
            &&& f.block@.is_suffix_of(n.spec_children())
        },
        n matches Node::Call(c) ==> {
            &&& n.spec_children().len() == c.header@.len() + 1 + c.args@.len()
            &&& c.header@.is_prefix_of(n.spec_children())
            &&& n.spec_children()[c.header@.len() as int] == *c.func
            &&& c.args@.is_suffix_of(n.spec_children())
        },
        n matches Node::MethodCall(m) ==> {
            &&& n.spec_children().len() == m.header@.len() + 1 + m.turbofish@.len() + m.args@.len()
            &&& m.header@.is_prefix_of(n.spec_children())
            &&& n.spec_children()[m.header@.len() as int] == *m.receiver
            &&& (m.turbofish@ + m.args@).is_suffix_of(n.spec_children())
        },
{
    let children = n.spec_children();
    match n {
        Node::Mod(m) => {
            assert(children.take(m.header@.len() as int) == m.header@);
            assert(children.skip(m.header@.len() as int) == m.items@);
        },
        Node::Impl(i) => {
            assert(children.take(i.header@.len() as int) == i.header@);
            assert(children.skip(i.header@.len() as int) == i.items@);
        },
        Node::ImplFn(f) => {
            assert(children.take(f.header@.len() as int) == f.header@);
            assert(children.skip(f.header@.len() as int) == f.block@);
        },
        Node::Call(c) => {
            assert(children.take(c.header@.len() as int) == c.header@);
            assert(children.skip(c.header@.len() as int + 1) == c.args@);
        },
        Node::MethodCall(m) => {
            assert(children.take(m.header@.len() as int) == m.header@);
            assert(children.skip(m.header@.len() as int + 1) == m.turbofish@ + m.args@);
        },
        _ => {},
    }
}

/// A string literal stands for its own string, whatever that holds; no other literal stands for
/// one.
pub proof fn law_literals_stand_for_their_strings(lit: Lit)
    ensures
        lit matches Lit::Str(s) ==> lit@ == Some(s@),
        lit@ is None <==> lit is Other,
{
}

} // verus!
