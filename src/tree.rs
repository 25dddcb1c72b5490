//! The document tree: element and text nodes, their mathematical model, and
//! the canonical markup that writes a tree back out.

use vstd::prelude::*;
use crate::text::push_char;

verus! {

/// A node of the document: an element with its children, or a run of text.
#[derive(Debug, PartialEq, Eq)]
pub struct Node {
    pub children: Vec<Node>,
    pub node_type: NodeType,
}

/// What a node holds besides its children.
#[derive(Debug, PartialEq, Eq)]
pub enum NodeType {
    Element(ElementData),
    Text(String),
}

/// The data of an element: its tag name, without the angle brackets.
#[derive(Debug, PartialEq, Eq)]
pub struct ElementData {
    pub tag_name: String,
}

/// The model of a node's payload.
pub enum Payload {
    Element(Seq<char>),
    Text(Seq<char>),
}

/// The model of a node: its children in order and its payload.
pub struct Tree {
    pub children: Seq<Tree>,
    pub payload: Payload,
}

impl NodeType {
    /// The model of this payload.
    pub open spec fn model(&self) -> Payload {
        match self {
            NodeType::Element(d) => Payload::Element(d.tag_name@),
            NodeType::Text(t) => Payload::Text(t@),
        }
    }
}

impl Node {
    /// The model of this node and, through its children, of its subtree.
    pub open spec fn model(&self) -> Tree
        decreases self,
    {
        Tree {
            children: Seq::new(
                self.children@.len(),
                |i: int|
                    if 0 <= i < self.children@.len() {
                        self.children@[i].model()
                    } else {
                        arbitrary()
                    },
            ),
            payload: self.node_type.model(),
        }
    }
}

/// The models of a sequence of nodes.
pub open spec fn models(s: Seq<Node>) -> Seq<Tree> {
    Seq::new(s.len(), |i: int| s[i].model())
}

/// The canonical markup of a tree: an element as `<name>`, its children and
/// `</name>`; a text node as its content.
pub open spec fn markup_of(t: Tree) -> Seq<char>
    decreases t, 0int,
{
    match t.payload {
        Payload::Element(name) => seq!['<'] + name + seq!['>'] + markup_from(t.children, 0)
            + seq!['<', '/'] + name + seq!['>'],
        Payload::Text(content) => content,
    }
}

/// The canonical markup of `ts[i..]`, one tree after another.
pub open spec fn markup_from(ts: Seq<Tree>, i: int) -> Seq<char>
    decreases ts, ts.len() - i,
{
    if 0 <= i < ts.len() {
        markup_of(ts[i]) + markup_from(ts, i + 1)
    } else {
        Seq::empty()
    }
}

/// The canonical markup of a sequence of trees.
pub open spec fn markup_all(ts: Seq<Tree>) -> Seq<char> {
    markup_from(ts, 0)
}

/// Appends the characters of `s` to `out`.
fn push_all(out: &mut String, s: &String)
    ensures
        final(out)@ == old(out)@ + s@,
{
    let v = crate::text::chars_of(s.as_str());
    let mut i: usize = 0;
    while i < v.len()
        invariant
            v@ == s@,
            0 <= i <= v@.len(),
            out@ == old(out)@ + v@.subrange(0, i as int),
        decreases v@.len() - i,
    {
        push_char(out, v[i]);
        assert(v@.subrange(0, i + 1) =~= v@.subrange(0, i as int).push(v@[i as int]));
        i = i + 1;
    }
    assert(v@.subrange(0, v@.len() as int) =~= v@);
}

/// Appends the canonical markup of `n` to `out`.
fn write_node(out: &mut String, n: &Node)
    ensures
        final(out)@ == old(out)@ + markup_of(n.model()),
    decreases n, 0int,
{
    match &n.node_type {
        NodeType::Element(d) => {
            push_char(out, '<');
            push_all(out, &d.tag_name);
            push_char(out, '>');
            write_nodes(out, &n.children);
            push_char(out, '<');
            push_char(out, '/');
            push_all(out, &d.tag_name);
            push_char(out, '>');
            assert(models(n.children@) =~= n.model().children);
        },
        NodeType::Text(t) => {
            push_all(out, t);
        },
    }
}

/// Appends the canonical markup of `ns`, in order, to `out`.
fn write_nodes(out: &mut String, ns: &Vec<Node>)
    ensures
        final(out)@ == old(out)@ + markup_all(models(ns@)),
    decreases ns, 0int,
{
    let mut k: usize = 0;
    while k < ns.len()
        invariant
            0 <= k <= ns@.len(),
            old(out)@ + markup_from(models(ns@), 0) == out@ + markup_from(models(ns@), k as int),
        decreases ns@.len() - k,
    {
        write_node(out, &ns[k]);
        k = k + 1;
    }
}

/// The canonical markup of `nodes`.
pub fn to_markup(nodes: &Vec<Node>) -> (r: String)
    ensures
        r@ == markup_all(models(nodes@)),
{
    let mut out = String::new();
    write_nodes(&mut out, nodes);
    out
}

} // verus!
