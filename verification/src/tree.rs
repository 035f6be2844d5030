use vstd::prelude::*;

verus! {

/// A raw token from source text: the accumulated characters (index digits
/// plus the trailing operator character), and the source line it ended on
/// (diagnostic metadata only).
#[derive(Debug, PartialEq)]
pub struct Symbol {
    pub text: Vec<char>,
    pub line: i32,
}

/// A textual loop guard: the index digits as scanned, and whether the guard
/// was negated with `!`.
#[derive(Debug, PartialEq)]
pub struct Guard {
    pub text: Vec<char>,
    pub negated: bool,
}

/// A loop node: its guard list and the nested tree of its body.
#[derive(Debug, PartialEq)]
pub struct Loop {
    pub guard: Vec<Guard>,
    pub tree: Tree,
}

/// The syntax tree: an ordered sequence of nodes.
#[derive(Debug, PartialEq)]
pub struct Tree {
    pub nodes: Vec<Node>,
}

/// One node of the syntax tree: a raw symbol token, or a guarded loop.
#[derive(Debug, PartialEq)]
pub enum Node {
    Symbol(Symbol),
    Loop(Loop),
}

/// Structural size of a node, a termination measure for tree walks.
pub open spec fn node_size(n: Node) -> nat
    decreases n,
{
    match n {
        Node::Symbol(_) => 1,
        Node::Loop(l) => 1 + nodes_size(l.tree.nodes@),
    }
}

/// Total structural size of a sequence of nodes.
pub open spec fn nodes_size(ns: Seq<Node>) -> nat
    decreases ns,
{
    if ns.len() == 0 {
        0
    } else {
        node_size(ns[0]) + nodes_size(ns.skip(1))
    }
}

/// Each node of a sequence is no larger than the whole sequence.
pub proof fn lemma_nodes_size_elem(ns: Seq<Node>, i: int)
    requires
        0 <= i < ns.len(),
    ensures
        node_size(ns[i]) <= nodes_size(ns),
    decreases i,
{
    if i == 0 {
    } else {
        lemma_nodes_size_elem(ns.skip(1), i - 1);
        assert(ns.skip(1)[i - 1] == ns[i]);
    }
}

/// A well-formed node: every symbol token holds at least one character (its
/// trailing operator), recursively through loop bodies. The parser only
/// produces such trees.
pub open spec fn wf_node(n: Node) -> bool
    decreases n,
{
    match n {
        Node::Symbol(sym) => sym.text@.len() >= 1,
        Node::Loop(l) => wf_nodes(l.tree.nodes@),
    }
}

/// Well-formedness of a sequence of nodes.
pub open spec fn wf_nodes(ns: Seq<Node>) -> bool
    decreases ns,
{
    ns.len() == 0 || (wf_node(ns[0]) && wf_nodes(ns.skip(1)))
}

/// Each node of a well-formed sequence is well-formed.
pub proof fn lemma_wf_nodes_elem(ns: Seq<Node>, i: int)
    requires
        wf_nodes(ns),
        0 <= i < ns.len(),
    ensures
        wf_node(ns[i]),
    decreases i,
{
    if i == 0 {
    } else {
        lemma_wf_nodes_elem(ns.skip(1), i - 1);
        assert(ns.skip(1)[i - 1] == ns[i]);
    }
}

impl Tree {
    pub fn new(nodes: Vec<Node>) -> (r: Tree)
        ensures
            r == (Tree { nodes }),
    {
        Tree { nodes }
    }

    pub fn empty() -> (r: Tree)
        ensures
            r.nodes@ == Seq::<Node>::empty(),
    {
        Tree::new(Vec::new())
    }

    pub fn push(&mut self, node: Node)
        ensures
            final(self).nodes@ == old(self).nodes@.push(node),
    {
        self.nodes.push(node)
    }
}

/// Copies a string slice into its sequence of characters.
pub fn text_chars(s: &str) -> (v: Vec<char>)
    ensures
        v@ == s@,
{
    let n = s.unicode_len();
    let mut v: Vec<char> = Vec::new();
    let mut i: usize = 0;
    while i < n
        invariant
            n == s@.len(),
            i <= n,
            v@ == s@.take(i as int),
        decreases n - i,
    {
        let c = s.get_char(i);
        v.push(c);
        proof {
            assert(s@.take(i + 1) =~= s@.take(i as int).push(s@[i as int]));
        }
        i = i + 1;
    }
    proof {
        assert(s@.take(n as int) =~= s@);
    }
    v
}

pub fn new_tree(nodes: Vec<Node>) -> (r: Tree)
    ensures
        r == (Tree { nodes }),
{
    Tree::new(nodes)
}

pub fn new_symbol(text: &str, line: i32) -> (r: Node)
    ensures
        r matches Node::Symbol(sym) && sym.text@ == text@ && sym.line == line,
{
    Node::Symbol(Symbol { text: text_chars(text), line })
}

pub fn new_loop(guard: Vec<Guard>, tree: Tree) -> (r: Node)
    ensures
        r == Node::Loop((Loop { guard, tree })),
{
    Node::Loop(Loop { guard, tree })
}

pub fn new_guard(text: &str, negated: bool) -> (r: Guard)
    ensures
        r.text@ == text@,
        r.negated == negated,
{
    Guard { text: text_chars(text), negated }
}

pub fn new_exec(line: i32) -> (r: Node)
    ensures
        r matches Node::Symbol(sym) && sym.text@ == seq![';'] && sym.line == line,
{
    let mut text: Vec<char> = Vec::new();
    text.push(';');
    proof {
        assert(text@ =~= seq![';']);
    }
    Node::Symbol(Symbol { text, line })
}

} // verus!
