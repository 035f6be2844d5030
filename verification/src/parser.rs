use vstd::prelude::*;
use crate::tree::{
    lemma_nodes_size_elem, nodes_size, wf_node, wf_nodes, Guard, Loop, Node, Symbol, Tree,
    text_chars,
};

verus! {

/// A decimal digit of source text: only ASCII digits extend an index token
/// or a guard's index text.
pub open spec fn is_digit(c: char) -> bool {
    48 <= c as u32 <= 57
}

/// The source line counter after one newline (the counter wraps rather than
/// fail; it is diagnostic metadata only).
pub open spec fn next_line(line: i32) -> i32 {
    if line == i32::MAX {
        i32::MIN
    } else {
        (line + 1) as i32
    }
}

/// Clamps a scan position into a range, so that a recursive occurrence is
/// visibly in bounds; the relations below equate each position with its
/// clamped form, making the clamp the identity wherever they hold.
pub open spec fn cpos(j: int, lo: int, hi: int) -> int {
    if j < lo {
        lo
    } else if j > hi {
        hi
    } else {
        j
    }
}

/// The guard sub-scan, from position `i` just after a `{`, with `text` and
/// `negated` the pending guard accumulated so far. It relates the input to
/// the guard list `gs` produced and the position `j` just after the
/// terminating `|` (or the input's end, which drops the pending guard).
/// Spaces and tabs are skipped, `,` commits the pending guard, `!` sets the
/// negation flag, digits extend the pending text, and any other character
/// is silently ignored.
pub open spec fn guards_scan(
    s: Seq<char>,
    i: int,
    text: Seq<char>,
    negated: bool,
    gs: Seq<Guard>,
    j: int,
) -> bool
    decreases s.len() - i,
{
    if i < 0 || i > s.len() {
        false
    } else if i == s.len() {
        gs.len() == 0 && j == i
    } else {
        let c = s[i];
        if c == ' ' || c == '\t' {
            guards_scan(s, i + 1, text, negated, gs, j)
        } else if c == '|' {
            &&& gs.len() == 1
            &&& gs[0].text@ == text
            &&& gs[0].negated == negated
            &&& j == i + 1
        } else if c == '\n' {
            guards_scan(s, i + 1, text, negated, gs, j)
        } else if c == ',' {
            &&& gs.len() >= 1
            &&& gs[0].text@ == text
            &&& gs[0].negated == negated
            &&& guards_scan(s, i + 1, Seq::empty(), false, gs.skip(1), j)
        } else if c == '!' {
            guards_scan(s, i + 1, text, true, gs, j)
        } else if !is_digit(c) {
            guards_scan(s, i + 1, text, negated, gs, j)
        } else {
            guards_scan(s, i + 1, text.push(c), negated, gs, j)
        }
    }
}

/// The main scan, from position `i`, with `pending` the token characters
/// accumulated so far and `line` the current line counter. It relates the
/// input to the node sequence `ns` produced and the position `j` at which
/// the scan stopped: the input's end, or just after a closing `}` (which
/// ends one recursive scan and drops an unfinished pending token).
///
/// Spaces and tabs are skipped, a newline bumps the line counter, digits
/// extend the pending token, and any other non-structural character closes
/// it into a symbol node. `{` scans a guard list up to `|` and a nested body
/// up to `}`, producing a loop node; the pending token survives the loop
/// and continues accumulating after it.
pub open spec fn parses_to(
    s: Seq<char>,
    i: int,
    pending: Seq<char>,
    line: i32,
    ns: Seq<Node>,
    j: int,
) -> bool
    decreases s.len() - i,
{
    if i < 0 || i > s.len() {
        false
    } else if i == s.len() {
        ns.len() == 0 && j == i
    } else {
        let c = s[i];
        if c == ' ' || c == '\t' {
            parses_to(s, i + 1, pending, line, ns, j)
        } else if c == '\n' {
            parses_to(s, i + 1, pending, next_line(line), ns, j)
        } else if c == '{' {
            &&& ns.len() >= 1
            &&& ns[0] is Loop
            &&& exists|j1: int, j2: int|
                #![trigger cpos(j1, i + 1, s.len() as int), cpos(j2, j1, s.len() as int)]
                {
                    &&& j1 == cpos(j1, i + 1, s.len() as int)
                    &&& j2 == cpos(j2, j1, s.len() as int)
                    &&& guards_scan(s, i + 1, Seq::empty(), false, ns[0]->Loop_0.guard@, j1)
                    &&& parses_to(
                        s,
                        cpos(j1, i + 1, s.len() as int),
                        Seq::empty(),
                        line,
                        ns[0]->Loop_0.tree.nodes@,
                        j2,
                    )
                    &&& parses_to(s, cpos(j2, i + 1, s.len() as int), pending, line, ns.skip(1), j)
                }
        } else if c == '}' {
            ns.len() == 0 && j == i + 1
        } else if is_digit(c) {
            parses_to(s, i + 1, pending.push(c), line, ns, j)
        } else {
            &&& ns.len() >= 1
            &&& ns[0] is Symbol
            &&& ns[0]->Symbol_0.text@ == pending.push(c)
            &&& ns[0]->Symbol_0.line == line
            &&& parses_to(s, i + 1, Seq::empty(), line, ns.skip(1), j)
        }
    }
}

/// Scans a guard list: the executable mirror of `guards_scan`.
fn find_guard(s: &Vec<char>, i: usize, text: Vec<char>, negated: bool) -> (r: (Vec<Guard>, usize))
    requires
        i <= s@.len(),
    ensures
        guards_scan(s@, i as int, text@, negated, r.0@, r.1 as int),
        i <= r.1 <= s@.len(),
    decreases s@.len() - i,
{
    if i == s.len() {
        return (Vec::new(), i);
    }
    let c = s[i];
    if c == ' ' || c == '\t' {
        find_guard(s, i + 1, text, negated)
    } else if c == '|' {
        let mut gs: Vec<Guard> = Vec::new();
        gs.push(Guard { text, negated });
        (gs, i + 1)
    } else if c == '\n' {
        find_guard(s, i + 1, text, negated)
    } else if c == ',' {
        let committed = Guard { text, negated };
        let (mut gs, j) = find_guard(s, i + 1, Vec::new(), false);
        let ghost tail = gs@;
        gs.insert(0, committed);
        proof {
            assert(gs@[0] == committed);
            assert(gs@.skip(1) =~= tail);
        }
        (gs, j)
    } else if c == '!' {
        find_guard(s, i + 1, text, true)
    } else {
        let d = c as u32;
        if d < 48 || d > 57 {
            find_guard(s, i + 1, text, negated)
        } else {
            let mut t = text;
            t.push(c);
            find_guard(s, i + 1, t, negated)
        }
    }
}

/// Scans nodes from position `i`: the executable mirror of `parses_to`.
fn rparse(s: &Vec<char>, i: usize, pending: Vec<char>, line: i32) -> (r: (Vec<Node>, usize))
    requires
        i <= s@.len(),
    ensures
        parses_to(s@, i as int, pending@, line, r.0@, r.1 as int),
        i <= r.1 <= s@.len(),
        wf_nodes(r.0@),
    decreases s@.len() - i,
{
    if i == s.len() {
        return (Vec::new(), i);
    }
    let c = s[i];
    if c == ' ' || c == '\t' {
        rparse(s, i + 1, pending, line)
    } else if c == '\n' {
        let bumped = if line == i32::MAX {
            i32::MIN
        } else {
            line + 1
        };
        rparse(s, i + 1, pending, bumped)
    } else if c == '{' {
        let (gs, j1) = find_guard(s, i + 1, Vec::new(), false);
        let (body, j2) = rparse(s, j1, Vec::new(), line);
        let (mut rest, j3) = rparse(s, j2, pending, line);
        let ghost gs0 = gs@;
        let ghost body0 = body@;
        let ghost rest0 = rest@;
        let node = Node::Loop(Loop { guard: gs, tree: Tree { nodes: body } });
        rest.insert(0, node);
        proof {
            assert(rest@[0] == node);
            assert(rest@.skip(1) =~= rest0);
            assert(cpos(j1 as int, i + 1, s@.len() as int) == j1 as int);
            assert(cpos(j2 as int, j1 as int, s@.len() as int) == j2 as int);
            assert(cpos(j2 as int, i + 1, s@.len() as int) == j2 as int);
            assert(rest@[0]->Loop_0.guard@ == gs0);
            assert(rest@[0]->Loop_0.tree.nodes@ == body0);
            assert(guards_scan(
                s@,
                i + 1,
                Seq::<char>::empty(),
                false,
                rest@[0]->Loop_0.guard@,
                j1 as int,
            ));
            assert(parses_to(
                s@,
                cpos(j1 as int, i + 1, s@.len() as int),
                Seq::<char>::empty(),
                line,
                rest@[0]->Loop_0.tree.nodes@,
                j2 as int,
            ));
            assert(parses_to(
                s@,
                cpos(j2 as int, i + 1, s@.len() as int),
                pending@,
                line,
                rest@.skip(1),
                j3 as int,
            ));
            assert(parses_to(s@, i as int, pending@, line, rest@, j3 as int));
            assert(wf_node(node));
            assert(wf_nodes(rest@));
        }
        (rest, j3)
    } else if c == '}' {
        (Vec::new(), i + 1)
    } else {
        let d = c as u32;
        if d >= 48 && d <= 57 {
            let mut p = pending;
            p.push(c);
            rparse(s, i + 1, p, line)
        } else {
            let mut t = pending;
            t.push(c);
            let sym = Node::Symbol(Symbol { text: t, line });
            let (mut rest, j) = rparse(s, i + 1, Vec::new(), line);
            let ghost rest0 = rest@;
            rest.insert(0, sym);
            proof {
                assert(rest@[0] == sym);
                assert(rest@.skip(1) =~= rest0);
                assert(parses_to(s@, i as int, pending@, line, rest@, j as int));
                assert(wf_node(sym));
                assert(wf_nodes(rest@));
            }
            (rest, j)
        }
    }
}

/// Parses source text into a syntax tree, starting at line 1 with an empty
/// pending token. The scan ends at the input's end or at an unmatched `}`,
/// whose position the relation's final index records.
pub fn parse(input: String) -> (r: Tree)
    ensures
        exists|j: int|
            #![trigger cpos(j, 0, input@.len() as int)]
            {
                &&& j == cpos(j, 0, input@.len() as int)
                &&& parses_to(input@, 0, Seq::<char>::empty(), 1, r.nodes@, j)
            },
        wf_nodes(r.nodes@),
{
    let chars = text_chars(input.as_str());
    let (nodes, j) = rparse(&chars, 0, Vec::new(), 1);
    proof {
        assert(cpos(j as int, 0, input@.len() as int) == j as int);
        assert(parses_to(input@, 0, Seq::<char>::empty(), 1, nodes@, j as int));
    }
    Tree { nodes }
}

/// The rendering `debug` produces for a tree: the nodes' texts between
/// parentheses, separated by commas, with a nested loop rendered as its
/// body's tree.
pub open spec fn debug_tree(t: Tree) -> Seq<char>
    decreases t,
{
    seq!['('] + debug_nodes(t.nodes@, true) + seq![')']
}

/// The rendering of a node sequence; `first` tells whether a separator is
/// still owed before the next piece.
pub open spec fn debug_nodes(ns: Seq<Node>, first: bool) -> Seq<char>
    decreases ns,
{
    if ns.len() == 0 {
        Seq::empty()
    } else {
        let sep: Seq<char> = if first {
            Seq::empty()
        } else {
            seq![',', ' ']
        };
        let piece: Seq<char> = match ns[0] {
            Node::Symbol(sym) => sym.text@,
            Node::Loop(l) => debug_tree(l.tree),
        };
        sep + piece + debug_nodes(ns.skip(1), false)
    }
}

/// Renders a tree into characters: the executable mirror of `debug_tree`.
fn debug_chars(t: &Tree) -> (v: Vec<char>)
    ensures
        v@ == debug_tree(*t),
    decreases nodes_size(t.nodes@), t.nodes@.len() + 1,
{
    let mut out: Vec<char> = Vec::new();
    out.push('(');
    let mut rest = debug_nodes_chars(t, 0, true);
    out.append(&mut rest);
    out.push(')');
    proof {
        assert(t.nodes@.skip(0) =~= t.nodes@);
        assert(out@ =~= debug_tree(*t));
    }
    out
}

/// Renders the node suffix of a tree from position `k` on.
fn debug_nodes_chars(t: &Tree, k: usize, first: bool) -> (v: Vec<char>)
    requires
        k <= t.nodes@.len(),
    ensures
        v@ == debug_nodes(t.nodes@.skip(k as int), first),
    decreases nodes_size(t.nodes@), t.nodes@.len() - k,
{
    let mut out: Vec<char> = Vec::new();
    if k == t.nodes.len() {
        proof {
            assert(t.nodes@.skip(k as int) =~= Seq::<Node>::empty());
        }
        return out;
    }
    if !first {
        out.push(',');
        out.push(' ');
    }
    match &t.nodes[k] {
        Node::Symbol(sym) => {
            let mut piece = sym.text.clone();
            out.append(&mut piece);
        },
        Node::Loop(l) => {
            proof {
                lemma_nodes_size_elem(t.nodes@, k as int);
            }
            let mut piece = debug_chars(&l.tree);
            out.append(&mut piece);
        },
    }
    let mut rest = debug_nodes_chars(t, k + 1, false);
    out.append(&mut rest);
    proof {
        assert(t.nodes@.skip(k as int)[0] == t.nodes@[k as int]);
        assert(t.nodes@.skip(k as int).skip(1) =~= t.nodes@.skip(k + 1));
        assert(out@ =~= debug_nodes(t.nodes@.skip(k as int), first));
    }
    out
}

/// Renders a tree for inspection: each symbol's text in source order, nested
/// loops as parenthesized groups.
pub fn debug(tree: Tree) -> (r: String)
    ensures
        r@ == debug_tree(tree),
{
    let v = debug_chars(&tree);
    chars_to_string(&v)
}

/// Relies on `core::iter::Iterator::collect` through `String`'s
/// `FromIterator`: collecting copied characters yields the string of exactly
/// those characters, in order.
#[verifier::external_body]
fn chars_to_string(v: &Vec<char>) -> (r: String)
    ensures
        r@ == v@,
{
    v.iter().collect()
}

} // verus!
