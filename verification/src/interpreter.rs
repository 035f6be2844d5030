use vstd::prelude::*;

pub mod expression;

use crate::interpreter::expression::{Closure, Expression, Instruction};
use crate::parser::is_digit;
use crate::tree::{
    lemma_nodes_size_elem, lemma_wf_nodes_elem, node_size, wf_node, wf_nodes, Node, Tree,
};

verus! {

/// Whether every character of the text is a decimal digit.
pub open spec fn all_digits(t: Seq<char>) -> bool {
    forall|k: int| 0 <= k < t.len() ==> is_digit(#[trigger] t[k])
}

/// The number a digit string denotes, most significant digit first.
pub open spec fn digits_value(t: Seq<char>) -> int
    decreases t,
{
    if t.len() == 0 {
        0
    } else {
        digits_value(t.drop_last()) * 10 + (t.last() as u32 - 48)
    }
}

/// The index an instruction's or guard's text denotes: the denoted number
/// when the text is a nonempty digit string whose value fits the index
/// type, and the fallback default 0 otherwise (empty text, a stray
/// character, or a too-large number all degrade silently).
pub open spec fn parse_index(t: Seq<char>) -> u64 {
    if t.len() >= 1 && all_digits(t) && digits_value(t) <= u64::MAX {
        digits_value(t) as u64
    } else {
        0
    }
}

/// A digit string's value is never negative.
proof fn lemma_digits_value_nonneg(t: Seq<char>)
    requires
        all_digits(t),
    ensures
        digits_value(t) >= 0,
    decreases t.len(),
{
    if t.len() > 0 {
        assert(forall|k: int|
            0 <= k < t.drop_last().len() ==> is_digit(#[trigger] t.drop_last()[k]));
        lemma_digits_value_nonneg(t.drop_last());
    }
}

/// A digit string is worth at least any of its prefixes.
proof fn lemma_digits_value_mono(t: Seq<char>, k: int)
    requires
        all_digits(t),
        0 <= k <= t.len(),
    ensures
        digits_value(t.take(k)) <= digits_value(t),
    decreases t.len(),
{
    if k == t.len() {
        assert(t.take(k) =~= t);
    } else {
        assert(forall|m: int|
            0 <= m < t.drop_last().len() ==> is_digit(#[trigger] t.drop_last()[m]));
        lemma_digits_value_mono(t.drop_last(), k);
        assert(t.drop_last().take(k) =~= t.take(k));
        lemma_digits_value_nonneg(t.drop_last());
    }
}

/// Parses the first `end` characters of a text as an index, with the
/// silent fallback to 0 on empty text, a non-digit, or overflow.
fn parse_index_prefix(t: &Vec<char>, end: usize) -> (r: u64)
    requires
        end <= t@.len(),
    ensures
        r == parse_index(t@.take(end as int)),
{
    let ghost p = t@.take(end as int);
    if end == 0 {
        return 0;
    }
    let mut acc: u64 = 0;
    let mut i: usize = 0;
    while i < end
        invariant
            i <= end <= t@.len(),
            p == t@.take(end as int),
            all_digits(p.take(i as int)),
            acc == digits_value(p.take(i as int)),
        decreases end - i,
    {
        let c = t[i];
        let d = c as u32;
        proof {
            assert(p[i as int] == t@[i as int]);
        }
        if d < 48 || d > 57 {
            proof {
                assert(!is_digit(p[i as int]));
            }
            return 0;
        }
        let dv = (d - 48) as u64;
        proof {
            assert(p.take(i + 1).drop_last() =~= p.take(i as int));
            assert(p.take(i + 1).last() == p[i as int]);
        }
        if acc > (u64::MAX - dv) / 10 {
            proof {
                assert(digits_value(p.take(i + 1)) == acc * 10 + dv);
                assert(acc * 10 + dv > u64::MAX) by (nonlinear_arith)
                    requires
                        acc > (u64::MAX - dv) / 10,
                        dv <= 9,
                ;
                if all_digits(p) {
                    lemma_digits_value_mono(p, i + 1);
                }
            }
            return 0;
        }
        proof {
            assert(acc * 10 + dv <= u64::MAX) by (nonlinear_arith)
                requires
                    acc <= (u64::MAX - dv) / 10,
                    dv <= 9,
            ;
        }
        acc = acc * 10 + dv;
        i = i + 1;
    }
    proof {
        assert(p.take(end as int) =~= p);
    }
    acc
}

/// How a textual guard translates: its text parsed as an index (fallback
/// 0), the negation flag kept.
pub open spec fn guard_interprets(g: crate::tree::Guard, eg: expression::Guard) -> bool {
    eg.index == parse_index(g.text@) && eg.negated == g.negated
}

/// How a guard list translates: pointwise, in order.
pub open spec fn guards_interpret(gs: Seq<crate::tree::Guard>, egs: Seq<expression::Guard>) -> bool {
    &&& egs.len() == gs.len()
    &&& forall|k: int| 0 <= k < gs.len() ==> #[trigger] guard_interprets(gs[k], egs[k])
}

/// How a syntax-tree node translates into an expression. A symbol whose
/// last character is `;` is the execution trigger; any other symbol is an
/// instruction whose pool is that last character and whose index is the
/// rest of the token. A loop node translates its guards and its body.
pub open spec fn node_interprets(n: Node, e: Expression) -> bool
    decreases n,
{
    match n {
        Node::Symbol(sym) => {
            &&& sym.text@.len() >= 1
            &&& (sym.text@.last() == ';' ==> e == Expression::Exec)
            &&& (sym.text@.last() != ';' ==> e == Expression::Instruction(
                (Instruction {
                    index: parse_index(sym.text@.drop_last()),
                    pool: sym.text@.last(),
                }),
            ))
        },
        Node::Loop(l) => {
            &&& e is Loop
            &&& guards_interpret(l.guard@, e->Loop_0.guard@)
            &&& nodes_interpret(l.tree.nodes@, e->Loop_0.closure.parts@)
        },
    }
}

/// How a node sequence translates: element by element, in order.
pub open spec fn nodes_interpret(ns: Seq<Node>, ps: Seq<Expression>) -> bool
    decreases ns,
{
    &&& ns.len() == ps.len()
    &&& (ns.len() == 0 || (node_interprets(ns[0], ps[0]) && nodes_interpret(
        ns.skip(1),
        ps.skip(1),
    )))
}

/// Extends a translated sequence by one more node at the end.
proof fn lemma_nodes_interpret_snoc(ns: Seq<Node>, ps: Seq<Expression>, n: Node, e: Expression)
    requires
        nodes_interpret(ns, ps),
        node_interprets(n, e),
    ensures
        nodes_interpret(ns.push(n), ps.push(e)),
    decreases ns.len(),
{
    if ns.len() == 0 {
        assert(ns.push(n)[0] == n);
        assert(ps.push(e)[0] == e);
        assert(ns.push(n).skip(1) =~= Seq::<Node>::empty());
        assert(ps.push(e).skip(1) =~= Seq::<Expression>::empty());
        assert(nodes_interpret(Seq::<Node>::empty(), Seq::<Expression>::empty()));
    } else {
        lemma_nodes_interpret_snoc(ns.skip(1), ps.skip(1), n, e);
        assert(ns.push(n)[0] == ns[0]);
        assert(ps.push(e)[0] == ps[0]);
        assert(ns.push(n).skip(1) =~= ns.skip(1).push(n));
        assert(ps.push(e).skip(1) =~= ps.skip(1).push(e));
    }
}

/// An instruction expression translates a symbol whose last character is
/// not the execution trigger.
proof fn lemma_symbol_instruction_interprets(n: Node, e: Expression)
    requires
        n is Symbol,
        n->Symbol_0.text@.len() >= 1,
        n->Symbol_0.text@.last() != ';',
        e == Expression::Instruction(
            (Instruction {
                index: parse_index(n->Symbol_0.text@.drop_last()),
                pool: n->Symbol_0.text@.last(),
            }),
        ),
    ensures
        node_interprets(n, e),
{
}

/// Translates one node; symbols must hold their trailing operator
/// character (the parser guarantees this).
#[verifier::spinoff_prover]
pub fn rinterpret(n: &Node) -> (e: Expression)
    requires
        wf_node(*n),
    ensures
        node_interprets(*n, e),
    decreases node_size(*n),
{
    match n {
        Node::Symbol(sym) => {
            let len = sym.text.len();
            let pool = sym.text[len - 1];
            proof {
                assert(sym.text@.last() == sym.text@[len - 1]);
            }
            if pool == ';' {
                let e = Expression::Exec;
                proof {
                    assert(node_interprets(*n, e)) by {
                        assert(sym.text@.last() == ';');
                    }
                }
                e
            } else {
                let index = parse_index_prefix(&sym.text, len - 1);
                let e = Expression::Instruction(Instruction { index, pool });
                proof {
                    assert(sym.text@.take(len - 1) =~= sym.text@.drop_last());
                    lemma_symbol_instruction_interprets(*n, e);
                }
                e
            }
        },
        Node::Loop(l) => {
            let mut guards: Vec<expression::Guard> = Vec::new();
            let mut k: usize = 0;
            while k < l.guard.len()
                invariant
                    k <= l.guard@.len(),
                    guards@.len() == k,
                    forall|j: int|
                        0 <= j < k ==> #[trigger] guard_interprets(l.guard@[j], guards@[j]),
                decreases l.guard@.len() - k,
            {
                let g = &l.guard[k];
                let index = parse_index_prefix(&g.text, g.text.len());
                proof {
                    assert(g.text@.take(g.text@.len() as int) =~= g.text@);
                }
                guards.push(expression::Guard { index, negated: g.negated });
                k = k + 1;
            }
            let mut parts: Vec<Expression> = Vec::new();
            let mut m: usize = 0;
            while m < l.tree.nodes.len()
                invariant
                    m <= l.tree.nodes@.len(),
                    wf_nodes(l.tree.nodes@),
                    node_size(*n) == 1 + crate::tree::nodes_size(l.tree.nodes@),
                    n is Loop && n->Loop_0 == *l,
                    nodes_interpret(l.tree.nodes@.take(m as int), parts@),
                decreases l.tree.nodes@.len() - m,
            {
                proof {
                    lemma_wf_nodes_elem(l.tree.nodes@, m as int);
                    lemma_nodes_size_elem(l.tree.nodes@, m as int);
                }
                let sub = rinterpret(&l.tree.nodes[m]);
                proof {
                    lemma_nodes_interpret_snoc(
                        l.tree.nodes@.take(m as int),
                        parts@,
                        l.tree.nodes@[m as int],
                        sub,
                    );
                    assert(l.tree.nodes@.take(m + 1) =~= l.tree.nodes@.take(m as int).push(
                        l.tree.nodes@[m as int],
                    ));
                }
                parts.push(sub);
                m = m + 1;
            }
            proof {
                assert(l.tree.nodes@.take(l.tree.nodes@.len() as int) =~= l.tree.nodes@);
            }
            let e = Expression::Loop(expression::Loop { guard: guards, closure: Closure { parts } });
            proof {
                assert(e->Loop_0.guard@ == guards@);
                assert(e->Loop_0.closure.parts@ == parts@);
                assert(guards_interpret(l.guard@, e->Loop_0.guard@));
                assert(node_interprets(*n, e));
            }
            e
        },
    }
}

/// Translates a whole syntax tree into its executable closure, node by
/// node in source order. Translation is total: malformed index text
/// degrades to the default index 0 rather than failing.
pub fn interpret(tree: Tree) -> (r: Closure)
    requires
        wf_nodes(tree.nodes@),
    ensures
        nodes_interpret(tree.nodes@, r.parts@),
{
    let mut parts: Vec<Expression> = Vec::new();
    let mut m: usize = 0;
    while m < tree.nodes.len()
        invariant
            m <= tree.nodes@.len(),
            wf_nodes(tree.nodes@),
            nodes_interpret(tree.nodes@.take(m as int), parts@),
        decreases tree.nodes@.len() - m,
    {
        proof {
            lemma_wf_nodes_elem(tree.nodes@, m as int);
        }
        let sub = rinterpret(&tree.nodes[m]);
        proof {
            lemma_nodes_interpret_snoc(
                tree.nodes@.take(m as int),
                parts@,
                tree.nodes@[m as int],
                sub,
            );
            assert(tree.nodes@.take(m + 1) =~= tree.nodes@.take(m as int).push(
                tree.nodes@[m as int],
            ));
        }
        parts.push(sub);
        m = m + 1;
    }
    proof {
        assert(tree.nodes@.take(tree.nodes@.len() as int) =~= tree.nodes@);
    }
    Closure { parts }
}

} // verus!
