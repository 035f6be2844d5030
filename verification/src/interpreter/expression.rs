use vstd::prelude::*;

verus! {

/// One pool instruction: toggles `index`'s membership in the pool named by
/// the single-character identifier `pool`.
#[derive(Debug, PartialEq, Clone)]
pub struct Instruction {
    pub index: u64,
    pub pool: char,
}

/// A loop guard: the slot at `index` is read, nonzero counts as true, and
/// `negated` flips the truth value.
#[derive(Debug, PartialEq, Clone)]
pub struct Guard {
    pub index: u64,
    pub negated: bool,
}

/// The executable form of a program fragment: an ordered sequence of
/// expressions, run from first to last.
#[derive(Debug, PartialEq)]
pub struct Closure {
    pub parts: Vec<Expression>,
}

/// A guarded loop: the body repeats while every guard holds (the guard list
/// is a conjunction; an empty list is vacuously true).
#[derive(Debug, PartialEq)]
pub struct Loop {
    pub guard: Vec<Guard>,
    pub closure: Closure,
}

/// One step of a program: the execution trigger, a pool instruction, or a
/// guarded loop.
#[derive(Debug, PartialEq)]
pub enum Expression {
    Exec,
    Instruction(Instruction),
    Loop(Loop),
}

/// Structural size of an expression, used as a termination measure when
/// walking nested closures.
pub open spec fn expression_size(e: Expression) -> nat
    decreases e,
{
    match e {
        Expression::Exec => 1,
        Expression::Instruction(_) => 1,
        Expression::Loop(l) => 1 + closure_size(l.closure),
    }
}

/// Structural size of a closure: strictly larger than the size of any of its
/// parts.
pub open spec fn closure_size(c: Closure) -> nat
    decreases c,
{
    1 + parts_size(c.parts@)
}

/// Total structural size of a sequence of expressions.
pub open spec fn parts_size(s: Seq<Expression>) -> nat
    decreases s,
{
    if s.len() == 0 {
        0
    } else {
        expression_size(s[0]) + parts_size(s.skip(1))
    }
}

/// Each part of a sequence is no larger than the whole sequence.
pub proof fn lemma_parts_size_elem(s: Seq<Expression>, i: int)
    requires
        0 <= i < s.len(),
    ensures
        expression_size(s[i]) <= parts_size(s),
    decreases i,
{
    if i == 0 {
    } else {
        lemma_parts_size_elem(s.skip(1), i - 1);
        assert(s.skip(1)[i - 1] == s[i]);
    }
}

/// Whether some instruction anywhere in the expression names the pool
/// identifier `id`.
pub open spec fn expression_mentions(e: Expression, id: char) -> bool
    decreases e,
{
    match e {
        Expression::Exec => false,
        Expression::Instruction(i) => i.pool == id,
        Expression::Loop(l) => closure_mentions(l.closure, id),
    }
}

/// Whether some instruction anywhere in the closure names the pool
/// identifier `id`.
pub open spec fn closure_mentions(c: Closure, id: char) -> bool
    decreases c,
{
    parts_mention(c.parts@, id)
}

/// Whether some instruction in the sequence of expressions names `id`.
pub open spec fn parts_mention(s: Seq<Expression>, id: char) -> bool
    decreases s,
{
    if s.len() == 0 {
        false
    } else {
        expression_mentions(s[0], id) || parts_mention(s.skip(1), id)
    }
}

/// A pool named by any part of the sequence is named by the sequence.
pub proof fn lemma_parts_mention_elem(s: Seq<Expression>, i: int, id: char)
    requires
        0 <= i < s.len(),
        expression_mentions(s[i], id),
    ensures
        parts_mention(s, id),
    decreases i,
{
    if i == 0 {
    } else {
        lemma_parts_mention_elem(s.skip(1), i - 1, id);
        assert(s.skip(1)[i - 1] == s[i]);
    }
}

pub fn new_instruction(index: u64, pool: char) -> (r: Expression)
    ensures
        r == Expression::Instruction((Instruction { index, pool })),
{
    Expression::Instruction(Instruction { index, pool })
}

pub fn new_loop(guard: Vec<Guard>, closure: Closure) -> (r: Expression)
    ensures
        r == Expression::Loop((Loop { guard, closure })),
{
    Expression::Loop(Loop { guard, closure })
}

pub fn new_closure(parts: Vec<Expression>) -> (r: Closure)
    ensures
        r == (Closure { parts }),
{
    Closure { parts }
}

pub fn new_guard(index: u64, negated: bool) -> (r: Guard)
    ensures
        r == (Guard { index, negated }),
{
    Guard { index, negated }
}

pub fn new_exec() -> (r: Expression)
    ensures
        r == Expression::Exec,
{
    Expression::Exec
}

} // verus!
