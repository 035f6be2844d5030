use vstd::prelude::*;
use crate::interpreter::expression::{
    closure_mentions, closure_size, expression_mentions, lemma_parts_mention_elem,
    lemma_parts_size_elem, parts_mention, Closure, Expression, Guard,
};
use crate::memory::{mem_read, Memory};
use crate::pool::{
    applies_all, registry_shape, same_registry, toggle_effect, Pool, PoolError, Pools,
};

verus! {

/// The two conditions that abort execution: an instruction referenced an
/// unregistered pool identifier (a configuration error with no recovery
/// site), or the caller's step budget ran out before the program finished
/// (guarded repetition may legitimately never terminate, so every run is
/// bounded by an explicit budget).
#[derive(Debug, PartialEq, Eq, Clone, Copy)]
pub enum ExecError {
    UnknownPool { identifier: char },
    OutOfSteps,
}

/// Truth of one guard: the indexed slot is read (0 when absent), nonzero
/// counts as true, and the negation flag complements the result.
pub open spec fn guard_holds(m: Map<u64, i32>, g: Guard) -> bool {
    let truth = mem_read(m, g.index) != 0;
    if g.negated {
        !truth
    } else {
        truth
    }
}

/// A loop's condition: the conjunction of all its guards. An empty guard
/// list is vacuously true, which makes such a loop repeat forever.
pub open spec fn guards_hold(m: Map<u64, i32>, gs: Seq<Guard>) -> bool {
    forall|k: int| 0 <= k < gs.len() ==> guard_holds(m, #[trigger] gs[k])
}

/// A negated guard is the logical complement of the unnegated guard on the
/// same index and the same memory state.
pub proof fn lemma_guard_negation(m: Map<u64, i32>, index: u64)
    ensures
        guard_holds(m, (Guard { index, negated: true })) == !guard_holds(
            m,
            (Guard { index, negated: false }),
        ),
{
}

/// With the guard list holding the single unnegated guard on `index`, the
/// loop condition fails exactly when the slot at `index` reads 0.
pub proof fn lemma_single_guard_exit(m: Map<u64, i32>, index: u64)
    ensures
        !guards_hold(m, seq![(Guard { index, negated: false })]) <==> mem_read(m, index) == 0,
{
    let gs = seq![Guard { index, negated: false }];
    if mem_read(m, index) != 0 {
        assert forall|k: int| 0 <= k < gs.len() implies guard_holds(m, #[trigger] gs[k]) by {
            assert(gs[k] == gs[0]);
        }
    } else {
        assert(!guard_holds(m, gs[0]));
    }
}

/// Two registries with the same shape register the same identifiers.
pub proof fn lemma_same_registry_has<F: Fn(i32) -> i32>(a: Pools<F>, b: Pools<F>, identifier: char)
    requires
        same_registry(a, b),
    ensures
        a.spec_has_pool(identifier) == b.spec_has_pool(identifier),
{
    if a.spec_has_pool(identifier) {
        let k = choose|k: int|
            0 <= k < a.entries@.len() && (#[trigger] a.entries@[k]).0 == identifier;
        assert((b.entries@[k]).0 == identifier);
    }
    if b.spec_has_pool(identifier) {
        let k = choose|k: int|
            0 <= k < b.entries@.len() && (#[trigger] b.entries@[k]).0 == identifier;
        assert((a.entries@[k]).0 == identifier);
    }
}

/// No guarded loop among the expressions. Only loop passes charge the step
/// budget, so such a program can never run out of steps.
pub open spec fn loop_free(parts: Seq<Expression>) -> bool {
    forall|k: int| 0 <= k < parts.len() ==> !((#[trigger] parts[k]) is Loop)
}

/// In a sequence without loops, a mentioned pool is named by some
/// instruction of the sequence itself.
proof fn lemma_parts_mention_instruction(s: Seq<Expression>, id: char)
    requires
        parts_mention(s, id),
        loop_free(s),
    ensures
        exists|k: int|
            0 <= k < s.len() && (#[trigger] s[k]) is Instruction
                && s[k]->Instruction_0.pool == id,
    decreases s.len(),
{
    if expression_mentions(s[0], id) {
        assert(s[0] is Instruction && s[0]->Instruction_0.pool == id);
    } else {
        assert(loop_free(s.skip(1))) by {
            assert(forall|k: int|
                0 <= k < s.skip(1).len() ==> !((#[trigger] s.skip(1)[k]) is Loop));
        }
        lemma_parts_mention_instruction(s.skip(1), id);
        let k = choose|k: int|
            0 <= k < s.skip(1).len() && (#[trigger] s.skip(1)[k]) is Instruction && s.skip(1)[
                k
            ]->Instruction_0.pool == id;
        assert(s[k + 1] == s.skip(1)[k]);
    }
}

/// The least budget a chain of `n` loop passes charges: one step per pass.
pub open spec fn passes_cost(n: nat) -> nat {
    n
}

/// `n` completed passes of a guarded loop's body, each entered with the
/// guard conjunction true, chained over the memory map and the registry
/// state. Nothing is claimed of the guards at the final state. Each pass
/// keeps the registry's shape.
pub open spec fn loop_passes<F: Fn(i32) -> i32>(
    n: nat,
    guards: Seq<Guard>,
    body: Closure,
    m0: Map<u64, i32>,
    p0: Seq<(char, Pool<F>)>,
    m1: Map<u64, i32>,
    p1: Seq<(char, Pool<F>)>,
) -> bool
    decreases body, n, 1int,
{
    if n == 0 {
        m1 == m0 && p1 == p0
    } else {
        exists|mm: Map<u64, i32>, pp: Seq<(char, Pool<F>)>|
            #![trigger guards_hold(mm, guards), registry_shape(p0, pp)]
            {
                &&& guards_hold(mm, guards)
                &&& registry_shape(p0, pp)
                &&& loop_passes((n - 1) as nat, guards, body, m0, p0, mm, pp)
                &&& runs_to(body.parts@, mm, pp, m1, p1)
            }
    }
}

/// A completed guarded loop: some number of full body passes, each entered
/// with the guard conjunction true, after which the conjunction fails.
/// With zero passes the guards fail at entry and nothing changes.
pub open spec fn loop_runs<F: Fn(i32) -> i32>(
    n: nat,
    guards: Seq<Guard>,
    body: Closure,
    m0: Map<u64, i32>,
    p0: Seq<(char, Pool<F>)>,
    m1: Map<u64, i32>,
    p1: Seq<(char, Pool<F>)>,
) -> bool
    decreases body, n, 2int,
{
    loop_passes(n, guards, body, m0, p0, m1, p1) && !guards_hold(m1, guards)
}

/// A nonempty pass chain was entered with the guards true at its start.
proof fn lemma_loop_passes_entry<F: Fn(i32) -> i32>(
    n: nat,
    guards: Seq<Guard>,
    body: Closure,
    m0: Map<u64, i32>,
    p0: Seq<(char, Pool<F>)>,
    m1: Map<u64, i32>,
    p1: Seq<(char, Pool<F>)>,
)
    requires
        loop_passes(n, guards, body, m0, p0, m1, p1),
        n > 0,
    ensures
        guards_hold(m0, guards),
    decreases n,
{
    let (mm, pp) = choose|mm: Map<u64, i32>, pp: Seq<(char, Pool<F>)>|
        #![trigger guards_hold(mm, guards), registry_shape(p0, pp)]
        {
            &&& guards_hold(mm, guards)
            &&& registry_shape(p0, pp)
            &&& loop_passes((n - 1) as nat, guards, body, m0, p0, mm, pp)
            &&& runs_to(body.parts@, mm, pp, m1, p1)
        };
    if n == 1 {
        assert(loop_passes(0, guards, body, m0, p0, mm, pp));
        assert(mm == m0);
    } else {
        lemma_loop_passes_entry((n - 1) as nat, guards, body, m0, p0, mm, pp);
    }
}

/// A loop whose guard conjunction fails at entry makes no pass: the chain
/// is empty, and memory and registry are exactly unchanged — in particular
/// an absent index gating a loop reads 0, the body never runs, and no
/// entry is created.
pub proof fn lemma_loop_runs_no_pass<F: Fn(i32) -> i32>(
    n: nat,
    guards: Seq<Guard>,
    body: Closure,
    m0: Map<u64, i32>,
    p0: Seq<(char, Pool<F>)>,
    m1: Map<u64, i32>,
    p1: Seq<(char, Pool<F>)>,
)
    requires
        loop_runs(n, guards, body, m0, p0, m1, p1),
        !guards_hold(m0, guards),
    ensures
        n == 0,
        m1 == m0,
        p1 == p0,
{
    if n > 0 {
        lemma_loop_passes_entry(n, guards, body, m0, p0, m1, p1);
    }
}

/// What one expression does to the memory map and the registry state.
/// The execution trigger leaves the registry alone and gives every pool one
/// pass over memory; an instruction leaves memory alone and toggles one
/// membership; a loop makes some number of full body passes, each entered
/// with its guard conjunction true, until the conjunction fails.
pub open spec fn part_effect<F: Fn(i32) -> i32>(
    e: Expression,
    m0: Map<u64, i32>,
    p0: Seq<(char, Pool<F>)>,
    m1: Map<u64, i32>,
    p1: Seq<(char, Pool<F>)>,
) -> bool
    decreases e, 0nat, 0int,
{
    match e {
        Expression::Exec => p1 == p0 && applies_all(p0, m0, m1),
        Expression::Instruction(i) => m1 == m0 && toggle_effect(p0, p1, i.pool, i.index),
        Expression::Loop(l) => exists|n: nat|
            #![trigger passes_cost(n)]
            loop_runs(n, l.guard@, l.closure, m0, p0, m1, p1),
    }
}

/// A completed run of a sequence of expressions: each expression's effect,
/// chained in order over the memory map and the registry state. Every
/// reached state keeps the registry's shape and forgets no memory entry.
pub open spec fn runs_to<F: Fn(i32) -> i32>(
    parts: Seq<Expression>,
    m0: Map<u64, i32>,
    p0: Seq<(char, Pool<F>)>,
    m1: Map<u64, i32>,
    p1: Seq<(char, Pool<F>)>,
) -> bool
    decreases parts, 0nat, 0int,
{
    if parts.len() == 0 {
        m1 == m0 && p1 == p0
    } else {
        exists|mm: Map<u64, i32>, pp: Seq<(char, Pool<F>)>|
            #![trigger mm.dom(), registry_shape(p0, pp)]
            {
                &&& m0.dom() <= mm.dom()
                &&& registry_shape(p0, pp)
                &&& runs_to(parts.drop_last(), m0, p0, mm, pp)
                &&& part_effect(parts.last(), mm, pp, m1, p1)
            }
    }
}

/// Evaluates a loop's guard conjunction against memory, creating no entry.
fn eval_guards(memory: &Memory, guards: &Vec<Guard>) -> (b: bool)
    ensures
        b == guards_hold(memory@, guards@),
{
    let mut k: usize = 0;
    while k < guards.len()
        invariant
            k <= guards@.len(),
            forall|j: int| 0 <= j < k ==> guard_holds(memory@, #[trigger] guards@[j]),
        decreases guards@.len() - k,
    {
        let g = &guards[k];
        let value = memory.read(g.index);
        let truth = value != 0;
        let holds = if g.negated {
            !truth
        } else {
            truth
        };
        if !holds {
            assert(!guard_holds(memory@, guards@[k as int]));
            return false;
        }
        k = k + 1;
    }
    true
}

/// Runs a closure's expressions in order against memory and the pool
/// registry, within a step budget that charges one step per loop-body pass.
///
/// On success the final state is reached by running every expression's
/// effect in order (`runs_to`). Execution never creates or removes a pool
/// and never forgets a memory entry. An instruction over an unregistered
/// identifier aborts everything with the error naming that identifier; a
/// program whose instructions all name registered pools can only finish or
/// exhaust its budget, and one without loops charges nothing, so it must
/// finish with the whole budget left.
pub fn execute<F: Fn(i32) -> i32>(
    memory: &mut Memory,
    pools: &mut Pools<F>,
    closure: &Closure,
    steps: u64,
) -> (r: Result<u64, ExecError>)
    requires
        old(pools).wf(),
    ensures
        final(pools).wf(),
        same_registry(*old(pools), *final(pools)),
        old(memory)@.dom() <= final(memory)@.dom(),
        r matches Ok(remaining) ==> remaining <= steps && runs_to(
            closure.parts@,
            old(memory)@,
            old(pools).entries@,
            final(memory)@,
            final(pools).entries@,
        ),
        r matches Err(e) ==> match e {
            ExecError::UnknownPool { identifier } => !old(pools).spec_has_pool(identifier)
                && closure_mentions(*closure, identifier),
            ExecError::OutOfSteps => true,
        },
        r matches Err(e) ==> exists|k: int, mm: Map<u64, i32>, pp: Seq<(char, Pool<F>)>|
            #![trigger closure.parts@.take(k), mm.dom(), registry_shape(pp, final(pools).entries@)]
            {
                &&& 0 <= k <= closure.parts@.len()
                &&& runs_to(closure.parts@.take(k), old(memory)@, old(pools).entries@, mm, pp)
                &&& mm.dom() <= final(memory)@.dom()
                &&& registry_shape(pp, final(pools).entries@)
            },
        (forall|c: char| closure_mentions(*closure, c) ==> old(pools).spec_has_pool(c)) ==> !(r
            matches Err(ExecError::UnknownPool { .. })),
        loop_free(closure.parts@) && (forall|c: char|
            closure_mentions(*closure, c) ==> old(pools).spec_has_pool(c)) ==> r == Ok::<
            u64,
            ExecError,
        >(steps),
        loop_free(closure.parts@) && !(forall|c: char|
            closure_mentions(*closure, c) ==> old(pools).spec_has_pool(c)) ==> r matches Err(
            ExecError::UnknownPool { .. },
        ),
    decreases steps, closure_size(*closure),
{
    let mut remaining = steps;
    let mut i: usize = 0;
    while i < closure.parts.len()
        invariant
            i <= closure.parts@.len(),
            remaining <= steps,
            old(pools).wf(),
            pools.wf(),
            same_registry(*old(pools), *pools),
            old(memory)@.dom() <= memory@.dom(),
            loop_free(closure.parts@) ==> remaining == steps,
            forall|j: int|
                0 <= j < i && (#[trigger] closure.parts@[j]) is Instruction ==> old(
                    pools,
                ).spec_has_pool(closure.parts@[j]->Instruction_0.pool),
            runs_to(
                closure.parts@.take(i as int),
                old(memory)@,
                old(pools).entries@,
                memory@,
                pools.entries@,
            ),
        decreases closure.parts@.len() - i,
    {
        let ghost mem_before = memory@;
        let ghost pools_before = pools.entries@;
        let part = &closure.parts[i];
        match part {
            Expression::Exec => {
                pools.execute(memory);
                proof {
                    assert(part_effect(
                        closure.parts@[i as int],
                        mem_before,
                        pools_before,
                        memory@,
                        pools.entries@,
                    ));
                }
            },
            Expression::Instruction(instr) => {
                match pools.toggle_member(instr.pool, instr.index) {
                    Ok(_) => {
                        proof {
                            lemma_same_registry_has(*old(pools), *pools, instr.pool);
                            assert(old(pools).spec_has_pool(instr.pool));
                            assert(part_effect(
                                closure.parts@[i as int],
                                mem_before,
                                pools_before,
                                memory@,
                                pools.entries@,
                            ));
                        }
                    },
                    Err(PoolError::UnknownPool { identifier }) => {
                        proof {
                            lemma_same_registry_has(*old(pools), *pools, identifier);
                            lemma_parts_mention_elem(closure.parts@, i as int, identifier);
                            assert(closure_mentions(*closure, identifier));
                            assert(closure.parts@.take(i as int) == closure.parts@.take(i as int));
                            assert(mem_before.dom() <= memory@.dom());
                            assert(registry_shape(pools_before, pools.entries@));
                        }
                        return Err(ExecError::UnknownPool { identifier });
                    },
                }
            },
            Expression::Loop(l) => {
                proof {
                    lemma_parts_size_elem(closure.parts@, i as int);
                    assert(closure.parts@[i as int] is Loop);
                }
                match run_loop(memory, pools, &l.guard, &l.closure, remaining) {
                    Ok(rem) => {
                        remaining = rem;
                        proof {
                            assert(part_effect(
                                closure.parts@[i as int],
                                mem_before,
                                pools_before,
                                memory@,
                                pools.entries@,
                            ));
                        }
                    },
                    Err(e) => {
                        proof {
                            if let ExecError::UnknownPool { identifier } = e {
                                lemma_same_registry_has(*old(pools), *pools, identifier);
                                lemma_parts_mention_elem(closure.parts@, i as int, identifier);
                                assert(closure_mentions(*closure, identifier));
                            }
                            assert(closure.parts@.take(i as int) == closure.parts@.take(i as int));
                            assert(mem_before.dom() <= memory@.dom());
                            assert(registry_shape(pools_before, pools.entries@));
                        }
                        return Err(e);
                    },
                }
            },
        }
        proof {
            assert(closure.parts@.take(i + 1).drop_last() =~= closure.parts@.take(i as int));
            assert(closure.parts@.take(i + 1).last() == closure.parts@[i as int]);
            assert(registry_shape(old(pools).entries@, pools_before));
            assert(runs_to(
                closure.parts@.take(i + 1),
                old(memory)@,
                old(pools).entries@,
                memory@,
                pools.entries@,
            ));
        }
        i = i + 1;
    }
    proof {
        assert(closure.parts@.take(closure.parts@.len() as int) =~= closure.parts@);
        if loop_free(closure.parts@) {
            assert forall|c: char|
                closure_mentions(*closure, c) implies old(pools).spec_has_pool(c) by {
                lemma_parts_mention_instruction(closure.parts@, c);
                let k = choose|k: int|
                    0 <= k < closure.parts@.len() && (#[trigger] closure.parts@[k]) is Instruction
                        && closure.parts@[k]->Instruction_0.pool == c;
                assert(old(pools).spec_has_pool(closure.parts@[k]->Instruction_0.pool));
            }
        }
    }
    Ok(remaining)
}

/// Guarded repetition: while every guard holds, the body closure runs from
/// its start, and the condition is re-evaluated only after a full pass.
/// On normal completion the final state is reached by a chain of full body
/// passes after which the guard conjunction fails (`loop_runs`), each pass
/// having cost one step of the budget; a loop whose condition fails at
/// entry makes no pass, spends nothing, and touches nothing.
pub fn run_loop<F: Fn(i32) -> i32>(
    memory: &mut Memory,
    pools: &mut Pools<F>,
    guards: &Vec<Guard>,
    body: &Closure,
    steps: u64,
) -> (r: Result<u64, ExecError>)
    requires
        old(pools).wf(),
    ensures
        final(pools).wf(),
        same_registry(*old(pools), *final(pools)),
        old(memory)@.dom() <= final(memory)@.dom(),
        r matches Ok(remaining) ==> remaining <= steps && !guards_hold(final(memory)@, guards@)
            && exists|n: nat|
            #![trigger passes_cost(n)]
            {
                &&& passes_cost(n) <= steps
                &&& loop_runs(
                    n,
                    guards@,
                    *body,
                    old(memory)@,
                    old(pools).entries@,
                    final(memory)@,
                    final(pools).entries@,
                )
            },
        !guards_hold(old(memory)@, guards@) ==> r == Ok::<u64, ExecError>(steps)
            && final(memory)@ == old(memory)@ && *final(pools) == *old(pools),
        r matches Err(e) ==> match e {
            ExecError::UnknownPool { identifier } => !old(pools).spec_has_pool(identifier)
                && closure_mentions(*body, identifier),
            ExecError::OutOfSteps => true,
        },
        r matches Err(e) ==> exists|n: nat, mm: Map<u64, i32>, pp: Seq<(char, Pool<F>)>|
            #![trigger passes_cost(n), mm.dom(), registry_shape(pp, final(pools).entries@)]
            {
                &&& passes_cost(n) <= steps
                &&& loop_passes(n, guards@, *body, old(memory)@, old(pools).entries@, mm, pp)
                &&& guards_hold(mm, guards@)
                &&& mm.dom() <= final(memory)@.dom()
                &&& registry_shape(pp, final(pools).entries@)
            },
        (forall|c: char| closure_mentions(*body, c) ==> old(pools).spec_has_pool(c)) ==> !(r
            matches Err(ExecError::UnknownPool { .. })),
    decreases steps, closure_size(*body) + 1,
{
    let mut remaining = steps;
    let ghost mut passes: nat = 0;
    while eval_guards(memory, guards)
        invariant
            remaining <= steps,
            passes + remaining <= steps,
            old(pools).wf(),
            pools.wf(),
            same_registry(*old(pools), *pools),
            old(memory)@.dom() <= memory@.dom(),
            !guards_hold(old(memory)@, guards@) ==> memory@ == old(memory)@
                && *pools == *old(pools) && remaining == steps,
            loop_passes(
                passes,
                guards@,
                *body,
                old(memory)@,
                old(pools).entries@,
                memory@,
                pools.entries@,
            ),
        decreases remaining,
    {
        if remaining == 0 {
            proof {
                assert(passes_cost(passes) <= steps);
                assert(guards_hold(memory@, guards@));
                assert(memory@.dom() <= memory@.dom());
                assert(registry_shape(pools.entries@, pools.entries@));
            }
            return Err(ExecError::OutOfSteps);
        }
        remaining = remaining - 1;
        let ghost mem_at_entry = memory@;
        let ghost pools_at_entry = pools.entries@;
        match execute(memory, pools, body, remaining) {
            Ok(rem) => {
                proof {
                    assert(guards_hold(mem_at_entry, guards@));
                    assert(registry_shape(old(pools).entries@, pools_at_entry));
                    assert(loop_passes(
                        passes + 1,
                        guards@,
                        *body,
                        old(memory)@,
                        old(pools).entries@,
                        memory@,
                        pools.entries@,
                    ));
                    passes = passes + 1;
                }
                remaining = rem;
            },
            Err(e) => {
                proof {
                    if let ExecError::UnknownPool { identifier } = e {
                        lemma_same_registry_has(*old(pools), *pools, identifier);
                    }
                    assert(passes_cost(passes) <= steps);
                    assert(guards_hold(mem_at_entry, guards@));
                    assert(mem_at_entry.dom() <= memory@.dom());
                    assert(registry_shape(pools_at_entry, pools.entries@));
                }
                return Err(e);
            },
        }
    }
    proof {
        assert(passes_cost(passes) <= steps);
        assert(loop_runs(
            passes,
            guards@,
            *body,
            old(memory)@,
            old(pools).entries@,
            memory@,
            pools.entries@,
        ));
    }
    Ok(remaining)
}

} // verus!
