use vstd::prelude::*;

pub mod executor;
pub mod interpreter;
pub mod memory;
pub mod parser;
pub mod pool;
pub mod tree;

use crate::interpreter::expression::{Closure, Expression};
use crate::interpreter::{interpret, nodes_interpret};
use crate::memory::Memory;
use crate::parser::{cpos, parse, parses_to};
use crate::pool::{Pool, Pools};
use crate::tree::Node;

verus! {

/// One embeddable evaluation session: the sparse memory store, the pool
/// registry the host configures, and the program closure to run. Memory and
/// registry live for the session and are shared across executions of the
/// code.
pub struct Lagoon<F> where F: Fn(i32) -> i32 {
    pub memory: Memory,
    pub pools: Pools<F>,
    pub code: Closure,
}

impl<F> Lagoon<F> where F: Fn(i32) -> i32 {
    /// A fresh session: empty memory, no pools registered, empty program.
    pub fn new() -> (r: Lagoon<F>)
        ensures
            r.memory@ == Map::<u64, i32>::empty(),
            r.pools.entries@ == Seq::<(char, Pool<F>)>::empty(),
            r.pools.wf(),
            r.code.parts@ == Seq::<Expression>::empty(),
    {
        Lagoon { memory: Memory::new(), pools: Pools::new(), code: Closure { parts: Vec::new() } }
    }

    /// Parses source text, translates it, and appends the resulting
    /// expressions to the session's code, in source order: incremental
    /// program construction. Memory and pools are untouched.
    pub fn append(&mut self, source: String)
        ensures
            final(self).memory == old(self).memory,
            final(self).pools == old(self).pools,
            final(self).code.parts@.len() >= old(self).code.parts@.len(),
            final(self).code.parts@.take(old(self).code.parts@.len() as int) == old(
                self,
            ).code.parts@,
            exists|ns: Seq<Node>, j: int|
                #![trigger cpos(j, 0, source@.len() as int), ns.len()]
                {
                    &&& j == cpos(j, 0, source@.len() as int)
                    &&& parses_to(source@, 0, Seq::<char>::empty(), 1, ns, j)
                    &&& nodes_interpret(
                        ns,
                        final(self).code.parts@.skip(old(self).code.parts@.len() as int),
                    )
                },
    {
        let ghost src = source@;
        let tree = parse(source);
        let ghost ns = tree.nodes@;
        let fragment = interpret(tree);
        let ghost added = fragment.parts@;
        let ghost before = self.code.parts@;
        let mut parts = fragment.parts;
        self.code.parts.append(&mut parts);
        proof {
            assert(self.code.parts@.take(before.len() as int) =~= before);
            assert(self.code.parts@.skip(before.len() as int) =~= added);
            let j = choose|j: int|
                #![trigger cpos(j, 0, src.len() as int)]
                {
                    &&& j == cpos(j, 0, src.len() as int)
                    &&& parses_to(src, 0, Seq::<char>::empty(), 1, ns, j)
                };
            assert(cpos(j, 0, src.len() as int) == j);
            assert(nodes_interpret(ns, self.code.parts@.skip(old(self).code.parts@.len() as int)));
        }
    }
}

} // verus!
