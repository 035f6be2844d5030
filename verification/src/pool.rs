use vstd::prelude::*;
use crate::memory::{mem_read, Memory};

verus! {

/// The membership list after toggling `item`: the sole membership-changing
/// primitive the language surface exposes. A member is removed; a non-member
/// is appended.
pub open spec fn toggled(members: Seq<u64>, item: u64) -> Seq<u64> {
    if members.contains(item) {
        members.remove(members.index_of(item))
    } else {
        members.push(item)
    }
}

/// A pool: one pure mutation function over slot values, and the indices
/// currently members of the pool. Each index is a member at most once.
pub struct Pool<F> where F: Fn(i32) -> i32 {
    pub func: F,
    pub members: Vec<u64>,
}

/// The relation between a memory map before and after one pool pass: the
/// members are visited in order, and each member's slot is replaced by a
/// value the mutation function may return for the slot's prior value
/// (absent slots are read as 0 and created by the write).
pub open spec fn applies_members<F: Fn(i32) -> i32>(
    func: F,
    members: Seq<u64>,
    m0: Map<u64, i32>,
    m1: Map<u64, i32>,
) -> bool
    decreases members,
{
    if members.len() == 0 {
        m1 == m0
    } else {
        exists|v: i32|
            #[trigger] call_ensures(func, (mem_read(m0, members[0]),), v)
                && applies_members(func, members.skip(1), m0.insert(members[0], v), m1)
    }
}

impl<F> Pool<F> where F: Fn(i32) -> i32 {
    /// Whether an index is currently a member of the pool.
    pub open spec fn spec_has(&self, item: u64) -> bool {
        self.members@.contains(item)
    }

    /// Set semantics: each index is a member at most once.
    pub open spec fn members_unique(&self) -> bool {
        forall|i: int, j: int|
            0 <= i < j < self.members@.len() ==> self.members@[i] != self.members@[j]
    }

    /// The mutation function can be applied to every slot value.
    pub open spec fn func_total(&self) -> bool {
        forall|x: i32| call_requires(self.func, (x,))
    }

    pub open spec fn wf(&self) -> bool {
        self.members_unique() && self.func_total()
    }

    /// A pool with no members and the given mutation function.
    pub fn new(func: F) -> (r: Pool<F>)
        requires
            forall|x: i32| call_requires(func, (x,)),
        ensures
            r.func == func,
            r.members@ == Seq::<u64>::empty(),
            r.wf(),
    {
        Pool { func, members: Vec::new() }
    }

    /// Adds an index; reports true when it was newly added, false when it
    /// was already a member.
    pub fn add(&mut self, item: u64) -> (r: bool)
        requires
            old(self).wf(),
        ensures
            final(self).wf(),
            final(self).func == old(self).func,
            r == !old(self).spec_has(item),
            final(self).members@ == if old(self).spec_has(item) {
                old(self).members@
            } else {
                old(self).members@.push(item)
            },
    {
        let success = self.has(item);
        if !success {
            self.members.push(item);
            proof {
                lemma_unique_push(old(self).members@, item);
            }
        }
        !success
    }

    /// Removes an index; reports true when it was a member.
    pub fn remove(&mut self, item: u64) -> (r: bool)
        requires
            old(self).wf(),
        ensures
            final(self).wf(),
            final(self).func == old(self).func,
            r == old(self).spec_has(item),
            final(self).members@ == if old(self).spec_has(item) {
                old(self).members@.remove(old(self).members@.index_of(item))
            } else {
                old(self).members@
            },
    {
        let success = self.has(item);
        if success {
            let mut k: usize = 0;
            while k < self.members.len() && self.members[k as usize] != item
                invariant
                    k <= self.members@.len(),
                    self == old(self),
                    forall|j: int| 0 <= j < k ==> self.members@[j] != item,
                decreases self.members@.len() - k,
            {
                k = k + 1;
            }
            assert(self.members@.contains(item));
            assert(k < self.members@.len() && self.members@[k as int] == item);
            assert(self.members@.index_of(item) == k as int);
            self.members.remove(k);
            proof {
                lemma_unique_remove(old(self).members@, k as int);
            }
        }
        success
    }

    /// Whether an index is a member.
    pub fn has(&self, item: u64) -> (r: bool)
        ensures
            r == self.spec_has(item),
    {
        let mut k: usize = 0;
        while k < self.members.len()
            invariant
                k <= self.members@.len(),
                forall|j: int| 0 <= j < k ==> self.members@[j] != item,
            decreases self.members@.len() - k,
        {
            if self.members[k] == item {
                return true;
            }
            k = k + 1;
        }
        false
    }

    /// Flips membership of an index; reports true when the index is now a
    /// member (was absent), false when it was just removed.
    pub fn toggle(&mut self, item: u64) -> (r: bool)
        requires
            old(self).wf(),
        ensures
            final(self).wf(),
            final(self).func == old(self).func,
            r == !old(self).spec_has(item),
            final(self).members@ == toggled(old(self).members@, item),
            forall|x: u64|
                final(self).spec_has(x) == if x == item {
                    !old(self).spec_has(x)
                } else {
                    old(self).spec_has(x)
                },
    {
        let exists_already = self.has(item);
        if exists_already {
            self.remove(item);
        } else {
            self.add(item);
        }
        proof {
            lemma_toggled_membership(old(self).members@, item);
        }
        !exists_already
    }

    /// One pass of the execution trigger for this pool: applies the mutation
    /// function to every member's slot, in membership order, creating absent
    /// slots (read as 0) as they are written. With no members, memory is
    /// untouched.
    pub fn execute(&self, memory: &mut Memory)
        requires
            self.wf(),
        ensures
            applies_members(self.func, self.members@, old(memory)@, final(memory)@),
            self.members@.len() == 0 ==> final(memory)@ == old(memory)@,
            old(memory)@.dom() <= final(memory)@.dom(),
    {
        let mut k: usize = 0;
        while k < self.members.len()
            invariant
                k <= self.members@.len(),
                self.wf(),
                applies_members(self.func, self.members@.take(k as int), old(memory)@, memory@),
                old(memory)@.dom() <= memory@.dom(),
            decreases self.members@.len() - k,
        {
            let index = self.members[k];
            let ghost before = memory@;
            let value = memory.read(index);
            let updated = (self.func)(value);
            memory.write(index, updated);
            proof {
                lemma_applies_members_snoc(
                    self.func,
                    self.members@.take(k as int),
                    old(memory)@,
                    before,
                    index,
                    updated,
                );
                assert(self.members@.take(k + 1) =~= self.members@.take(k as int).push(index));
            }
            k = k + 1;
        }
        proof {
            assert(self.members@.take(self.members@.len() as int) =~= self.members@);
        }
    }
}

/// Pushing a fresh element keeps a membership list duplicate-free.
proof fn lemma_unique_push(s: Seq<u64>, item: u64)
    requires
        !s.contains(item),
        forall|i: int, j: int| 0 <= i < j < s.len() ==> s[i] != s[j],
    ensures
        forall|i: int, j: int| 0 <= i < j < s.push(item).len() ==> s.push(item)[i] != s.push(item)[j],
{
}

/// Removing an element keeps a membership list duplicate-free.
proof fn lemma_unique_remove(s: Seq<u64>, k: int)
    requires
        0 <= k < s.len(),
        forall|i: int, j: int| 0 <= i < j < s.len() ==> s[i] != s[j],
    ensures
        forall|i: int, j: int|
            0 <= i < j < s.remove(k).len() ==> s.remove(k)[i] != s.remove(k)[j],
{
}

/// Membership after a toggle: the toggled index flips, every other index is
/// unchanged.
proof fn lemma_toggled_membership(s: Seq<u64>, item: u64)
    requires
        forall|i: int, j: int| 0 <= i < j < s.len() ==> s[i] != s[j],
    ensures
        forall|x: u64|
            toggled(s, item).contains(x) == if x == item {
                !s.contains(x)
            } else {
                s.contains(x)
            },
{
    if s.contains(item) {
        let k = s.index_of(item);
        assert forall|x: u64| toggled(s, item).contains(x) == if x == item {
            !s.contains(x)
        } else {
            s.contains(x)
        } by {
            let t = s.remove(k);
            if x == item {
                assert(!t.contains(x)) by {
                    if t.contains(x) {
                        let j = choose|j: int| 0 <= j < t.len() && t[j] == x;
                        if j < k {
                            assert(s[j] == x);
                        } else {
                            assert(s[j + 1] == x);
                        }
                    }
                }
            } else {
                if s.contains(x) {
                    let j = choose|j: int| 0 <= j < s.len() && s[j] == x;
                    if j < k {
                        assert(t[j] == x);
                    } else {
                        assert(t[j - 1] == x);
                    }
                }
                if t.contains(x) {
                    let j = choose|j: int| 0 <= j < t.len() && t[j] == x;
                    if j < k {
                        assert(s[j] == x);
                    } else {
                        assert(s[j + 1] == x);
                    }
                }
            }
        }
    } else {
        assert forall|x: u64| toggled(s, item).contains(x) == if x == item {
            !s.contains(x)
        } else {
            s.contains(x)
        } by {
            let t = s.push(item);
            if x == item {
                assert(t[t.len() - 1] == x);
            } else {
                if s.contains(x) {
                    let j = choose|j: int| 0 <= j < s.len() && s[j] == x;
                    assert(t[j] == x);
                }
                if t.contains(x) {
                    let j = choose|j: int| 0 <= j < t.len() && t[j] == x;
                    assert(s[j] == x);
                }
            }
        }
    }
}

/// A toggle keeps a membership list duplicate-free.
proof fn lemma_toggled_unique(s: Seq<u64>, item: u64)
    requires
        forall|i: int, j: int| 0 <= i < j < s.len() ==> s[i] != s[j],
    ensures
        forall|i: int, j: int|
            0 <= i < j < toggled(s, item).len() ==> toggled(s, item)[i] != toggled(s, item)[j],
{
    if s.contains(item) {
        let k = s.index_of(item);
        assert(0 <= k < s.len() && s[k] == item);
        lemma_unique_remove(s, k);
    } else {
        lemma_unique_push(s, item);
    }
}

/// Toggling the same index in the same pool twice restores the prior
/// membership: after the pair, every index is a member exactly when it was
/// a member before.
pub proof fn lemma_toggle_twice(members: Seq<u64>, item: u64)
    requires
        forall|i: int, j: int| 0 <= i < j < members.len() ==> members[i] != members[j],
    ensures
        forall|x: u64|
            toggled(toggled(members, item), item).contains(x) == members.contains(x),
{
    lemma_toggled_membership(members, item);
    lemma_toggled_unique(members, item);
    lemma_toggled_membership(toggled(members, item), item);
}

/// Extends one pool pass by one more member at the end of the visiting
/// order.
proof fn lemma_applies_members_snoc<F: Fn(i32) -> i32>(
    func: F,
    members: Seq<u64>,
    m0: Map<u64, i32>,
    m1: Map<u64, i32>,
    item: u64,
    v: i32,
)
    requires
        applies_members(func, members, m0, m1),
        call_ensures(func, (mem_read(m1, item),), v),
    ensures
        applies_members(func, members.push(item), m0, m1.insert(item, v)),
    decreases members.len(),
{
    let s = members.push(item);
    if members.len() == 0 {
        assert(s[0] == item);
        assert(s.skip(1) =~= Seq::<u64>::empty());
        assert(call_ensures(func, (mem_read(m0, s[0]),), v));
        assert(applies_members(func, s.skip(1), m0.insert(s[0], v), m1.insert(item, v)));
    } else {
        let v0 = choose|v0: i32|
            #[trigger] call_ensures(func, (mem_read(m0, members[0]),), v0)
                && applies_members(func, members.skip(1), m0.insert(members[0], v0), m1);
        lemma_applies_members_snoc(func, members.skip(1), m0.insert(members[0], v0), m1, item, v);
        assert(s[0] == members[0]);
        assert(s.skip(1) =~= members.skip(1).push(item));
        assert(call_ensures(func, (mem_read(m0, s[0]),), v0));
        assert(applies_members(func, s.skip(1), m0.insert(s[0], v0), m1.insert(item, v)));
    }
}
/// Names one error of the registry: an instruction referenced a pool
/// identifier that was never registered.
#[derive(Debug, PartialEq, Eq, Clone, Copy)]
pub enum PoolError {
    UnknownPool { identifier: char },
}

/// The pool registry: single-character identifiers mapped to pools, kept in
/// registration order, each identifier registered at most once.
pub struct Pools<F> where F: Fn(i32) -> i32 {
    pub entries: Vec<(char, Pool<F>)>,
}

/// The relation between a memory map before and after one execution trigger:
/// every registered pool makes one pass, in registry order.
pub open spec fn applies_all<F: Fn(i32) -> i32>(
    entries: Seq<(char, Pool<F>)>,
    m0: Map<u64, i32>,
    m1: Map<u64, i32>,
) -> bool
    decreases entries,
{
    if entries.len() == 0 {
        m1 == m0
    } else {
        exists|mid: Map<u64, i32>|
            #[trigger] applies_members(entries[0].1.func, entries[0].1.members@, m0, mid)
                && applies_all(entries.skip(1), mid, m1)
    }
}

/// Two registry states with the same identifiers and mutation functions,
/// in the same order; memberships may differ. Execution never adds or
/// removes a pool, only toggles memberships.
pub open spec fn registry_shape<F: Fn(i32) -> i32>(
    a: Seq<(char, Pool<F>)>,
    b: Seq<(char, Pool<F>)>,
) -> bool {
    &&& b.len() == a.len()
    &&& forall|k: int|
        0 <= k < a.len() ==> (#[trigger] b[k]).0 == a[k].0 && b[k].1.func == a[k].1.func
}

/// The two registries' entries have the same shape.
pub open spec fn same_registry<F: Fn(i32) -> i32>(a: Pools<F>, b: Pools<F>) -> bool {
    registry_shape(a.entries@, b.entries@)
}

/// The membership change one toggle instruction makes: the pool registered
/// under `identifier` has `index`'s membership flipped, every other pool
/// is untouched.
pub open spec fn toggle_effect<F: Fn(i32) -> i32>(
    p0: Seq<(char, Pool<F>)>,
    p1: Seq<(char, Pool<F>)>,
    identifier: char,
    index: u64,
) -> bool {
    &&& p1.len() == p0.len()
    &&& forall|k: int| 0 <= k < p0.len() && (#[trigger] p0[k]).0 != identifier ==> p1[k] == p0[k]
    &&& forall|k: int|
        0 <= k < p0.len() && (#[trigger] p0[k]).0 == identifier ==> p1[k].0 == identifier
            && p1[k].1.func == p0[k].1.func && p1[k].1.members@ == toggled(
            p0[k].1.members@,
            index,
        )
}

impl<F> Pools<F> where F: Fn(i32) -> i32 {
    /// Whether a pool is registered under this identifier.
    pub open spec fn spec_has_pool(&self, identifier: char) -> bool {
        exists|k: int| 0 <= k < self.entries@.len() && (#[trigger] self.entries@[k]).0 == identifier
    }

    /// Position of the pool registered under this identifier.
    pub open spec fn index_of_pool(&self, identifier: char) -> int {
        choose|k: int| 0 <= k < self.entries@.len() && (#[trigger] self.entries@[k]).0 == identifier
    }

    /// The pool registered under this identifier.
    pub open spec fn spec_get(&self, identifier: char) -> Pool<F> {
        self.entries@[self.index_of_pool(identifier)].1
    }

    /// Each identifier is registered at most once.
    pub open spec fn ids_unique(&self) -> bool {
        forall|i: int, j: int|
            0 <= i < j < self.entries@.len() ==> (#[trigger] self.entries@[i]).0 != (
            #[trigger] self.entries@[j]).0
    }

    pub open spec fn wf(&self) -> bool {
        self.ids_unique() && forall|k: int|
            0 <= k < self.entries@.len() ==> (#[trigger] self.entries@[k]).1.wf()
    }

    /// An empty registry.
    pub fn new() -> (r: Pools<F>)
        ensures
            r.entries@ == Seq::<(char, Pool<F>)>::empty(),
            r.wf(),
    {
        Pools { entries: Vec::new() }
    }

    /// Registers (or overwrites) the pool for an identifier with a fresh,
    /// empty membership; overwriting silently discards the prior pool's
    /// membership. Other pools are untouched.
    pub fn add_pool(&mut self, identifier: char, func: F)
        requires
            old(self).wf(),
            forall|x: i32| call_requires(func, (x,)),
        ensures
            final(self).wf(),
            final(self).spec_has_pool(identifier),
            final(self).spec_get(identifier).func == func,
            final(self).spec_get(identifier).members@ == Seq::<u64>::empty(),
            old(self).spec_has_pool(identifier) ==> {
                &&& final(self).entries@.len() == old(self).entries@.len()
                &&& forall|k: int|
                    0 <= k < old(self).entries@.len() && (#[trigger] old(self).entries@[k]).0
                        != identifier ==> final(self).entries@[k] == old(self).entries@[k]
                &&& forall|k: int|
                    0 <= k < old(self).entries@.len() && (#[trigger] old(self).entries@[k]).0
                        == identifier ==> final(self).entries@[k].0 == identifier
                            && final(self).entries@[k].1.func == func
                            && final(self).entries@[k].1.members@.len() == 0
            },
            !old(self).spec_has_pool(identifier) ==> {
                &&& final(self).entries@.len() == old(self).entries@.len() + 1
                &&& forall|k: int|
                    0 <= k < old(self).entries@.len()
                        ==> #[trigger] final(self).entries@[k] == old(self).entries@[k]
                &&& final(self).entries@.last().0 == identifier
                &&& final(self).entries@.last().1.func == func
                &&& final(self).entries@.last().1.members@.len() == 0
            },
    {
        let fresh = Pool::new(func);
        let ghost fresh_pool = fresh;
        let mut k: usize = 0;
        while k < self.entries.len()
            invariant
                k <= self.entries@.len(),
                self == old(self),
                old(self).wf(),
                forall|j: int| 0 <= j < k ==> (#[trigger] self.entries@[j]).0 != identifier,
                fresh == fresh_pool,
                fresh_pool.func == func,
                fresh_pool.members@ == Seq::<u64>::empty(),
                fresh_pool.wf(),
            decreases self.entries@.len() - k,
        {
            if self.entries[k].0 == identifier {
                self.entries.remove(k);
                self.entries.insert(k, (identifier, fresh));
                proof {
                    let ki = k as int;
                    assert(self.entries@ =~= old(self).entries@.update(
                        ki,
                        (identifier, fresh_pool),
                    ));
                    assert forall|i: int|
                        0 <= i < self.entries@.len() implies (#[trigger] self.entries@[i]).0
                        == old(self).entries@[i].0 by {
                        if i == ki {
                            assert(old(self).entries@[i].0 == identifier);
                        }
                    }
                    assert(self.ids_unique());
                    lemma_index_of_pool_is(self, identifier, ki);
                }
                return ;
            }
            k = k + 1;
        }
        self.entries.push((identifier, fresh));
        proof {
            let n = old(self).entries@.len() as int;
            assert(self.entries@[n] == (identifier, fresh_pool));
            assert forall|i: int, j: int|
                0 <= i < j < self.entries@.len() implies (#[trigger] self.entries@[i]).0 != (
            #[trigger] self.entries@[j]).0 by {
                if j < n {
                    assert(old(self).entries@[i].0 != old(self).entries@[j].0);
                } else {
                    assert(self.entries@[i] == old(self).entries@[i]);
                    assert(self.entries@[j].0 == identifier);
                }
            }
            lemma_index_of_pool_is(self, identifier, n);
        }
    }

    /// Looks a pool up by identifier; an unregistered identifier yields the
    /// "unknown pool" error.
    pub fn get_pool(&self, identifier: char) -> (r: Result<&Pool<F>, PoolError>)
        requires
            self.wf(),
        ensures
            r matches Ok(p) ==> self.spec_has_pool(identifier) && *p == self.spec_get(identifier),
            r matches Err(e) ==> !self.spec_has_pool(identifier) && e == (PoolError::UnknownPool {
                identifier,
            }),
    {
        let mut k: usize = 0;
        while k < self.entries.len()
            invariant
                k <= self.entries@.len(),
                forall|j: int| 0 <= j < k ==> (#[trigger] self.entries@[j]).0 != identifier,
                self.wf(),
            decreases self.entries@.len() - k,
        {
            if self.entries[k].0 == identifier {
                proof {
                    lemma_index_of_pool_is(self, identifier, k as int);
                }
                return Ok(&self.entries[k].1);
            }
            k = k + 1;
        }
        Err(PoolError::UnknownPool { identifier })
    }

    /// Toggles an index's membership in the pool registered under the given
    /// identifier; every other pool is untouched. An unregistered identifier
    /// yields the "unknown pool" error and leaves the registry unchanged.
    pub fn toggle_member(&mut self, identifier: char, index: u64) -> (r: Result<bool, PoolError>)
        requires
            old(self).wf(),
        ensures
            final(self).wf(),
            same_registry(*old(self), *final(self)),
            r matches Err(e) ==> !old(self).spec_has_pool(identifier) && *final(self) == *old(self)
                && e == (PoolError::UnknownPool { identifier }),
            r matches Ok(b) ==> {
                &&& old(self).spec_has_pool(identifier)
                &&& b == !old(self).spec_get(identifier).members@.contains(index)
                &&& toggle_effect(old(self).entries@, final(self).entries@, identifier, index)
            },
    {
        let mut k: usize = 0;
        while k < self.entries.len()
            invariant
                k <= self.entries@.len(),
                self == old(self),
                old(self).wf(),
                forall|j: int| 0 <= j < k ==> (#[trigger] self.entries@[j]).0 != identifier,
            decreases self.entries@.len() - k,
        {
            if self.entries[k].0 == identifier {
                proof {
                    let ki = k as int;
                    lemma_index_of_pool_is(self, identifier, ki);
                    assert(old(self).entries@[ki].1.wf());
                }
                let mut entry = self.entries.remove(k);
                let b = entry.1.toggle(index);
                self.entries.insert(k, entry);
                proof {
                    let ki = k as int;
                    assert(self.entries@ =~= old(self).entries@.update(ki, self.entries@[ki]));
                    assert(self.entries@[ki].0 == identifier);
                    assert forall|i: int|
                        0 <= i < self.entries@.len() implies (#[trigger] self.entries@[i]).0
                        == old(self).entries@[i].0 by {}
                    assert(self.ids_unique());
                    assert(self.wf());
                }
                return Ok(b);
            }
            k = k + 1;
        }
        Err(PoolError::UnknownPool { identifier })
    }

    /// One execution trigger: every registered pool applies its mutation
    /// function to each of its members' slots, pool after pool in registry
    /// order. With every membership empty, memory is untouched.
    pub fn execute(&self, memory: &mut Memory)
        requires
            self.wf(),
        ensures
            applies_all(self.entries@, old(memory)@, final(memory)@),
            (forall|k: int|
                0 <= k < self.entries@.len()
                    ==> (#[trigger] self.entries@[k]).1.members@.len() == 0)
                ==> final(memory)@ == old(memory)@,
            old(memory)@.dom() <= final(memory)@.dom(),
    {
        let mut k: usize = 0;
        while k < self.entries.len()
            invariant
                k <= self.entries@.len(),
                self.wf(),
                applies_all(self.entries@.take(k as int), old(memory)@, memory@),
                (forall|j: int| 0 <= j < k ==> (#[trigger] self.entries@[j]).1.members@.len() == 0)
                    ==> memory@ == old(memory)@,
                old(memory)@.dom() <= memory@.dom(),
            decreases self.entries@.len() - k,
        {
            let ghost before = memory@;
            proof {
                assert(self.entries@[k as int].1.wf());
            }
            self.entries[k].1.execute(memory);
            proof {
                lemma_applies_all_snoc(
                    self.entries@.take(k as int),
                    old(memory)@,
                    before,
                    self.entries@[k as int],
                    memory@,
                );
                assert(self.entries@.take(k + 1) =~= self.entries@.take(k as int).push(
                    self.entries@[k as int],
                ));
            }
            k = k + 1;
        }
        proof {
            assert(self.entries@.take(self.entries@.len() as int) =~= self.entries@);
        }
    }
}

/// Pins the position of a registered identifier: with identifiers unique,
/// the position holding `identifier` is the one the registry's lookup names.
proof fn lemma_index_of_pool_is<F: Fn(i32) -> i32>(p: &Pools<F>, identifier: char, k: int)
    requires
        p.ids_unique(),
        0 <= k < p.entries@.len(),
        p.entries@[k].0 == identifier,
    ensures
        p.spec_has_pool(identifier),
        p.index_of_pool(identifier) == k,
        p.spec_get(identifier) == p.entries@[k].1,
{
    assert(p.spec_has_pool(identifier));
    let j = p.index_of_pool(identifier);
    assert(0 <= j < p.entries@.len() && p.entries@[j].0 == identifier) by {
        assert(exists|i: int|
            0 <= i < p.entries@.len() && (#[trigger] p.entries@[i]).0 == identifier);
    }
    if j < k {
        assert((p.entries@[j]).0 != (p.entries@[k]).0);
        assert(false);
    }
    if j > k {
        assert((p.entries@[k]).0 != (p.entries@[j]).0);
        assert(false);
    }
}

/// Extends one trigger pass by one more pool at the end of the registry
/// order.
proof fn lemma_applies_all_snoc<F: Fn(i32) -> i32>(
    entries: Seq<(char, Pool<F>)>,
    m0: Map<u64, i32>,
    m1: Map<u64, i32>,
    entry: (char, Pool<F>),
    m2: Map<u64, i32>,
)
    requires
        applies_all(entries, m0, m1),
        applies_members(entry.1.func, entry.1.members@, m1, m2),
    ensures
        applies_all(entries.push(entry), m0, m2),
    decreases entries.len(),
{
    let s = entries.push(entry);
    if entries.len() == 0 {
        assert(s[0] == entry);
        assert(s.skip(1) =~= Seq::<(char, Pool<F>)>::empty());
        assert(applies_members(s[0].1.func, s[0].1.members@, m0, m2));
        assert(applies_all(s.skip(1), m2, m2));
    } else {
        let mid = choose|mid: Map<u64, i32>|
            #[trigger] applies_members(entries[0].1.func, entries[0].1.members@, m0, mid)
                && applies_all(entries.skip(1), mid, m1);
        lemma_applies_all_snoc(entries.skip(1), mid, m1, entry, m2);
        assert(s[0] == entries[0]);
        assert(s.skip(1) =~= entries.skip(1).push(entry));
        assert(applies_members(s[0].1.func, s[0].1.members@, m0, mid));
        assert(applies_all(s.skip(1), mid, m2));
    }
}

} // verus!
