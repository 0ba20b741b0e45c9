//! The pool of virtual addresses: every address of a block but its lowest
//! (the network's own), its highest (the broadcast address), the gateway, and
//! those that end in `.0` or `.255`; handed out in ascending order, wrapping,
//! and never twice without a release in between.

use vstd::prelude::*;
use vstd::multiset::Multiset;
use std::collections::HashSet;
use crate::net::Ipv4Cidr;

verus! {

broadcast use vstd::std_specs::hash::group_hash_axioms;

/// Why no address could be handed out.
#[derive(Clone, Copy, Debug, PartialEq, Eq, Structural)]
pub enum PoolError {
    /// Every usable address of the block is held.
    Exhausted,
}

/// One step in the life of a pool.
pub enum PoolOp {
    Acquire,
    Release(u32),
}

/// What a pool is, apart from how it is stored: the block's lowest and
/// highest address, the gateway, the address at which the next search
/// starts, and the addresses that are handed out.
#[verifier::ext_equal]
pub struct PoolModel {
    pub first: u32,
    pub last: u32,
    pub gateway: u32,
    pub cursor: u32,
    pub held: Set<u32>,
}

impl PoolModel {
    /// Whether the pool may ever hand out `a`: it lies between the block's
    /// lowest and highest address, is not the gateway, and ends neither in
    /// `.0` nor in `.255`.
    pub open spec fn usable(self, a: u32) -> bool {
        &&& self.first < a < self.last
        &&& a != self.gateway
        &&& a % 256 != 0
        &&& a % 256 != 255
    }

    /// Whether the pool could hand out `a` now.
    pub open spec fn free(self, a: u32) -> bool {
        self.usable(a) && !self.held.contains(a)
    }

    /// The cursor stays in the block, and the held addresses are finitely
    /// many usable ones.
    pub open spec fn wf(self) -> bool {
        &&& self.first <= self.cursor <= self.last
        &&& self.held.finite()
        &&& forall|a: u32| #[trigger] self.held.contains(a) ==> self.usable(a)
    }

    /// How many steps upwards, wrapping at the end of the block, lead from
    /// the cursor to `a`.
    pub open spec fn distance(self, a: u32) -> int {
        if a >= self.cursor {
            a - self.cursor
        } else {
            a - self.cursor + (self.last - self.first + 1)
        }
    }

    /// The address after `a`, wrapping at the end of the block.
    pub open spec fn successor(self, a: u32) -> u32 {
        if a >= self.last {
            self.first
        } else {
            (a + 1) as u32
        }
    }

    /// Whether `a` is the free address that the search from the cursor meets
    /// first.
    pub open spec fn is_next_free(self, a: u32) -> bool {
        self.free(a) && forall|b: u32| self.free(b) ==> self.distance(a) <= self.distance(b)
    }

    /// The address that the next acquisition hands out, if any is free.
    pub open spec fn next_free(self) -> Option<u32> {
        if exists|a: u32| self.is_next_free(a) {
            Some(choose|a: u32| self.is_next_free(a))
        } else {
            None
        }
    }

    /// The pool after an acquisition.
    pub open spec fn acquire(self) -> PoolModel {
        match self.next_free() {
            Some(a) => PoolModel { cursor: self.successor(a), held: self.held.insert(a), ..self },
            None => self,
        }
    }

    /// The pool after `a` was given back.
    pub open spec fn release(self, a: u32) -> PoolModel {
        PoolModel { held: self.held.remove(a), ..self }
    }

    /// The pool after one step.
    pub open spec fn step(self, op: PoolOp) -> PoolModel {
        match op {
            PoolOp::Acquire => self.acquire(),
            PoolOp::Release(a) => self.release(a),
        }
    }

    /// The pool after a sequence of steps.
    pub open spec fn run(self, ops: Seq<PoolOp>) -> PoolModel
        decreases ops.len(),
    {
        if ops.len() == 0 {
            self
        } else {
            self.run(ops.drop_last()).step(ops.last())
        }
    }

    /// The addresses that callers hold after a sequence of steps, each
    /// counted as often as it was handed out and not yet given back.
    pub open spec fn outstanding(self, ops: Seq<PoolOp>) -> Multiset<u32>
        decreases ops.len(),
    {
        if ops.len() == 0 {
            Multiset::from_set(self.held)
        } else {
            let before = self.outstanding(ops.drop_last());
            match ops.last() {
                PoolOp::Acquire => match self.run(ops.drop_last()).next_free() {
                    Some(a) => before.insert(a),
                    None => before,
                },
                PoolOp::Release(a) => before.remove(a),
            }
        }
    }

    /// At most one address is the next free one.
    pub proof fn lemma_next_free_unique(self, a: u32, b: u32)
        requires
            self.wf(),
            self.is_next_free(a),
            self.is_next_free(b),
        ensures
            a == b,
    {
        assert(self.distance(a) <= self.distance(b));
        assert(self.distance(b) <= self.distance(a));
    }

    /// An acquisition fails exactly when no address is free, and otherwise
    /// hands out a free address.
    pub proof fn lemma_next_free(self)
        requires
            self.wf(),
        ensures
            self.next_free() matches Some(a) ==> self.is_next_free(a),
            self.next_free() is None <==> forall|b: u32| !self.free(b),
    {
        if self.next_free() is None {
            assert forall|b: u32| !self.free(b) by {
                if self.free(b) {
                    self.lemma_nearest_exists(self.distance(b), b);
                }
            }
        }
    }

    proof fn lemma_nearest_exists(self, d: int, b: u32)
        requires
            self.wf(),
            self.free(b),
            self.distance(b) == d,
        ensures
            exists|a: u32| self.is_next_free(a),
        decreases d,
    {
        if exists|c: u32| self.free(c) && self.distance(c) < d {
            let c = choose|c: u32| self.free(c) && self.distance(c) < d;
            self.lemma_nearest_exists(self.distance(c), c);
        } else {
            assert(self.is_next_free(b));
        }
    }

    /// Steps keep a pool well formed.
    pub proof fn lemma_step_wf(self, op: PoolOp)
        requires
            self.wf(),
        ensures
            self.step(op).wf(),
    {
        self.lemma_next_free();
    }

    /// Sequences of steps keep a pool well formed.
    pub proof fn lemma_run_wf(self, ops: Seq<PoolOp>)
        requires
            self.wf(),
        ensures
            self.run(ops).wf(),
        decreases ops.len(),
    {
        if ops.len() > 0 {
            self.lemma_run_wf(ops.drop_last());
            self.run(ops.drop_last()).lemma_step_wf(ops.last());
        }
    }
}

/// The held addresses stay inside the usable part of the block, and none is
/// held twice: after any sequence of acquisitions and releases on a well
/// formed pool, every address is outstanding at most once, an outstanding
/// address is usable (inside the block, neither its lowest address, its
/// highest address nor the gateway, and not ending in `.0` or `.255`), and
/// the outstanding addresses are exactly the pool's held set.
pub proof fn law_held_addresses(pool: PoolModel, ops: Seq<PoolOp>)
    requires
        pool.wf(),
    ensures
        forall|a: u32| pool.outstanding(ops).count(a) <= 1,
        forall|a: u32| pool.outstanding(ops).count(a) == 1 ==> pool.usable(a),
        forall|a: u32| pool.outstanding(ops).count(a) == 1 <==> pool.run(ops).held.contains(a),
{
    pool.lemma_run_wf(ops);
    lemma_same_block(pool, ops);
    assert forall|a: u32| pool.outstanding(ops).count(a) <= 1 && (pool.outstanding(ops).count(a)
        == 1 <==> pool.run(ops).held.contains(a)) by {
        lemma_outstanding_count(pool, ops, a);
    }
    assert forall|a: u32| pool.outstanding(ops).count(a) == 1 implies pool.usable(a) by {
        assert(pool.run(ops).held.contains(a));
        assert(pool.run(ops).usable(a));
    }
}

/// An address is outstanding once if the pool holds it, and not at all if
/// the pool does not.
pub proof fn lemma_outstanding_count(pool: PoolModel, ops: Seq<PoolOp>, a: u32)
    requires
        pool.wf(),
    ensures
        pool.outstanding(ops).count(a) == (if pool.run(ops).held.contains(a) {
            1nat
        } else {
            0nat
        }),
    decreases ops.len(),
{
    broadcast use vstd::multiset::group_multiset_axioms;

    if ops.len() == 0 {
        let m = Map::new(|k: u32| pool.held.contains(k), |v: u32| 1nat);
        assert(m.dom() =~= pool.held);
        assert(pool.outstanding(ops) == Multiset::from_map(m));
    } else {
        let before = ops.drop_last();
        lemma_outstanding_count(pool, before, a);
        pool.lemma_run_wf(before);
        let mid = pool.run(before);
        let counted = pool.outstanding(before);
        mid.lemma_next_free();
        match ops.last() {
            PoolOp::Acquire => match mid.next_free() {
                Some(x) => {
                    lemma_outstanding_count(pool, before, x);
                    assert(counted.insert(x).count(a) == counted.count(a) + (if a == x {
                        1nat
                    } else {
                        0nat
                    }));
                },
                None => {},
            },
            PoolOp::Release(x) => {
                assert(counted.remove(x).count(a) == (if a == x && counted.count(a) > 0 {
                    counted.count(a) - 1
                } else {
                    counted.count(a) as int
                }));
            },
        }
    }
}

/// Steps change neither the block nor the gateway.
pub proof fn lemma_same_block(pool: PoolModel, ops: Seq<PoolOp>)
    ensures
        pool.run(ops).first == pool.first,
        pool.run(ops).last == pool.last,
        pool.run(ops).gateway == pool.gateway,
    decreases ops.len(),
{
    if ops.len() > 0 {
        lemma_same_block(pool, ops.drop_last());
    }
}

/// A pool of virtual addresses over one block.
pub struct IPv4Pool {
    first: u32,
    last: u32,
    gateway: u32,
    cursor: u32,
    held: HashSet<u32>,
}

impl View for IPv4Pool {
    type V = PoolModel;

    closed spec fn view(&self) -> PoolModel {
        PoolModel {
            first: self.first,
            last: self.last,
            gateway: self.gateway,
            cursor: self.cursor,
            held: self.held@,
        }
    }
}

impl IPv4Pool {
    /// The held addresses are usable ones, and the cursor stays in the block.
    pub closed spec fn wf(self) -> bool {
        self@.wf()
    }

    /// What is well formed in store is well formed in the abstract.
    pub proof fn lemma_wf(self)
        requires
            self.wf(),
        ensures
            self@.wf(),
    {
    }

    /// A pool over the block `cidr` that never hands out `gateway`, with
    /// nothing held and the search starting at the block's lowest address.
    pub fn new(cidr: Ipv4Cidr, gateway: u32) -> (pool: IPv4Pool)
        ensures
            pool.wf(),
            pool@.first == cidr.spec_network(),
            pool@.last == cidr.spec_broadcast(),
            pool@.gateway == gateway,
            pool@.cursor == pool@.first,
            pool@.held == Set::<u32>::empty(),
    {
        let first = cidr.network();
        let last = cidr.broadcast();
        proof {
            use_type_invariant(cidr);
            cidr.lemma_bounds();
        }
        IPv4Pool { first, last, gateway, cursor: first, held: HashSet::new() }
    }

    /// Hands out the first free address at or after the cursor, wrapping at
    /// the end of the block, and moves the cursor behind it.
    pub fn acquire(&mut self) -> (r: Result<u32, PoolError>)
        requires
            old(self).wf(),
        ensures
            final(self).wf(),
            final(self)@ == old(self)@.acquire(),
            match r {
                Ok(a) => old(self)@.next_free() == Some(a),
                Err(e) => old(self)@.next_free() is None && e == PoolError::Exhausted,
            },
    {
        proof {
            self@.lemma_next_free();
        }
        let size: u64 = self.last as u64 - self.first as u64 + 1;
        let mut k: u64 = 0;
        while k < size
            invariant
                *self == *old(self),
                self@.wf(),
                size == self.last - self.first + 1,
                k <= size,
                forall|b: u32| self@.free(b) ==> self@.distance(b) >= k,
            decreases size - k,
        {
            let up: u64 = self.cursor as u64 + k;
            let candidate: u32 = if up <= self.last as u64 {
                up as u32
            } else {
                (up - size) as u32
            };
            assert(self@.distance(candidate) == k);
            let usable = self.first < candidate && candidate < self.last && candidate
                != self.gateway && candidate % 256 != 0 && candidate % 256 != 255;
            if usable && !self.held.contains(&candidate) {
                proof {
                    assert(self@.is_next_free(candidate));
                    let chosen = choose|a: u32| self@.is_next_free(a);
                    self@.lemma_next_free_unique(candidate, chosen);
                }
                let ghost before = self@;
                self.held.insert(candidate);
                self.cursor = if candidate >= self.last {
                    self.first
                } else {
                    candidate + 1
                };
                assert(self@ == before.acquire());
                return Ok(candidate);
            }
            assert forall|b: u32| self@.free(b) implies self@.distance(b) >= k + 1 by {
                if self@.distance(b) == k {
                    assert(b == candidate);
                }
            }
            k += 1;
        }
        proof {
            assert forall|b: u32| !self@.free(b) by {
                if self@.free(b) {
                    assert(self@.distance(b) < size);
                }
            }
        }
        Err(PoolError::Exhausted)
    }

    /// Gives `a` back. Tells whether it was held; giving back an address that
    /// is not held changes nothing.
    pub fn release(&mut self, a: u32) -> (was_held: bool)
        requires
            old(self).wf(),
        ensures
            final(self).wf(),
            final(self)@ == old(self)@.release(a),
            was_held == old(self)@.held.contains(a),
    {
        let was_held = self.held.remove(&a);
        assert(self@.held =~= old(self)@.held.remove(a));
        was_held
    }

    /// Whether `a` is handed out.
    pub fn is_held(&self, a: u32) -> (b: bool)
        ensures
            b == self@.held.contains(a),
    {
        self.held.contains(&a)
    }

    /// How many addresses are handed out.
    pub fn held_count(&self) -> (n: usize)
        requires
            self.wf(),
        ensures
            n == self@.held.len(),
    {
        self.held.len()
    }
}

} // verus!
