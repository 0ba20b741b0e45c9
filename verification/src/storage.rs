//! The store that ties each domain to the virtual address handed out for it,
//! in both directions, until the tie expires and is collected.
//!
//! Instants and spans of time are counted in milliseconds.

use vstd::prelude::*;
use vstd::string::StringExecFns;
use std::collections::HashSet;
use crate::ip_pool::{IPv4Pool, PoolError, PoolModel};
use crate::net::Ipv4Cidr;

verus! {

broadcast use vstd::std_specs::hash::group_hash_axioms;

/// What a domain is tied to: its virtual address, and the instant from which
/// the tie no longer counts.
pub struct Lease {
    pub ip: u32,
    pub expires_at: u64,
}

/// The instant that lies `ttl` after `now`, or the last instant there is.
pub open spec fn expiry(now: u64, ttl: u64) -> u64 {
    if now + ttl > u64::MAX {
        u64::MAX
    } else {
        (now + ttl) as u64
    }
}

/// The addresses that the leases hold.
pub open spec fn leased_ips(leases: Map<Seq<char>, Lease>) -> Set<u32> {
    Set::new(|a: u32| exists|d: Seq<char>| leases.contains_key(d) && #[trigger] leases[d].ip == a)
}

/// What the store is, apart from how it is kept: the lease of each domain,
/// and the pool that the addresses come from.
#[verifier::ext_equal]
pub struct StoreModel {
    pub leases: Map<Seq<char>, Lease>,
    pub pool: PoolModel,
}

impl StoreModel {
    /// No two domains share an address, and the pool holds exactly the
    /// addresses that are leased.
    pub open spec fn wf(self) -> bool {
        &&& self.pool.wf()
        &&& self.leases.dom().finite()
        &&& forall|d1: Seq<char>, d2: Seq<char>|
            self.leases.contains_key(d1) && self.leases.contains_key(d2)
                && #[trigger] self.leases[d1].ip == #[trigger] self.leases[d2].ip ==> d1 == d2
        &&& self.pool.held == leased_ips(self.leases)
    }

    /// The address that `domain` is tied to.
    pub open spec fn lookup_ip(self, domain: Seq<char>) -> Option<u32> {
        if self.leases.contains_key(domain) {
            Some(self.leases[domain].ip)
        } else {
            None
        }
    }

    /// Whether `d` is a domain that is tied to `ip`.
    pub open spec fn ties(self, d: Seq<char>, ip: u32) -> bool {
        self.leases.contains_key(d) && self.leases[d].ip == ip
    }

    /// The domain that is tied to `ip`.
    pub open spec fn lookup_domain(self, ip: u32) -> Option<Seq<char>> {
        if exists|d: Seq<char>| self.ties(d, ip) {
            Some(choose|d: Seq<char>| self.ties(d, ip))
        } else {
            None
        }
    }

    /// Whether `domain` has a lease that still counts at `now`.
    pub open spec fn is_live(self, domain: Seq<char>, now: u64) -> bool {
        self.leases.contains_key(domain) && self.leases[domain].expires_at > now
    }

    /// The store without the lease of `domain`, its address given back.
    pub open spec fn forget(self, domain: Seq<char>) -> StoreModel {
        if self.leases.contains_key(domain) {
            StoreModel {
                leases: self.leases.remove(domain),
                pool: self.pool.release(self.leases[domain].ip),
            }
        } else {
            self
        }
    }

    /// The store after `domain` was asked for at `now`: a live lease runs
    /// until `ttl` after `now` and keeps its address; otherwise a lease that
    /// is left over is dropped, and a new one takes the pool's next free
    /// address, if there is one.
    pub open spec fn insert_or_refresh(self, domain: Seq<char>, ttl: u64, now: u64) -> StoreModel {
        if self.is_live(domain, now) {
            StoreModel {
                leases: self.leases.insert(
                    domain,
                    Lease { ip: self.leases[domain].ip, expires_at: expiry(now, ttl) },
                ),
                pool: self.pool,
            }
        } else {
            let base = self.forget(domain);
            match base.pool.next_free() {
                Some(a) => StoreModel {
                    leases: base.leases.insert(
                        domain,
                        Lease { ip: a, expires_at: expiry(now, ttl) },
                    ),
                    pool: base.pool.acquire(),
                },
                None => base,
            }
        }
    }

    /// What asking for `domain` at `now` answers: the address of its lease,
    /// old or new, or that the pool is exhausted.
    pub open spec fn insert_result(self, domain: Seq<char>, now: u64) -> Result<u32, PoolError> {
        if self.is_live(domain, now) {
            Ok(self.leases[domain].ip)
        } else {
            match self.forget(domain).pool.next_free() {
                Some(a) => Ok(a),
                None => Err(PoolError::Exhausted),
            }
        }
    }

    /// Whether a collection at `now` leaves the lease of `domain`: it still
    /// counts at `now`, or its address is one of `keep`.
    pub open spec fn is_kept(self, domain: Seq<char>, now: u64, keep: Set<u32>) -> bool {
        self.leases.contains_key(domain) && (self.leases[domain].expires_at > now || keep.contains(
            self.leases[domain].ip,
        ))
    }

    /// The leases that a collection at `now` leaves, where the addresses of
    /// `keep` are still in use.
    pub open spec fn survivors(self, now: u64, keep: Set<u32>) -> Map<Seq<char>, Lease> {
        Map::new(|d: Seq<char>| self.is_kept(d, now, keep), |d: Seq<char>| self.leases[d])
    }

    /// The store after a collection at `now` that spares the addresses of
    /// `keep`: every other lease that expired at or before `now` is gone,
    /// and its address is back in the pool.
    pub open spec fn gc_keeping(self, now: u64, keep: Set<u32>) -> StoreModel {
        StoreModel {
            leases: self.survivors(now, keep),
            pool: PoolModel { held: leased_ips(self.survivors(now, keep)), ..self.pool },
        }
    }

    /// The store after a collection at `now`: every lease that expired at or
    /// before `now` is gone, and its address is back in the pool.
    pub open spec fn gc(self, now: u64) -> StoreModel {
        self.gc_keeping(now, Set::empty())
    }

    /// Dropping a lease keeps the store well formed.
    pub proof fn lemma_forget_wf(self, domain: Seq<char>)
        requires
            self.wf(),
        ensures
            self.forget(domain).wf(),
            self.leases.contains_key(domain) ==> self.forget(domain).pool.free(
                self.leases[domain].ip,
            ),
    {
        if self.leases.contains_key(domain) {
            let after = self.forget(domain);
            let ip = self.leases[domain].ip;
            assert(self.pool.held.contains(ip));
            assert(after.pool.held =~= leased_ips(after.leases)) by {
                assert forall|a: u32| after.pool.held.contains(a) implies leased_ips(
                    after.leases,
                ).contains(a) by {
                    let d = choose|d: Seq<char>|
                        self.leases.contains_key(d) && #[trigger] self.leases[d].ip == a;
                    assert(after.leases.contains_key(d) && after.leases[d].ip == a);
                }
            }
        }
    }

    /// Asking for a domain keeps the store well formed.
    pub proof fn lemma_insert_or_refresh_wf(self, domain: Seq<char>, ttl: u64, now: u64)
        requires
            self.wf(),
        ensures
            self.insert_or_refresh(domain, ttl, now).wf(),
    {
        let after = self.insert_or_refresh(domain, ttl, now);
        if self.is_live(domain, now) {
            assert(after.pool.held =~= leased_ips(after.leases)) by {
                assert forall|a: u32| self.pool.held.contains(a) implies leased_ips(
                    after.leases,
                ).contains(a) by {
                    let d = choose|d: Seq<char>|
                        self.leases.contains_key(d) && #[trigger] self.leases[d].ip == a;
                    assert(after.leases.contains_key(d) && after.leases[d].ip == a);
                }
            }
        } else {
            self.lemma_forget_wf(domain);
            let base = self.forget(domain);
            base.pool.lemma_next_free();
            match base.pool.next_free() {
                Some(a) => {
                    assert(!base.pool.held.contains(a));
                    assert(after.pool.held =~= leased_ips(after.leases)) by {
                        assert forall|b: u32| after.pool.held.contains(b) implies leased_ips(
                            after.leases,
                        ).contains(b) by {
                            if b == a {
                                assert(after.leases.contains_key(domain) && after.leases[domain].ip
                                    == b);
                            } else {
                                let d = choose|d: Seq<char>|
                                    base.leases.contains_key(d) && #[trigger] base.leases[d].ip
                                        == b;
                                assert(after.leases.contains_key(d) && after.leases[d].ip == b);
                            }
                        }
                    }
                },
                None => {},
            }
        }
    }

    /// A collection keeps the store well formed.
    pub proof fn lemma_gc_wf(self, now: u64, keep: Set<u32>)
        requires
            self.wf(),
        ensures
            self.gc_keeping(now, keep).wf(),
            self.gc(now).wf(),
    {
        let after = self.gc_keeping(now, keep);
        assert(after.leases.dom().subset_of(self.leases.dom()));
        vstd::set_lib::lemma_len_subset(after.leases.dom(), self.leases.dom());
        assert(after.pool.held.subset_of(self.pool.held));
        vstd::set_lib::lemma_len_subset(after.pool.held, self.pool.held);
        let plain = self.gc(now);
        assert(plain.leases.dom().subset_of(self.leases.dom()));
        vstd::set_lib::lemma_len_subset(plain.leases.dom(), self.leases.dom());
        assert(plain.pool.held.subset_of(self.pool.held));
        vstd::set_lib::lemma_len_subset(plain.pool.held, self.pool.held);
    }
}

/// Looking up the address of a domain and the domain of an address are
/// inverse to each other: in a well formed store, `domain` is tied to `ip`
/// exactly when `ip` is tied to `domain`.
pub proof fn law_lookups_are_inverse(store: StoreModel, domain: Seq<char>, ip: u32)
    requires
        store.wf(),
    ensures
        store.lookup_ip(domain) == Some(ip) <==> store.lookup_domain(ip) == Some(domain),
{
    if store.lookup_ip(domain) == Some(ip) {
        assert(store.ties(domain, ip));
    }
}

/// The address that a request answers with is tied to the domain in both
/// directions afterwards: whoever is handed the address finds the domain
/// behind it, and the domain still has that address.
pub proof fn law_answer_is_found(store: StoreModel, domain: Seq<char>, ttl: u64, now: u64, ip: u32)
    requires
        store.wf(),
        store.insert_result(domain, now) == Ok::<u32, PoolError>(ip),
    ensures
        store.insert_or_refresh(domain, ttl, now).lookup_ip(domain) == Some(ip),
        store.insert_or_refresh(domain, ttl, now).lookup_domain(ip) == Some(domain),
{
    let after = store.insert_or_refresh(domain, ttl, now);
    store.lemma_insert_or_refresh_wf(domain, ttl, now);
    law_lookups_are_inverse(after, domain, ip);
}

/// One step in the life of a store.
pub enum StoreOp {
    /// A domain is asked for, with a time to live, at an instant.
    InsertOrRefresh(Seq<char>, u64, u64),
    /// A collection at an instant.
    Gc(u64),
}

impl StoreModel {
    /// The store after one step.
    pub open spec fn step(self, op: StoreOp) -> StoreModel {
        match op {
            StoreOp::InsertOrRefresh(domain, ttl, now) => self.insert_or_refresh(domain, ttl, now),
            StoreOp::Gc(now) => self.gc(now),
        }
    }

    /// The store after a sequence of steps.
    pub open spec fn run(self, ops: Seq<StoreOp>) -> StoreModel
        decreases ops.len(),
    {
        if ops.len() == 0 {
            self
        } else {
            self.run(ops.drop_last()).step(ops.last())
        }
    }
}

/// After any sequence of requests and collections on a well formed store,
/// the two lookups are still inverse to each other.
pub proof fn law_lookups_stay_inverse(
    store: StoreModel,
    ops: Seq<StoreOp>,
    domain: Seq<char>,
    ip: u32,
)
    requires
        store.wf(),
    ensures
        store.run(ops).wf(),
        store.run(ops).lookup_ip(domain) == Some(ip) <==> store.run(ops).lookup_domain(ip) == Some(
            domain,
        ),
    decreases ops.len(),
{
    lemma_run_wf(store, ops);
    law_lookups_are_inverse(store.run(ops), domain, ip);
}

/// Steps keep a store well formed.
pub proof fn lemma_run_wf(store: StoreModel, ops: Seq<StoreOp>)
    requires
        store.wf(),
    ensures
        store.run(ops).wf(),
    decreases ops.len(),
{
    if ops.len() > 0 {
        lemma_run_wf(store, ops.drop_last());
        let mid = store.run(ops.drop_last());
        match ops.last() {
            StoreOp::InsertOrRefresh(domain, ttl, now) => {
                mid.lemma_insert_or_refresh_wf(domain, ttl, now);
            },
            StoreOp::Gc(now) => {
                mid.lemma_gc_wf(now, Set::empty());
            },
        }
    }
}

/// Collection is monotone: a later collection removes every lease that an
/// earlier one removes, and collecting at `t1` and then at `t2`, with `t1`
/// not after `t2`, leaves what collecting at `t2` alone leaves. This holds
/// whichever addresses the collections spare, as long as both spare the
/// same.
pub proof fn law_gc_is_monotone(store: StoreModel, t1: u64, t2: u64, keep: Set<u32>)
    requires
        t1 <= t2,
    ensures
        store.gc_keeping(t2, keep).leases.dom().subset_of(store.gc_keeping(t1, keep).leases.dom()),
        forall|d: Seq<char>|
            store.leases.contains_key(d) && !store.gc_keeping(t1, keep).leases.contains_key(d)
                ==> !store.gc_keeping(t2, keep).leases.contains_key(d),
        store.gc_keeping(t2, keep).pool.held.subset_of(store.gc_keeping(t1, keep).pool.held),
        store.gc_keeping(t1, keep).gc_keeping(t2, keep) == store.gc_keeping(t2, keep),
        store.gc(t2).leases.dom().subset_of(store.gc(t1).leases.dom()),
        store.gc(t1).gc(t2) == store.gc(t2),
{
    lemma_gc_twice(store, t1, t2, keep);
    lemma_gc_twice(store, t1, t2, Set::empty());
}

proof fn lemma_gc_twice(store: StoreModel, t1: u64, t2: u64, keep: Set<u32>)
    requires
        t1 <= t2,
    ensures
        store.gc_keeping(t2, keep).leases.dom().subset_of(store.gc_keeping(t1, keep).leases.dom()),
        store.gc_keeping(t2, keep).pool.held.subset_of(store.gc_keeping(t1, keep).pool.held),
        store.gc_keeping(t1, keep).gc_keeping(t2, keep) == store.gc_keeping(t2, keep),
{
    let first = store.gc_keeping(t1, keep);
    let once = store.gc_keeping(t2, keep);
    let twice = first.gc_keeping(t2, keep);
    assert(twice.leases =~= once.leases);
    assert(once.pool.held.subset_of(first.pool.held)) by {
        assert forall|a: u32| once.pool.held.contains(a) implies first.pool.held.contains(a) by {
            let d = choose|d: Seq<char>|
                once.leases.contains_key(d) && #[trigger] once.leases[d].ip == a;
            assert(first.leases.contains_key(d) && first.leases[d].ip == a);
        }
    }
}

/// One tie, as the store keeps it.
struct Binding {
    domain: String,
    ip: u32,
    expires_at: u64,
}

struct BindingView {
    domain: Seq<char>,
    ip: u32,
    expires_at: u64,
}

impl DeepView for Binding {
    type V = BindingView;

    closed spec fn deep_view(&self) -> BindingView {
        BindingView { domain: self.domain@, ip: self.ip, expires_at: self.expires_at }
    }
}

impl BindingView {
    spec fn lease(self) -> Lease {
        Lease { ip: self.ip, expires_at: self.expires_at }
    }
}

spec fn has_domain(s: Seq<BindingView>, d: Seq<char>) -> bool {
    exists|i: int| 0 <= i < s.len() && (#[trigger] s[i]).domain == d
}

spec fn place_of(s: Seq<BindingView>, d: Seq<char>) -> int {
    choose|i: int| 0 <= i < s.len() && (#[trigger] s[i]).domain == d
}

spec fn leases_of(s: Seq<BindingView>) -> Map<Seq<char>, Lease> {
    Map::new(|d: Seq<char>| has_domain(s, d), |d: Seq<char>| s[place_of(s, d)].lease())
}

/// No two ties share a domain or an address.
spec fn distinct(s: Seq<BindingView>) -> bool {
    forall|i: int, j: int|
        0 <= i < j < s.len() ==> (#[trigger] s[i]).domain != (#[trigger] s[j]).domain && s[i].ip
            != s[j].ip
}

proof fn lemma_lease_at(s: Seq<BindingView>, i: int)
    requires
        distinct(s),
        0 <= i < s.len(),
    ensures
        leases_of(s).contains_key(s[i].domain),
        leases_of(s)[s[i].domain] == s[i].lease(),
{
    let d = s[i].domain;
    assert(has_domain(s, d));
    let k = place_of(s, d);
    if k < i {
        assert(s[k].domain != s[i].domain);
    } else if i < k {
        assert(s[i].domain != s[k].domain);
    }
}

proof fn lemma_leases_finite(s: Seq<BindingView>)
    ensures
        leases_of(s).dom().finite(),
{
    let names = s.map_values(|b: BindingView| b.domain);
    vstd::seq_lib::seq_to_set_is_finite(names);
    assert(leases_of(s).dom() =~= names.to_set()) by {
        assert forall|d: Seq<char>| leases_of(s).dom().contains(d) implies names.to_set().contains(
            d,
        ) by {
            let i = place_of(s, d);
            assert(names[i] == d);
        }
        assert forall|d: Seq<char>| names.to_set().contains(d) implies leases_of(s).dom().contains(
            d,
        ) by {
            let i = choose|i: int| 0 <= i < names.len() && names[i] == d;
            assert(s[i].domain == d);
        }
    }
}

proof fn lemma_push(s: Seq<BindingView>, b: BindingView)
    requires
        distinct(s),
        !has_domain(s, b.domain),
        forall|i: int| 0 <= i < s.len() ==> (#[trigger] s[i]).ip != b.ip,
    ensures
        distinct(s.push(b)),
        leases_of(s.push(b)) == leases_of(s).insert(b.domain, b.lease()),
{
    let t = s.push(b);
    assert(distinct(t)) by {
        assert forall|i: int, j: int| 0 <= i < j < t.len() implies (#[trigger] t[i]).domain != (
        #[trigger] t[j]).domain && t[i].ip != t[j].ip by {
            assert(t[i] == s[i]);
            if j < s.len() {
                assert(t[j] == s[j]);
            }
        }
    }
    assert(leases_of(t) =~= leases_of(s).insert(b.domain, b.lease())) by {
        assert forall|d: Seq<char>| has_domain(t, d) <==> (has_domain(s, d) || d == b.domain) by {
            if has_domain(t, d) {
                let i = place_of(t, d);
                if i < s.len() {
                    assert(s[i].domain == d);
                }
            }
            if has_domain(s, d) {
                let i = place_of(s, d);
                assert(t[i].domain == d);
            }
            if d == b.domain {
                assert(t[s.len() as int].domain == d);
            }
        }
        assert forall|d: Seq<char>| has_domain(t, d) implies #[trigger] leases_of(t)[d]
            == leases_of(s).insert(b.domain, b.lease())[d] by {
            if d == b.domain {
                lemma_lease_at(t, s.len() as int);
            } else {
                let i = place_of(s, d);
                assert(t[i] == s[i]);
                lemma_lease_at(t, i);
                lemma_lease_at(s, i);
            }
        }
    }
}

proof fn lemma_swap_remove(s: Seq<BindingView>, i: int)
    requires
        distinct(s),
        0 <= i < s.len(),
    ensures
        distinct(s.update(i, s.last()).drop_last()),
        leases_of(s.update(i, s.last()).drop_last()) == leases_of(s).remove(s[i].domain),
{
    let t = s.update(i, s.last()).drop_last();
    let last = s.len() - 1;
    // where each place of `t` comes from in `s`
    let from = |k: int|
        if k == i {
            last
        } else {
            k
        };
    assert forall|k: int| 0 <= k < t.len() implies #[trigger] t[k] == s[from(k)] by {}
    assert(distinct(t)) by {
        assert forall|a: int, b: int| 0 <= a < b < t.len() implies (#[trigger] t[a]).domain != (
        #[trigger] t[b]).domain && t[a].ip != t[b].ip by {
            let x = from(a);
            let y = from(b);
            assert(t[a] == s[x] && t[b] == s[y]);
            if x < y {
                assert(s[x].domain != s[y].domain);
            } else {
                assert(s[y].domain != s[x].domain);
            }
        }
    }
    assert(leases_of(t) =~= leases_of(s).remove(s[i].domain)) by {
        assert forall|d: Seq<char>|
            has_domain(t, d) <==> (has_domain(s, d) && d != s[i].domain) by {
            if has_domain(t, d) {
                let k = place_of(t, d);
                let x = from(k);
                assert(t[k] == s[x]);
                assert(s[x].domain == d);
                if x < i {
                    assert(s[x].domain != s[i].domain);
                } else {
                    assert(s[i].domain != s[x].domain);
                }
            }
            if has_domain(s, d) && d != s[i].domain {
                let k = place_of(s, d);
                if k == last {
                    assert(t[i] == s[last]);
                    assert(t[i].domain == d);
                } else {
                    assert(t[k] == s[k]);
                    assert(t[k].domain == d);
                }
            }
        }
        assert forall|d: Seq<char>| has_domain(t, d) implies #[trigger] leases_of(t)[d]
            == leases_of(s)[d] by {
            let k = place_of(t, d);
            let x = from(k);
            assert(t[k] == s[x]);
            lemma_lease_at(t, k);
            lemma_lease_at(s, x);
        }
    }
}

/// The store of ties between domains and virtual addresses, with the pool
/// that the addresses are drawn from.
pub struct DomainIPAssociation {
    pool: IPv4Pool,
    bindings: Vec<Binding>,
}

impl View for DomainIPAssociation {
    type V = StoreModel;

    closed spec fn view(&self) -> StoreModel {
        StoreModel { leases: leases_of(self.bindings.deep_view()), pool: self.pool@ }
    }
}

impl DomainIPAssociation {
    /// No two ties share a domain or an address, and the pool holds exactly
    /// the addresses that are tied.
    pub closed spec fn wf(self) -> bool {
        &&& self.pool.wf()
        &&& distinct(self.bindings.deep_view())
        &&& self@.wf()
    }

    /// What is well formed as it is kept is well formed in the abstract.
    pub proof fn lemma_wf(self)
        requires
            self.wf(),
        ensures
            self@.wf(),
    {
    }

    /// An empty store over the addresses of `cidr`, without `gateway`.
    pub fn new(cidr: Ipv4Cidr, gateway: u32) -> (store: DomainIPAssociation)
        ensures
            store.wf(),
            store@.leases == Map::<Seq<char>, Lease>::empty(),
            store@.pool.first == cidr.spec_network(),
            store@.pool.last == cidr.spec_broadcast(),
            store@.pool.gateway == gateway,
            store@.pool.cursor == store@.pool.first,
            store@.pool.held == Set::<u32>::empty(),
    {
        let pool = IPv4Pool::new(cidr, gateway);
        let store = DomainIPAssociation { pool, bindings: Vec::new() };
        proof {
            pool.lemma_wf();
            lemma_leases_finite(store.bindings.deep_view());
            assert(store@.leases =~= Map::<Seq<char>, Lease>::empty());
            assert(store@.pool.held =~= leased_ips(store@.leases));
        }
        store
    }

    fn find(&self, key: &String) -> (r: Option<usize>)
        ensures
            match r {
                Some(i) => i < self.bindings.len() && self.bindings.deep_view()[i as int].domain
                    == key@,
                None => !has_domain(self.bindings.deep_view(), key@),
            },
    {
        let mut i: usize = 0;
        while i < self.bindings.len()
            invariant
                i <= self.bindings.len(),
                forall|j: int|
                    0 <= j < i ==> (#[trigger] self.bindings.deep_view()[j]).domain != key@,
            decreases self.bindings.len() - i,
        {
            if self.bindings[i].domain == *key {
                return Some(i);
            }
            i += 1;
        }
        None
    }

    /// Ties `domain` to an address until `ttl` after `now`. A lease that
    /// still counts at `now` keeps its address. Otherwise a lease that is
    /// left over is dropped first, and the pool's next free address is
    /// taken; where the pool has none, nothing is tied.
    pub fn insert_or_refresh(&mut self, domain: &str, ttl: u64, now: u64) -> (r: Result<
        u32,
        PoolError,
    >)
        requires
            old(self).wf(),
        ensures
            final(self).wf(),
            final(self)@ == old(self)@.insert_or_refresh(domain@, ttl, now),
            r == old(self)@.insert_result(domain@, now),
    {
        let key = String::from_str(domain);
        let until = now.saturating_add(ttl);
        let ghost before = self@;
        let ghost kept = self.bindings.deep_view();
        proof {
            before.lemma_insert_or_refresh_wf(domain@, ttl, now);
            before.lemma_forget_wf(domain@);
        }
        match self.find(&key) {
            Some(i) => {
                proof {
                    lemma_lease_at(kept, i as int);
                    lemma_swap_remove(kept, i as int);
                }
                let live = self.bindings[i].expires_at > now;
                let tie = self.bindings.swap_remove(i);
                assert(self.bindings.deep_view() =~= kept.update(
                    i as int,
                    kept.last(),
                ).drop_last());
                let ghost rest = self.bindings.deep_view();
                if live {
                    let ip = tie.ip;
                    let renewed = Binding { domain: tie.domain, ip, expires_at: until };
                    proof {
                        assert(!has_domain(rest, renewed.deep_view().domain));
                        assert forall|j: int| 0 <= j < rest.len() implies (#[trigger] rest[j]).ip
                            != ip by {
                            lemma_lease_at(rest, j);
                            assert(before.leases.contains_key(rest[j].domain));
                            assert(before.leases[rest[j].domain].ip == rest[j].ip);
                        }
                        lemma_push(rest, renewed.deep_view());
                    }
                    self.bindings.push(renewed);
                    assert(self.bindings.deep_view() =~= rest.push(renewed.deep_view()));
                    assert(self@.leases =~= before.insert_or_refresh(domain@, ttl, now).leases);
                    return Ok(ip);
                }
                self.pool.release(tie.ip);
                assert(self@ =~= before.forget(domain@));
            },
            None => {
                assert(self@ =~= before.forget(domain@));
            },
        }
        let ghost base = self@;
        let ghost rest = self.bindings.deep_view();
        proof {
            base.pool.lemma_next_free();
        }
        match self.pool.acquire() {
            Ok(a) => {
                let fresh = Binding { domain: key, ip: a, expires_at: until };
                proof {
                    assert(!has_domain(rest, domain@));
                    assert forall|j: int| 0 <= j < rest.len() implies (#[trigger] rest[j]).ip
                        != a by {
                        lemma_lease_at(rest, j);
                        assert(base.leases.contains_key(rest[j].domain));
                        assert(base.leases[rest[j].domain].ip == rest[j].ip);
                        assert(base.wf());
                        assert(leased_ips(base.leases).contains(rest[j].ip));
                    }
                    lemma_push(rest, fresh.deep_view());
                }
                self.bindings.push(fresh);
                assert(self.bindings.deep_view() =~= rest.push(fresh.deep_view()));
                assert(self@ =~= before.insert_or_refresh(domain@, ttl, now));
                Ok(a)
            },
            Err(e) => {
                assert(self@ =~= before.insert_or_refresh(domain@, ttl, now));
                Err(e)
            },
        }
    }

    /// The address that `domain` is tied to.
    pub fn lookup_ip(&self, domain: &str) -> (r: Option<u32>)
        requires
            self.wf(),
        ensures
            r == self@.lookup_ip(domain@),
    {
        let key = String::from_str(domain);
        match self.find(&key) {
            Some(i) => {
                proof {
                    lemma_lease_at(self.bindings.deep_view(), i as int);
                }
                Some(self.bindings[i].ip)
            },
            None => None,
        }
    }

    /// The domain that is tied to `ip`.
    pub fn lookup_domain(&self, ip: u32) -> (r: Option<String>)
        requires
            self.wf(),
        ensures
            match r {
                Some(d) => self@.lookup_domain(ip) == Some(d@),
                None => self@.lookup_domain(ip) is None,
            },
    {
        let ghost s = self.bindings.deep_view();
        let mut i: usize = 0;
        while i < self.bindings.len()
            invariant
                self.wf(),
                i <= self.bindings.len(),
                s == self.bindings.deep_view(),
                forall|j: int| 0 <= j < i ==> (#[trigger] s[j]).ip != ip,
            decreases self.bindings.len() - i,
        {
            if self.bindings[i].ip == ip {
                proof {
                    lemma_lease_at(s, i as int);
                    assert(self@.ties(s[i as int].domain, ip));
                    law_lookups_are_inverse(self@, s[i as int].domain, ip);
                }
                return Some(self.bindings[i].domain.clone());
            }
            i += 1;
        }
        proof {
            assert forall|d: Seq<char>| !self@.ties(d, ip) by {
                if self@.ties(d, ip) {
                    let k = place_of(s, d);
                    lemma_lease_at(s, k);
                }
            }
        }
        None
    }

    /// Collects at `now`: drops every lease that expired at or before `now`
    /// and gives its address back to the pool. Answers how many were
    /// dropped.
    pub fn gc(&mut self, now: u64) -> (dropped: usize)
        requires
            old(self).wf(),
        ensures
            final(self).wf(),
            final(self)@ == old(self)@.gc(now),
            dropped == old(self)@.leases.dom().len() - final(self)@.leases.dom().len(),
    {
        let keep: HashSet<u32> = HashSet::new();
        self.gc_keeping(now, &keep)
    }

    /// Collects at `now`, sparing the leases whose address is one of
    /// `keep`, which flows still use: drops every other lease that expired
    /// at or before `now` and gives its address back to the pool. Answers
    /// how many were dropped.
    pub fn gc_keeping(&mut self, now: u64, keep: &HashSet<u32>) -> (dropped: usize)
        requires
            old(self).wf(),
        ensures
            final(self).wf(),
            final(self)@ == old(self)@.gc_keeping(now, keep@),
            dropped == old(self)@.leases.dom().len() - final(self)@.leases.dom().len(),
    {
        let ghost before = self@;
        let total = self.bindings.len();
        let mut dropped: usize = 0;
        let mut i: usize = 0;
        proof {
            self.lemma_len();
        }
        while i < self.bindings.len()
            invariant
                self.wf(),
                before.wf(),
                i <= self.bindings.len(),
                forall|j: int|
                    0 <= j < i ==> (#[trigger] self.bindings.deep_view()[j]).expires_at > now
                        || keep@.contains(self.bindings.deep_view()[j].ip),
                forall|d: Seq<char>| before.is_kept(d, now, keep@) ==> self@.leases.contains_key(d),
                forall|d: Seq<char>| #[trigger]
                    self@.leases.contains_key(d) ==> before.leases.contains_key(d)
                        && before.leases[d] == self@.leases[d],
                self@.pool.first == before.pool.first,
                self@.pool.last == before.pool.last,
                self@.pool.gateway == before.pool.gateway,
                self@.pool.cursor == before.pool.cursor,
                total == before.leases.dom().len(),
                dropped + self.bindings.len() == total,
            decreases self.bindings.len() - i,
        {
            let ghost kept = self.bindings.deep_view();
            let ghost mid = self@;
            if self.bindings[i].expires_at <= now && !keep.contains(&self.bindings[i].ip) {
                proof {
                    lemma_lease_at(kept, i as int);
                    lemma_swap_remove(kept, i as int);
                    mid.lemma_forget_wf(kept[i as int].domain);
                }
                let tie = self.bindings.swap_remove(i);
                assert(self.bindings.deep_view() =~= kept.update(
                    i as int,
                    kept.last(),
                ).drop_last());
                self.pool.release(tie.ip);
                assert(self@ =~= mid.forget(kept[i as int].domain));
                dropped += 1;
            } else {
                i += 1;
            }
        }
        proof {
            let s = self.bindings.deep_view();
            assert(self@.leases =~= before.survivors(now, keep@)) by {
                assert forall|d: Seq<char>| self@.leases.contains_key(d) implies before.is_kept(
                    d,
                    now,
                    keep@,
                ) by {
                    let k = place_of(s, d);
                    lemma_lease_at(s, k);
                }
            }
            assert(self@ =~= before.gc_keeping(now, keep@));
            self.lemma_len();
        }
        dropped
    }

    /// The number of ties as kept is the number of leases.
    proof fn lemma_len(self)
        requires
            self.wf(),
        ensures
            self@.leases.dom().len() == self.bindings.len(),
    {
        lemma_count(self.bindings.deep_view());
    }

    /// How many domains are tied.
    pub fn len(&self) -> (n: usize)
        requires
            self.wf(),
        ensures
            n == self@.leases.dom().len(),
    {
        proof {
            self.lemma_len();
        }
        self.bindings.len()
    }

    /// The pool that the addresses are drawn from.
    pub fn pool(&self) -> (pool: &IPv4Pool)
        requires
            self.wf(),
        ensures
            pool.wf(),
            pool@ == self@.pool,
    {
        &self.pool
    }
}

proof fn lemma_count(s: Seq<BindingView>)
    requires
        distinct(s),
    ensures
        leases_of(s).dom().len() == s.len(),
        leases_of(s).dom().finite(),
    decreases s.len(),
{
    lemma_leases_finite(s);
    if s.len() == 0 {
        assert(leases_of(s).dom() =~= Set::<Seq<char>>::empty());
    } else {
        let t = s.drop_last();
        assert(distinct(t)) by {
            assert forall|i: int, j: int| 0 <= i < j < t.len() implies (#[trigger] t[i]).domain != (
            #[trigger] t[j]).domain && t[i].ip != t[j].ip by {
                assert(t[i] == s[i] && t[j] == s[j]);
            }
        }
        lemma_count(t);
        let b = s.last();
        assert(!has_domain(t, b.domain)) by {
            if has_domain(t, b.domain) {
                let k = place_of(t, b.domain);
                assert(t[k] == s[k]);
                assert(s[k].domain != s[s.len() - 1].domain);
            }
        }
        assert forall|i: int| 0 <= i < t.len() implies (#[trigger] t[i]).ip != b.ip by {
            assert(t[i] == s[i]);
            assert(s[i].ip != s[s.len() - 1].ip);
        }
        lemma_push(t, b);
        assert(t.push(b) =~= s);
    }
}

} // verus!
