//! The dependency graph of a registry, as spec functions, and the facts about
//! it that the build relies on.
use vstd::prelude::*;

use crate::component::RegisteredType;

verus! {

/// A registry seen as a map from interface identity to the registered
/// component's name and its dependency list.
pub type Registry = Map<u64, (Seq<char>, Seq<u64>)>;

/// No two registrations in `regs` share an interface.
pub open spec fn unique_interfaces(regs: Seq<RegisteredType>) -> bool {
    forall|i: int, j: int|
        0 <= i < regs.len() && 0 <= j < regs.len() && #[trigger] regs[i].interface
            == #[trigger] regs[j].interface ==> i == j
}

/// Some registration in `regs` is bound to `id`.
pub open spec fn registers(regs: Seq<RegisteredType>, id: u64) -> bool {
    exists|i: int| 0 <= i < regs.len() && #[trigger] regs[i].interface == id
}

/// The map view of a list of registrations with distinct interfaces.
pub open spec fn registry_of(regs: Seq<RegisteredType>) -> Registry {
    Map::new(
        |id: u64| registers(regs, id),
        |id: u64| regs[choose|i: int| 0 <= i < regs.len() && #[trigger] regs[i].interface == id].entry(),
    )
}

/// `a` is registered and lists `b` among its dependencies.
pub open spec fn depends_on(g: Registry, a: u64, b: u64) -> bool {
    g.contains_key(a) && g[a].1.contains(b)
}

/// Every dependency of every registration is itself registered.
pub open spec fn complete(g: Registry) -> bool {
    forall|a: u64, b: u64| #[trigger] depends_on(g, a, b) ==> g.contains_key(b)
}

/// `rank` strictly decreases along every edge between registered interfaces.
pub open spec fn ranked(g: Registry, rank: spec_fn(u64) -> nat) -> bool {
    forall|a: u64, b: u64| #[trigger] depends_on(g, a, b) && g.contains_key(b) ==> rank(b) < rank(a)
}

/// The registered interfaces can be ordered so that each comes after all of
/// its registered dependencies: the graph has no cycle.
pub open spec fn acyclic(g: Registry) -> bool {
    exists|rank: spec_fn(u64) -> nat| ranked(g, rank)
}

/// `p` is a cycle of `g`: distinct interfaces, each depending on the next,
/// and the last on the first. A self-dependency is a cycle of one.
pub open spec fn is_cycle(g: Registry, p: Seq<u64>) -> bool {
    &&& p.len() > 0
    &&& p.no_duplicates()
    &&& forall|i: int| 0 <= i < p.len() - 1 ==> depends_on(g, #[trigger] p[i], p[i + 1])
    &&& depends_on(g, p.last(), p[0])
}

/// The registry contains some cycle.
pub open spec fn has_cycle(g: Registry) -> bool {
    exists|p: Seq<u64>| is_cycle(g, p)
}

/// With distinct interfaces, the view maps each registration's interface to
/// that registration.
pub proof fn lemma_registry_entry(regs: Seq<RegisteredType>, k: int)
    requires
        unique_interfaces(regs),
        0 <= k < regs.len(),
    ensures
        registry_of(regs).contains_key(regs[k].interface),
        registry_of(regs)[regs[k].interface] == regs[k].entry(),
{
    let id = regs[k].interface;
    assert(registers(regs, id));
    let j = choose|i: int| 0 <= i < regs.len() && #[trigger] regs[i].interface == id;
    assert(regs[j].interface == regs[k].interface);
}

/// Along a cycle, a ranking drops by at least one at each step.
proof fn lemma_rank_along(g: Registry, p: Seq<u64>, rank: spec_fn(u64) -> nat, j: int)
    requires
        is_cycle(g, p),
        ranked(g, rank),
        0 <= j < p.len(),
    ensures
        rank(p[j]) + j <= rank(p[0]),
    decreases j,
{
    if j > 0 {
        lemma_rank_along(g, p, rank, j - 1);
        assert(depends_on(g, p[j - 1], p[j]));
        if j < p.len() - 1 {
            assert(depends_on(g, p[j], p[j + 1]));
        }
    }
}

/// A registry view holds finitely many interfaces.
pub proof fn lemma_registry_finite(regs: Seq<RegisteredType>)
    ensures
        registry_of(regs).dom().finite(),
{
    let ids = regs.map_values(|r: RegisteredType| r.interface);
    assert forall|x: u64| registry_of(regs).dom().contains(x) implies ids.to_set().contains(x) by {
        let i = choose|i: int| 0 <= i < regs.len() && #[trigger] regs[i].interface == x;
        assert(ids[i] == x);
    }
    broadcast use vstd::seq_lib::seq_to_set_is_finite;
    vstd::set_lib::lemma_len_subset(registry_of(regs).dom(), ids.to_set());
}

/// A ranking strictly decreases along a cycle, and the cycle returns to its
/// start: no ranked graph has a cycle.
pub proof fn lemma_cycle_not_ranked(g: Registry, p: Seq<u64>, rank: spec_fn(u64) -> nat)
    requires
        is_cycle(g, p),
    ensures
        !ranked(g, rank),
{
    if ranked(g, rank) {
        let n = p.len() as int;
        lemma_rank_along(g, p, rank, n - 1);
        assert(depends_on(g, p.last(), p[0]));
        if n > 1 {
            assert(depends_on(g, p[0], p[1]));
        }
    }
}

/// A cycle rules out a ranking.
pub proof fn lemma_cycle_not_acyclic(g: Registry, p: Seq<u64>)
    requires
        is_cycle(g, p),
    ensures
        !acyclic(g),
{
    if acyclic(g) {
        let rank = choose|rank: spec_fn(u64) -> nat| ranked(g, rank);
        lemma_cycle_not_ranked(g, p, rank);
    }
}

/// A list of distinct registered interfaces is no longer than the list of
/// registrations.
pub proof fn lemma_distinct_registered_bound(regs: Seq<RegisteredType>, s: Seq<u64>)
    requires
        s.no_duplicates(),
        forall|k: int| 0 <= k < s.len() ==> registers(regs, #[trigger] s[k]),
    ensures
        s.len() <= regs.len(),
{
    let ids = regs.map_values(|r: RegisteredType| r.interface);
    assert(s.to_set().subset_of(ids.to_set())) by {
        assert forall|x: u64| s.to_set().contains(x) implies ids.to_set().contains(x) by {
            let k = choose|k: int| 0 <= k < s.len() && s[k] == x;
            assert(registers(regs, s[k]));
            let i = choose|i: int| 0 <= i < regs.len() && #[trigger] regs[i].interface == s[k];
            assert(ids[i] == x);
        }
    }
    broadcast use vstd::seq_lib::seq_to_set_is_finite;
    s.unique_seq_to_set();
    ids.lemma_cardinality_of_set();
    vstd::set_lib::lemma_len_subset(s.to_set(), ids.to_set());
}

} // verus!
