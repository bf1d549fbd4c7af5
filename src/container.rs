//! The registry of components, the build pass over it, and the store of
//! built instances.
use vstd::prelude::*;

use crate::component::{Component, RegisteredType};
use crate::error::Error;
use crate::graph::{
    acyclic, complete, depends_on, has_cycle, is_cycle, lemma_cycle_not_acyclic,
    lemma_distinct_registered_bound, lemma_registry_entry, lemma_registry_finite, registers, registry_of,
    unique_interfaces, ranked, Registry,
};

verus! {

/// A built service. Its dependencies are handles of the store it lives in:
/// the instances it was built from, one per declared dependency, in order.
#[derive(Debug, Clone)]
pub struct Instance {
    pub interface: u64,
    pub component: String,
    pub dependencies: Vec<usize>,
}

/// The instances `insts` were built from the registry `g`: each serves a
/// registered interface, carries that registration's name, holds one handle
/// per declared dependency to an instance built before it that serves that
/// dependency, and no interface is served twice.
pub open spec fn built_from(g: Registry, insts: Seq<Instance>) -> bool {
    &&& forall|h: int|
        0 <= h < insts.len() ==> {
            let inst = #[trigger] insts[h];
            &&& g.contains_key(inst.interface)
            &&& inst.component@ == g[inst.interface].0
            &&& inst.dependencies@.len() == g[inst.interface].1.len()
            &&& forall|j: int|
                0 <= j < inst.dependencies@.len() ==> {
                    &&& #[trigger] inst.dependencies@[j] < h
                    &&& insts[inst.dependencies@[j] as int].interface == g[inst.interface].1[j]
                }
        }
    &&& forall|h1: int, h2: int|
        0 <= h1 < insts.len() && 0 <= h2 < insts.len() && #[trigger] insts[h1].interface
            == #[trigger] insts[h2].interface ==> h1 == h2
}

/// The instances at `bounds[0]..h` split, in order, into one block per
/// dependency of instance `h`: block `j` runs from `bounds[j]` to
/// `bounds[j + 1]`, and is empty when dependency `j` was built before it,
/// else ends with dependency `j`'s own instance.
pub open spec fn dependency_blocks(insts: Seq<Instance>, h: int, bounds: Seq<int>) -> bool {
    let deps = insts[h].dependencies@;
    &&& bounds.len() == deps.len() + 1
    &&& 0 <= bounds[0]
    &&& bounds[deps.len() as int] == h
    &&& forall|j: int| 0 <= j < deps.len() ==> #[trigger] block_holds(bounds, deps, j)
}

/// Block `j` is well placed: it does not run backwards, is empty only when
/// dependency `j` was built earlier, and else ends with that dependency.
pub open spec fn block_holds(bounds: Seq<int>, deps: Seq<usize>, j: int) -> bool {
    &&& bounds[j] <= bounds[j + 1]
    &&& bounds[j] == bounds[j + 1] ==> deps[j] < bounds[j]
    &&& bounds[j] < bounds[j + 1] ==> deps[j] == bounds[j + 1] - 1
}

/// Instance `h` was built depth-first, in post-order: right after the
/// instances built for its dependencies, in their declaration order.
pub open spec fn post_order_at(insts: Seq<Instance>, h: int) -> bool {
    exists|bounds: Seq<int>| dependency_blocks(insts, h, bounds)
}

/// Every instance of `insts` was built in depth-first post-order.
pub open spec fn post_ordered(insts: Seq<Instance>) -> bool {
    forall|h: int| 0 <= h < insts.len() ==> #[trigger] post_order_at(insts, h)
}

/// Extending a store keeps the build order of the instances already in it.
proof fn lemma_post_ordered_extends(before: Seq<Instance>, after: Seq<Instance>)
    requires
        post_ordered(before),
        extends(before, after),
    ensures
        forall|h: int| 0 <= h < before.len() ==> #[trigger] post_order_at(after, h),
{
    assert forall|h: int| 0 <= h < before.len() implies #[trigger] post_order_at(after, h) by {
        assert(post_order_at(before, h));
        let b = choose|b: Seq<int>| dependency_blocks(before, h, b);
        assert(after[h] == before[h]);
        assert(after[h].dependencies@ == before[h].dependencies@);
        assert(dependency_blocks(after, h, b));
    }
}

/// The store `insts` splits, in order, into one block per interface of
/// `order`: block `k` runs from `tops[k]` to `tops[k + 1]`.
pub open spec fn registration_blocks(insts: Seq<Instance>, order: Seq<u64>, tops: Seq<int>) -> bool {
    &&& tops.len() == order.len() + 1
    &&& tops[0] == 0
    &&& tops[order.len() as int] == insts.len()
    &&& forall|k: int| 0 <= k < order.len() ==> #[trigger] top_block_holds(insts, order, tops, k)
}

/// Block `k` does not run backwards, is empty only when `order[k]` was
/// built before it, and else ends with the instance serving `order[k]`.
pub open spec fn top_block_holds(insts: Seq<Instance>, order: Seq<u64>, tops: Seq<int>, k: int) -> bool {
    &&& tops[k] <= tops[k + 1]
    &&& tops[k] == tops[k + 1] ==> exists|w: int| 0 <= w < tops[k] && #[trigger] insts[w].interface == order[k]
    &&& tops[k] < tops[k + 1] ==> insts[tops[k + 1] - 1].interface == order[k]
}

/// `b` starts with `a`.
pub open spec fn extends<T>(a: Seq<T>, b: Seq<T>) -> bool {
    a.len() <= b.len() && forall|i: int| 0 <= i < a.len() ==> #[trigger] b[i] == a[i]
}

/// Some instance in `insts` serves `id`.
pub open spec fn serves(insts: Seq<Instance>, id: u64) -> bool {
    exists|h: int| 0 <= h < insts.len() && #[trigger] insts[h].interface == id
}

/// Collects registrations; `build` turns them into a [`Container`].
pub struct ContainerBuilder {
    pub(crate) registrations: Vec<RegisteredType>,
}

impl View for ContainerBuilder {
    type V = Registry;

    closed spec fn view(&self) -> Registry {
        registry_of(self.registrations@)
    }
}

impl Default for ContainerBuilder {
    /// An empty builder.
    fn default() -> (r: Self)
        ensures
            r.wf(),
            r@.dom().finite(),
            r@ == Map::<u64, (Seq<char>, Seq<u64>)>::empty(),
            r.order() == Seq::<u64>::empty(),
    {
        ContainerBuilder::new()
    }
}

impl ContainerBuilder {
    /// The registered interfaces, in the order of their first registration:
    /// the order in which `build` visits them.
    pub closed spec fn order(&self) -> Seq<u64> {
        self.registrations@.map_values(|r: RegisteredType| r.interface)
    }

    /// No two registrations share an interface.
    pub closed spec fn wf(&self) -> bool {
        unique_interfaces(self.registrations@)
    }

    /// An empty builder.
    pub fn new() -> (r: Self)
        ensures
            r.wf(),
            r@.dom().finite(),
            r@ == Map::<u64, (Seq<char>, Seq<u64>)>::empty(),
            r.order() == Seq::<u64>::empty(),
    {
        let r = ContainerBuilder { registrations: Vec::new() };
        assert(r.order() =~= Seq::<u64>::empty());
        assert(r@ =~= Map::<u64, (Seq<char>, Seq<u64>)>::empty());
        proof {
            lemma_registry_finite(r.registrations@);
        }
        r
    }

    /// Stores `registered`, replacing the registration bound to the same
    /// interface if there is one, and says where it now stands.
    fn insert_registration(&mut self, registered: RegisteredType) -> (pos: usize)
        requires
            old(self).wf(),
        ensures
            final(self).wf(),
            final(self)@.dom().finite(),
            final(self)@ == old(self)@.insert(registered.interface, registered.entry()),
            final(self).order() == (if old(self)@.contains_key(registered.interface) {
                old(self).order()
            } else {
                old(self).order().push(registered.interface)
            }),
            pos < final(self).registrations@.len(),
            final(self).registrations@[pos as int] == registered,
    {
        let interface = registered.interface;
        let ghost old_regs = self.registrations@;
        let n = self.registrations.len();
        let mut i: usize = 0;
        while i < n
            invariant
                n == self.registrations.len(),
                self.registrations@ == old_regs,
                unique_interfaces(old_regs),
                old_regs == old(self).registrations@,
                registered.interface == interface,
                0 <= i <= n,
                forall|k: int| 0 <= k < i ==> #[trigger] old_regs[k].interface != interface,
            decreases n - i,
        {
            if self.registrations[i].interface == interface {
                proof {
                    lemma_registry_entry(old_regs, i as int);
                }
                self.registrations.push(registered);
                let _ = self.registrations.swap_remove(i);
                proof {
                    assert(self.registrations@ =~= old_regs.update(i as int, registered));
                    lemma_registry_update(old_regs, i as int, registered);
                    assert(self.registrations@.map_values(|r: RegisteredType| r.interface)
                        =~= old_regs.map_values(|r: RegisteredType| r.interface));
                    lemma_registry_finite(self.registrations@);
                }
                return i;
            }
            i += 1;
        }
        self.registrations.push(registered);
        proof {
            assert(self.registrations@ == old_regs.push(registered));
            assert(!registers(old_regs, interface));
            lemma_registry_push(old_regs, registered);
            assert(self.registrations@.map_values(|r: RegisteredType| r.interface)
                =~= old_regs.map_values(|r: RegisteredType| r.interface).push(interface));
            lemma_registry_finite(self.registrations@);
        }
        n
    }

    /// Binds `interface` to the component `component_name`, built after
    /// `dependencies`, replacing any registration already bound to
    /// `interface` (call `contains` first to report an overwrite). Hands
    /// back the new registration.
    pub fn register_lambda(
        &mut self,
        component_name: &str,
        interface: u64,
        dependencies: Vec<u64>,
    ) -> (r: &RegisteredType)
        requires
            old(self).wf(),
        ensures
            final(self).wf(),
            final(self)@.dom().finite(),
            final(self)@ == old(self)@.insert(interface, (component_name@, dependencies@)),
            final(self).order() == (if old(self)@.contains_key(interface) {
                old(self).order()
            } else {
                old(self).order().push(interface)
            }),
            r.interface == interface,
            r.component@ == component_name@,
            r.dependencies@ == dependencies@,
    {
        let registered = RegisteredType::new(component_name.to_string(), interface, dependencies);
        let pos = self.insert_registration(registered);
        &self.registrations[pos]
    }

    /// Whether some registration is bound to `interface`.
    pub fn contains(&self, interface: u64) -> (r: bool)
        requires
            self.wf(),
        ensures
            r == self@.contains_key(interface),
    {
        let mut k: usize = 0;
        while k < self.registrations.len()
            invariant
                0 <= k <= self.registrations@.len(),
                forall|j: int| 0 <= j < k ==> #[trigger] self.registrations@[j].interface != interface,
            decreases self.registrations@.len() - k,
        {
            if self.registrations[k].interface == interface {
                return true;
            }
            k += 1;
        }
        false
    }

    /// Registers the component `C` under the interface it declares, replacing
    /// any registration already bound to that interface, and hands back the
    /// new registration.
    pub fn register_type<C: Component>(&mut self) -> (r: &RegisteredType)
        requires
            old(self).wf(),
        ensures
            final(self).wf(),
            final(self)@.dom().finite(),
            final(self)@ == old(self)@.insert(C::INTERFACE, (C::NAME@, C::DEPENDENCIES@)),
            final(self).order() == (if old(self)@.contains_key(C::INTERFACE) {
                old(self).order()
            } else {
                old(self).order().push(C::INTERFACE)
            }),

            r.interface == C::INTERFACE,
            r.component@ == C::NAME@,
            r.dependencies@ == C::DEPENDENCIES@,
    {
        let deps = C::DEPENDENCIES;
        let mut dependencies: Vec<u64> = Vec::new();
        let mut j: usize = 0;
        while j < deps.len()
            invariant
                deps@ == C::DEPENDENCIES@,
                0 <= j <= deps@.len(),
                dependencies@ == deps@.subrange(0, j as int),
            decreases deps@.len() - j,
        {
            dependencies.push(deps[j]);
            j += 1;
        }
        assert(dependencies@ =~= deps@);
        self.register_lambda(C::NAME, C::INTERFACE, dependencies)
    }
}

/// What a failed `build` reports about the registry `g`: a missing interface
/// together with the registration that depends on it, or a cycle.
pub open spec fn build_failure(g: Registry, e: Error) -> bool {
    match e {
        Error::UnregisteredInterface { interface: i, dependent: Some(d) } => !g.contains_key(i)
            && depends_on(g, d, i),
        Error::UnregisteredInterface { dependent: None, .. } => false,
        Error::CircularDependency(p) => is_cycle(g, p@),
        Error::WrongType { .. } => false,
    }
}

/// The instances of one successful build pass, one per registered interface,
/// each reached through its handle (its position in the store).
pub struct Container {
    instances: Vec<Instance>,
    registry: Ghost<Registry>,
}

impl View for Container {
    type V = Seq<Instance>;

    closed spec fn view(&self) -> Seq<Instance> {
        self.instances@
    }
}

impl Container {
    /// The registry this store was built from.
    pub closed spec fn registry(&self) -> Registry {
        self.registry@
    }

    /// Built from its registry, with an instance for every registered
    /// interface.
    pub open spec fn wf(&self) -> bool {
        &&& built_from(self.registry(), self@)
        &&& post_ordered(self@)
        &&& forall|id: u64| #[trigger] self.registry().contains_key(id) ==> serves(self@, id)
    }

    /// Number of instances held.
    pub fn len(&self) -> (r: usize)
        ensures
            r == self@.len(),
    {
        self.instances.len()
    }

    /// The handle of the instance serving `interface`. Retrieval never
    /// builds anything.
    pub fn resolve(&self, interface: u64) -> (r: Result<usize, Error>)
        ensures
            r is Ok <==> serves(self@, interface),
            r matches Ok(h) ==> h < self@.len() && self@[h as int].interface == interface,
            r matches Err(e) ==> e == (Error::UnregisteredInterface { interface, dependent: None }),
    {
        let mut h: usize = 0;
        while h < self.instances.len()
            invariant
                0 <= h <= self@.len(),
                forall|k: int| 0 <= k < h ==> #[trigger] self@[k].interface != interface,
            decreases self@.len() - h,
        {
            if self.instances[h].interface == interface {
                return Ok(h);
            }
            h += 1;
        }
        Err(Error::UnregisteredInterface { interface, dependent: None })
    }

    /// The instance behind `handle`, read as serving `interface`: its tag is
    /// checked, and a mismatch is reported rather than trusted.
    pub fn get(&self, handle: usize, interface: u64) -> (r: Result<&Instance, Error>)
        ensures
            r is Ok <==> handle < self@.len() && self@[handle as int].interface == interface,
            r matches Ok(inst) ==> *inst == self@[handle as int],
            handle >= self@.len() ==> r == Err::<&Instance, Error>(
                Error::UnregisteredInterface { interface, dependent: None },
            ),
            handle < self@.len() && self@[handle as int].interface != interface ==> r == Err::<
                &Instance,
                Error,
            >(Error::WrongType { expected: interface, found: self@[handle as int].interface }),
    {
        if handle >= self.instances.len() {
            return Err(Error::UnregisteredInterface { interface, dependent: None });
        }
        let inst = &self.instances[handle];
        if inst.interface != interface {
            return Err(Error::WrongType { expected: interface, found: inst.interface });
        }
        Ok(inst)
    }

    /// The instance serving `interface`, by reference.
    pub fn resolve_ref(&self, interface: u64) -> (r: Result<&Instance, Error>)
        ensures
            r is Ok <==> serves(self@, interface),
            r matches Ok(inst) ==> inst.interface == interface && exists|h: int|
                0 <= h < self@.len() && self@[h] == *inst,
            r matches Err(e) ==> e == (Error::UnregisteredInterface { interface, dependent: None }),
    {
        match self.resolve(interface) {
            Ok(h) => self.get(h, interface),
            Err(e) => Err(e),
        }
    }
}

/// A store built from `g` with every registered interface served witnesses
/// that `g` is complete and acyclic: an instance's position ranks it.
proof fn lemma_built_store_is_sound(g: Registry, insts: Seq<Instance>)
    requires
        built_from(g, insts),
        forall|id: u64| #[trigger] g.contains_key(id) ==> serves(insts, id),
    ensures
        complete(g),
        acyclic(g),
{
    let rank = |id: u64| (choose|h: int| 0 <= h < insts.len() && #[trigger] insts[h].interface == id) as nat;
    assert forall|a: u64, b: u64| #[trigger] depends_on(g, a, b) implies g.contains_key(b) && rank(b) < rank(a) by {
        assert(serves(insts, a));
        let ha = choose|h: int| 0 <= h < insts.len() && #[trigger] insts[h].interface == a;
        let j = choose|j: int| 0 <= j < g[a].1.len() && g[a].1[j] == b;
        let inst = insts[ha];
        let hb = inst.dependencies@[j] as int;
        assert(hb < ha);
        assert(insts[hb].interface == b);
        assert(serves(insts, b));
        let hb2 = choose|h: int| 0 <= h < insts.len() && #[trigger] insts[h].interface == b;
        assert(insts[hb2].interface == insts[hb].interface);
    }
    assert(ranked(g, rank));
}

/// What a failed build pass may report about the registry `g`, when
/// resolution was asked for `interface`: a missing interface that a
/// registration depends on (or `interface` itself, when nothing asked for
/// it), or a cycle.
pub open spec fn valid_build_error(g: Registry, interface: u64, e: Error) -> bool {
    match e {
        Error::UnregisteredInterface { interface: i, dependent: Some(d) } => !g.contains_key(i)
            && depends_on(g, d, i),
        Error::UnregisteredInterface { interface: i, dependent: None } => !g.contains_key(i) && i
            == interface,
        Error::CircularDependency(p) => is_cycle(g, p@),
        Error::WrongType { .. } => false,
    }
}

/// The state of a build pass: the registrations, the instances built so
/// far, and the chain of interfaces whose build is in progress.
pub struct ContainerBuildContext {
    pub(crate) registrations: Vec<RegisteredType>,
    pub(crate) instances: Vec<Instance>,
    pub(crate) resolution_chain: Vec<u64>,
}

impl ContainerBuildContext {
    /// The registry being built.
    pub closed spec fn registry(&self) -> Registry {
        registry_of(self.registrations@)
    }

    /// The instances built so far, in the order they were built.
    pub closed spec fn built(&self) -> Seq<Instance> {
        self.instances@
    }

    /// The interfaces whose build is in progress, outermost first.
    pub closed spec fn chain(&self) -> Seq<u64> {
        self.resolution_chain@
    }

    /// Registrations have distinct interfaces; the instances were built from
    /// them; the chain lists distinct registered interfaces, none built yet,
    /// each depending on the next.
    pub closed spec fn inv(&self) -> bool {
        let regs = self.registrations@;
        let g = registry_of(regs);
        let chain = self.resolution_chain@;
        &&& unique_interfaces(regs)
        &&& built_from(g, self.instances@)
        &&& post_ordered(self.instances@)
        &&& chain.no_duplicates()
        &&& forall|k: int| 0 <= k < chain.len() ==> registers(regs, #[trigger] chain[k])
        &&& forall|k: int| 0 <= k < chain.len() ==> !serves(self.instances@, #[trigger] chain[k])
        &&& forall|k: int|
            0 <= k < chain.len() - 1 ==> depends_on(g, #[trigger] chain[k], chain[k + 1])
    }

    /// Starts a pass over the registrations of `builder`.
    pub(crate) fn new(builder: ContainerBuilder) -> (r: Self)
        requires
            builder.wf(),
        ensures
            r.inv(),
            r.registrations@ == builder.registrations@,
            r.registry() == builder@,
            r.built() == Seq::<Instance>::empty(),
            r.chain() == Seq::<u64>::empty(),
    {
        ContainerBuildContext {
            registrations: builder.registrations,
            instances: Vec::new(),
            resolution_chain: Vec::new(),
        }
    }

    /// Resolves `interface`: hands back the handle of its instance, building
    /// it first (its dependencies in order, then itself) if it was not built
    /// yet. `dependent` is the registration that asked for it, the last link
    /// of the chain of builds in progress.
    pub(crate) fn resolve(&mut self, interface: u64, dependent: Option<u64>) -> (r: Result<usize, Error>)
        requires
            old(self).inv(),
            dependent is None ==> old(self).chain().len() == 0,
            dependent matches Some(d) ==> old(self).chain().len() > 0 && old(self).chain().last()
                == d && depends_on(old(self).registry(), d, interface),
        ensures
            final(self).inv(),
            final(self).registrations@ == old(self).registrations@,
            final(self).chain() == old(self).chain(),
            extends(old(self).built(), final(self).built()),
            r matches Ok(h) ==> h < final(self).built().len() && final(self).built()[h as int].interface
                == interface,
            r is Ok && serves(old(self).built(), interface) ==> final(self).built() == old(self).built(),
            r matches Ok(h) ==> (!serves(old(self).built(), interface) ==> {
                &&& h == final(self).built().len() - 1
                &&& exists|bounds: Seq<int>|
                    dependency_blocks(final(self).built(), h as int, bounds) && bounds[0]
                        == old(self).built().len()
            }),
            r matches Err(e) ==> valid_build_error(old(self).registry(), interface, e),
            r matches Err(Error::UnregisteredInterface { dependent: None, .. }) ==> dependent is None,
        decreases old(self).registrations@.len() - old(self).resolution_chain@.len(),
    {
        let ghost regs = self.registrations@;
        let ghost g = registry_of(regs);
        let ghost chain = self.resolution_chain@;
        if let Some(h) = self.find_instance(interface) {
            return Ok(h);
        }
        let k = match self.find_registration(interface) {
            Some(k) => k,
            None => {
                return Err(Error::UnregisteredInterface { interface, dependent });
            },
        };
        if let Some(p) = self.find_in_chain(interface) {
            let cycle = self.chain_from(p);
            proof {
                let c = cycle@;
                assert(c.len() > 0);
                assert(c.no_duplicates()) by {
                    assert forall|a: int, b: int| 0 <= a < c.len() && 0 <= b < c.len() && a != b
                        implies c[a] != c[b] by {
                        assert(c[a] == chain[a + p]);
                        assert(c[b] == chain[b + p]);
                    }
                }
                assert forall|i: int| 0 <= i < c.len() - 1 implies depends_on(g, #[trigger] c[i], c[i + 1]) by {
                    assert(c[i] == chain[i + p]);
                    assert(c[i + 1] == chain[i + p + 1]);
                }
                assert(c.last() == chain.last());
                assert(c[0] == interface);
            }
            return Err(Error::CircularDependency(cycle));
        }
        proof {
            lemma_registry_entry(regs, k as int);
            let longer = chain.push(interface);
            assert forall|i: int| 0 <= i < longer.len() implies registers(regs, #[trigger] longer[i]) by {
                if i == chain.len() {
                    assert(regs[k as int].interface == interface);
                }
            }
            lemma_distinct_registered_bound(regs, longer);
        }
        self.resolution_chain.push(interface);
        proof {
            assert(self.inv()) by {
                let c2 = self.resolution_chain@;
                assert forall|i: int| 0 <= i < c2.len() - 1 implies depends_on(g, #[trigger] c2[i], c2[i + 1]) by {
                    if i < chain.len() - 1 {
                        assert(c2[i] == chain[i] && c2[i + 1] == chain[i + 1]);
                    }
                }
                assert forall|i: int| 0 <= i < c2.len() implies registers(regs, #[trigger] c2[i]) by {
                    if i == chain.len() {
                        assert(regs[k as int].interface == interface);
                    }
                }
            }
        }
        let n_deps = self.registrations[k].dependencies.len();
        let mut handles: Vec<usize> = Vec::new();
        let mut j: usize = 0;
        let ghost mut bounds: Seq<int> = seq![self.instances@.len() as int];
        while j < n_deps
            invariant
                self.inv(),
                bounds.len() == j + 1,
                bounds[0] == old(self).instances@.len(),
                bounds[j as int] == self.instances@.len(),
                forall|t: int| 0 <= t < j ==> #[trigger] block_holds(bounds, handles@, t),
                self.registrations@ == regs,
                regs == old(self).registrations@,
                chain == old(self).resolution_chain@,
                chain.len() + 1 <= regs.len(),
                g == registry_of(regs),
                unique_interfaces(regs),
                self.resolution_chain@ == chain.push(interface),
                extends(old(self).instances@, self.instances@),
                k < regs.len(),
                regs[k as int].interface == interface,
                g.contains_key(interface),
                g[interface] == regs[k as int].entry(),
                n_deps == regs[k as int].dependencies@.len(),
                0 <= j <= n_deps,
                handles@.len() == j,
                forall|t: int|
                    0 <= t < j ==> #[trigger] handles@[t] < self.instances@.len()
                        && self.instances@[handles@[t] as int].interface
                        == regs[k as int].dependencies@[t],
            decreases n_deps - j,
        {
            let dep = self.registrations[k].dependencies[j];
            proof {
                assert(g[interface].1[j as int] == dep);
                assert(depends_on(g, interface, dep));
            }
            let ghost before = self.instances@;
            let ghost old_handles = handles@;
            match self.resolve(dep, Some(interface)) {
                Ok(h) => {
                    handles.push(h);
                    proof {
                        if serves(before, dep) {
                            assert(self.instances@ == before);
                        }
                        assert(handles@[j as int] == h);
                        let old_bounds = bounds;
                        bounds = bounds.push(self.instances@.len() as int);
                        assert forall|t: int| 0 <= t < j + 1 implies #[trigger] block_holds(bounds, handles@, t) by {
                            if t < j {
                                assert(block_holds(old_bounds, old_handles, t));
                                assert(bounds[t] == old_bounds[t] && bounds[t + 1] == old_bounds[t + 1]);
                                assert(handles@[t] == old_handles[t]);
                            }
                        }
                        assert forall|t: int| 0 <= t < j + 1 implies #[trigger] handles@[t]
                            < self.instances@.len() && self.instances@[handles@[t] as int].interface
                            == regs[k as int].dependencies@[t] by {
                            if t < j {
                                assert(before[handles@[t] as int] == self.instances@[handles@[t] as int]);
                            }
                        }
                    }
                },
                Err(e) => {
                    self.resolution_chain.pop();
                    proof {
                        assert(self.resolution_chain@ =~= chain);
                        assert(self.inv());
                    }
                    return Err(e);
                },
            }
            j += 1;
        }
        self.resolution_chain.pop();
        let component = self.registrations[k].component.clone();
        let h = self.instances.len();
        let ghost before = self.instances@;
        self.instances.push(Instance { interface, component, dependencies: handles });
        proof {
            let insts = self.instances@;
            assert(extends(before, insts));
            lemma_post_ordered_extends(before, insts);
            assert(insts[h as int].dependencies@ == handles@);
            assert(bounds[n_deps as int] == h);
            assert(dependency_blocks(insts, h as int, bounds));
            assert(post_ordered(insts));
            assert(self.resolution_chain@ =~= chain);
            assert(!serves(before, interface)) by {
                assert(self.resolution_chain@.push(interface)[chain.len() as int] == interface);
            }
            let insts = self.instances@;
            assert(built_from(g, insts)) by {
                assert forall|a: int| 0 <= a < insts.len() implies {
                    let inst = #[trigger] insts[a];
                    &&& g.contains_key(inst.interface)
                    &&& inst.component@ == g[inst.interface].0
                    &&& inst.dependencies@.len() == g[inst.interface].1.len()
                    &&& forall|j2: int|
                        0 <= j2 < inst.dependencies@.len() ==> {
                            &&& #[trigger] inst.dependencies@[j2] < a
                            &&& insts[inst.dependencies@[j2] as int].interface
                                == g[inst.interface].1[j2]
                        }
                } by {
                    if a < h {
                        assert(insts[a] == before[a]);
                        let inst = insts[a];
                        assert forall|j2: int| 0 <= j2 < inst.dependencies@.len() implies
                            insts[inst.dependencies@[j2] as int] == before[inst.dependencies@[j2] as int] by {
                            assert(before[a].dependencies@[j2] < a);
                        }
                    } else {
                        assert forall|j2: int| 0 <= j2 < insts[a].dependencies@.len() implies
                            #[trigger] insts[a].dependencies@[j2] < a && insts[insts[a].dependencies@[j2] as int].interface
                                == g[interface].1[j2] by {
                            assert(handles@[j2] < before.len());
                        }
                    }
                }
                assert forall|h1: int, h2: int|
                    0 <= h1 < insts.len() && 0 <= h2 < insts.len() && #[trigger] insts[h1].interface
                        == #[trigger] insts[h2].interface implies h1 == h2 by {
                    if h1 < h && h2 < h {
                        assert(before[h1].interface == before[h2].interface);
                    } else if h1 < h {
                        assert(before[h1].interface == interface);
                    } else if h2 < h {
                        assert(before[h2].interface == interface);
                    }
                }
            }
            assert forall|i: int| 0 <= i < chain.len() implies !serves(insts, #[trigger] chain[i]) by {
                assert(!serves(before, chain[i]));
                assert(self.resolution_chain@.push(interface)[i] == chain[i]);
                if serves(insts, chain[i]) {
                    let w = choose|w: int| 0 <= w < insts.len() && #[trigger] insts[w].interface == chain[i];
                    if w < h {
                        assert(before[w].interface == chain[i]);
                    }
                }
            }
        }
        Ok(h)
    }

    /// Position of the instance serving `interface`, if one was built.
    fn find_instance(&self, interface: u64) -> (r: Option<usize>)
        ensures
            r is Some <==> serves(self.instances@, interface),
            r matches Some(h) ==> h < self.instances@.len() && self.instances@[h as int].interface
                == interface,
    {
        let mut h: usize = 0;
        while h < self.instances.len()
            invariant
                0 <= h <= self.instances@.len(),
                forall|k: int| 0 <= k < h ==> #[trigger] self.instances@[k].interface != interface,
            decreases self.instances@.len() - h,
        {
            if self.instances[h].interface == interface {
                return Some(h);
            }
            h += 1;
        }
        None
    }

    /// Position of the registration bound to `interface`, if any.
    fn find_registration(&self, interface: u64) -> (r: Option<usize>)
        ensures
            r is Some <==> registers(self.registrations@, interface),
            r matches Some(k) ==> k < self.registrations@.len()
                && self.registrations@[k as int].interface == interface,
    {
        let mut k: usize = 0;
        while k < self.registrations.len()
            invariant
                0 <= k <= self.registrations@.len(),
                forall|j: int| 0 <= j < k ==> #[trigger] self.registrations@[j].interface != interface,
            decreases self.registrations@.len() - k,
        {
            if self.registrations[k].interface == interface {
                return Some(k);
            }
            k += 1;
        }
        None
    }

    /// Position of `interface` in the chain of builds in progress, if any.
    fn find_in_chain(&self, interface: u64) -> (r: Option<usize>)
        ensures
            r is Some <==> self.resolution_chain@.contains(interface),
            r matches Some(p) ==> p < self.resolution_chain@.len()
                && self.resolution_chain@[p as int] == interface,
    {
        let mut p: usize = 0;
        while p < self.resolution_chain.len()
            invariant
                0 <= p <= self.resolution_chain@.len(),
                forall|j: int| 0 <= j < p ==> #[trigger] self.resolution_chain@[j] != interface,
            decreases self.resolution_chain@.len() - p,
        {
            if self.resolution_chain[p] == interface {
                return Some(p);
            }
            p += 1;
        }
        None
    }

    /// The chain of builds in progress from position `p` on.
    fn chain_from(&self, p: usize) -> (r: Vec<u64>)
        requires
            p <= self.resolution_chain@.len(),
        ensures
            r@ == self.resolution_chain@.subrange(p as int, self.resolution_chain@.len() as int),
    {
        let mut r: Vec<u64> = Vec::new();
        let mut k: usize = p;
        while k < self.resolution_chain.len()
            invariant
                p <= k <= self.resolution_chain@.len(),
                r@ == self.resolution_chain@.subrange(p as int, k as int),
            decreases self.resolution_chain@.len() - k,
        {
            r.push(self.resolution_chain[k]);
            k += 1;
        }
        r
    }
}

impl ContainerBuilder {
    /// Builds every registration, each dependency before its dependents and
    /// each interface once, into a [`Container`]. Registrations are visited
    /// in registration order, and each is built depth-first: its
    /// dependencies in declaration order, then itself. Succeeds exactly when every
    /// dependency is registered and the dependencies have no cycle; a failed
    /// pass hands back no store.
    pub fn build(self) -> (r: Result<Container, Error>)
        requires
            self.wf(),
        ensures
            r is Ok <==> complete(self@) && acyclic(self@),
            r matches Ok(c) ==> c.wf() && c.registry() == self@,
            r matches Ok(c) ==> exists|tops: Seq<int>| registration_blocks(c@, self.order(), tops),
            r matches Err(e) ==> build_failure(self@, e),
            complete(self@) && has_cycle(self@) ==> (r matches Err(Error::CircularDependency(p))
                && is_cycle(self@, p@)),
            acyclic(self@) && !complete(self@) ==> (r matches Err(
                Error::UnregisteredInterface { interface: i, dependent: Some(d) },
            ) && !self@.contains_key(i) && depends_on(self@, d, i)),
    {
        let ghost g = self@;
        let ghost regs = self.registrations@;
        let ghost order = self.order();
        let n = self.registrations.len();
        let mut ctx = ContainerBuildContext::new(self);
        let mut k: usize = 0;
        let ghost mut tops: Seq<int> = seq![0int];
        while k < n
            invariant
                ctx.inv(),
                order == self.order(),
                order == regs.map_values(|r: RegisteredType| r.interface),
                tops.len() == k + 1,
                tops[0] == 0,
                tops[k as int] == ctx.instances@.len(),
                forall|t: int| 0 <= t <= k ==> 0 <= #[trigger] tops[t] <= ctx.instances@.len(),
                forall|t: int| 0 <= t < k ==> #[trigger] top_block_holds(ctx.instances@, order, tops, t),
                ctx.registrations@ == regs,
                g == registry_of(regs),
                g == self@,
                n == regs.len(),
                ctx.resolution_chain@.len() == 0,
                0 <= k <= n,
                forall|t: int| 0 <= t < k ==> serves(ctx.instances@, #[trigger] regs[t].interface),
            decreases n - k,
        {
            let id = ctx.registrations[k].interface;
            let ghost before = ctx.instances@;
            match ctx.resolve(id, None) {
                Ok(h) => {
                    proof {
                        let after = ctx.instances@;
                        let old_tops = tops;
                        tops = tops.push(after.len() as int);
                        assert(order[k as int] == id);
                        if serves(before, id) {
                            assert(after == before);
                        } else if h < before.len() {
                            assert(before[h as int] == after[h as int]);
                        }
                        assert(extends(before, after));
                        assert forall|t: int| 0 <= t <= k + 1 implies 0 <= #[trigger] tops[t] <= after.len() by {
                            if t <= k {
                                assert(tops[t] == old_tops[t]);
                            }
                        }
                        assert forall|t: int| 0 <= t < k + 1 implies #[trigger] top_block_holds(after, order, tops, t) by {
                            if t < k {
                                assert(old_tops[t + 1] <= before.len());
                                assert(top_block_holds(before, order, old_tops, t));
                                assert(tops[t] == old_tops[t] && tops[t + 1] == old_tops[t + 1]);
                                if tops[t] == tops[t + 1] {
                                    let w = choose|w: int| 0 <= w < old_tops[t] && #[trigger] before[w].interface == order[t];
                                    assert(after[w] == before[w]);
                                } else {
                                    assert(after[tops[t + 1] - 1] == before[tops[t + 1] - 1]);
                                }
                            } else if tops[t] == tops[t + 1] {
                                let w = choose|w: int| 0 <= w < before.len() && #[trigger] before[w].interface == id;
                                assert(after[w].interface == order[t]);
                            }
                        }
                        assert forall|t: int| 0 <= t < k + 1 implies serves(ctx.instances@, #[trigger] regs[t].interface) by {
                            if t < k {
                                let w = choose|w: int| 0 <= w < before.len() && #[trigger] before[w].interface == regs[t].interface;
                                assert(ctx.instances@[w] == before[w]);
                            }
                        }
                    }
                },
                Err(e) => {
                    proof {
                        lemma_registry_entry(regs, k as int);
                        lemma_top_level_failure(g, id, e);
                        lemma_failure_is_sound(g, e);
                    }
                    return Err(e);
                },
            }
            k += 1;
        }
        let c = Container { instances: ctx.instances, registry: Ghost(g) };
        proof {
            assert(registration_blocks(c@, order, tops));
            assert forall|id: u64| #[trigger] g.contains_key(id) implies serves(c@, id) by {
                let t = choose|t: int| 0 <= t < regs.len() && #[trigger] regs[t].interface == id;
            }
            lemma_built_store_is_sound(g, c@);
            if has_cycle(g) {
                let p = choose|p: Seq<u64>| is_cycle(g, p);
                lemma_cycle_not_acyclic(g, p);
            }
        }
        Ok(c)
    }
}

/// Resolving a registered interface with nothing asking for it fails only
/// with what `build` reports.
proof fn lemma_top_level_failure(g: Registry, id: u64, e: Error)
    requires
        valid_build_error(g, id, e),
        g.contains_key(id),
    ensures
        build_failure(g, e),
{
}

/// A failure report rules out a complete and acyclic registry, and tells
/// which of the two does not hold.
proof fn lemma_failure_is_sound(g: Registry, e: Error)
    requires
        build_failure(g, e),
    ensures
        !(complete(g) && acyclic(g)),
        complete(g) ==> e is CircularDependency,
        acyclic(g) ==> e is UnregisteredInterface,
{
    match e {
        Error::CircularDependency(p) => {
            lemma_cycle_not_acyclic(g, p@);
        },
        Error::UnregisteredInterface { interface: i, dependent: Some(d) } => {
            assert(depends_on(g, d, i));
        },
        _ => {},
    }
}

/// What a builder's view and well-formedness are in terms of its list.
pub(crate) proof fn lemma_builder_view(b: &ContainerBuilder)
    ensures
        b@ == registry_of(b.registrations@),
        b.wf() == unique_interfaces(b.registrations@),
{
}

/// Registering twice under one interface keeps only the later
/// registration: a store built afterwards holds, for that interface, an
/// instance of the second component, built from the second dependency list.
pub proof fn lemma_last_registration_wins(
    g: Registry,
    id: u64,
    first: (Seq<char>, Seq<u64>),
    second: (Seq<char>, Seq<u64>),
    c: Container,
    h: int,
)
    requires
        c.wf(),
        c.registry() == g.insert(id, first).insert(id, second),
        0 <= h < c@.len(),
        c@[h].interface == id,
    ensures
        g.insert(id, first).insert(id, second) == g.insert(id, second),
        c@[h].component@ == second.0,
        c@[h].dependencies@.len() == second.1.len(),
        forall|j: int|
            0 <= j < second.1.len() ==> c@[c@[h].dependencies@[j] as int].interface == #[trigger] second.1[j],
{
    assert(g.insert(id, first).insert(id, second) =~= g.insert(id, second));
    let inst = c@[h];
    assert forall|j: int| 0 <= j < second.1.len() implies c@[c@[h].dependencies@[j] as int].interface
        == #[trigger] second.1[j] by {
        assert(inst.dependencies@[j] < h);
    }
}

/// Two resolutions of one interface from one store hand back the same
/// handle: one shared instance, not two equal ones.
pub proof fn lemma_resolve_is_shared(c: Container, id: u64, h1: int, h2: int)
    requires
        c.wf(),
        0 <= h1 < c@.len(),
        0 <= h2 < c@.len(),
        c@[h1].interface == id,
        c@[h2].interface == id,
    ensures
        h1 == h2,
{
}

/// A registry's view after one registration is replaced in place.
proof fn lemma_registry_update(regs: Seq<RegisteredType>, i: int, r: RegisteredType)
    requires
        unique_interfaces(regs),
        0 <= i < regs.len(),
        regs[i].interface == r.interface,
    ensures
        unique_interfaces(regs.update(i, r)),
        registry_of(regs.update(i, r)) == registry_of(regs).insert(r.interface, r.entry()),
{
    let new_regs = regs.update(i, r);
    let m = registry_of(regs).insert(r.interface, r.entry());
    assert(unique_interfaces(new_regs)) by {
        assert forall|a: int, b: int|
            0 <= a < new_regs.len() && 0 <= b < new_regs.len() && #[trigger] new_regs[a].interface
                == #[trigger] new_regs[b].interface implies a == b by {
            assert(regs[a].interface == new_regs[a].interface || a == i);
            assert(regs[b].interface == new_regs[b].interface || b == i);
            if a == i {
                assert(regs[b].interface == regs[i].interface);
            } else if b == i {
                assert(regs[a].interface == regs[i].interface);
            } else {
                assert(regs[a].interface == regs[b].interface);
            }
        }
    }
    assert forall|id: u64| #[trigger] m.contains_key(id) implies registers(new_regs, id) by {
        if id == r.interface {
            assert(new_regs[i].interface == id);
        } else {
            let k = choose|k: int| 0 <= k < regs.len() && #[trigger] regs[k].interface == id;
            assert(new_regs[k].interface == id);
        }
    }
    assert forall|id: u64| registers(new_regs, id) implies #[trigger] m.contains_key(id) by {
        let k = choose|k: int| 0 <= k < new_regs.len() && #[trigger] new_regs[k].interface == id;
        if k != i {
            assert(regs[k].interface == id);
        }
    }
    assert forall|id: u64| #[trigger] m.contains_key(id) implies registry_of(new_regs)[id] == m[id] by {
        let k = choose|k: int| 0 <= k < new_regs.len() && #[trigger] new_regs[k].interface == id;
        lemma_registry_entry(new_regs, k);
        if k != i {
            assert(regs[k] == new_regs[k]);
            lemma_registry_entry(regs, k);
        }
    }
    assert(registry_of(new_regs) =~= m);
}

/// A registry's view after a registration for a new interface is appended.
proof fn lemma_registry_push(regs: Seq<RegisteredType>, r: RegisteredType)
    requires
        unique_interfaces(regs),
        !registers(regs, r.interface),
    ensures
        unique_interfaces(regs.push(r)),
        registry_of(regs.push(r)) == registry_of(regs).insert(r.interface, r.entry()),
{
    let new_regs = regs.push(r);
    let n = regs.len() as int;
    let m = registry_of(regs).insert(r.interface, r.entry());
    assert(unique_interfaces(new_regs)) by {
        assert forall|a: int, b: int|
            0 <= a < new_regs.len() && 0 <= b < new_regs.len() && #[trigger] new_regs[a].interface
                == #[trigger] new_regs[b].interface implies a == b by {
            if a < n && b < n {
                assert(regs[a].interface == regs[b].interface);
            } else if a < n {
                assert(regs[a].interface == r.interface);
            } else if b < n {
                assert(regs[b].interface == r.interface);
            }
        }
    }
    assert forall|id: u64| #[trigger] m.contains_key(id) implies registers(new_regs, id) by {
        if id == r.interface {
            assert(new_regs[n].interface == id);
        } else {
            let k = choose|k: int| 0 <= k < regs.len() && #[trigger] regs[k].interface == id;
            assert(new_regs[k].interface == id);
        }
    }
    assert forall|id: u64| registers(new_regs, id) implies #[trigger] m.contains_key(id) by {
        let k = choose|k: int| 0 <= k < new_regs.len() && #[trigger] new_regs[k].interface == id;
        if k < n {
            assert(regs[k].interface == id);
        }
    }
    assert forall|id: u64| #[trigger] m.contains_key(id) implies registry_of(new_regs)[id] == m[id] by {
        let k = choose|k: int| 0 <= k < new_regs.len() && #[trigger] new_regs[k].interface == id;
        lemma_registry_entry(new_regs, k);
        if k < n {
            assert(regs[k] == new_regs[k]);
            lemma_registry_entry(regs, k);
        }
    }
    assert(registry_of(new_regs) =~= m);
}

} // verus!
