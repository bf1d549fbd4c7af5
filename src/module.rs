//! Composition units: a closed bundle of components, built once and shared,
//! and providers, built anew on every request over those components.
use vstd::prelude::*;

use crate::component::RegisteredType;
use crate::container::{
    build_failure, lemma_builder_view, serves, Container, ContainerBuilder, Instance,
};
use crate::error::Error;
use crate::graph::{acyclic, complete, depends_on, lemma_registry_entry, registry_of, Registry};

verus! {

/// Every dependency of every provider is one of the components.
pub open spec fn providers_satisfied(components: Registry, providers: Registry) -> bool {
    forall|p: u64, b: u64| #[trigger] depends_on(providers, p, b) ==> components.contains_key(b)
}

/// The bindings of a composition unit, before it is checked and built.
pub struct ModuleDefinition {
    pub(crate) components: ContainerBuilder,
    pub(crate) providers: ContainerBuilder,
}

impl ModuleDefinition {
    /// Both binding lists have distinct interfaces.
    pub closed spec fn wf(&self) -> bool {
        self.components.wf() && self.providers.wf()
    }

    /// The component bindings.
    pub closed spec fn components(&self) -> Registry {
        self.components@
    }

    /// The provider bindings.
    pub closed spec fn providers(&self) -> Registry {
        self.providers@
    }

    /// A definition with no bindings.
    pub fn new() -> (r: Self)
        ensures
            r.wf(),
            r.components() == Map::<u64, (Seq<char>, Seq<u64>)>::empty(),
            r.providers() == Map::<u64, (Seq<char>, Seq<u64>)>::empty(),
    {
        ModuleDefinition { components: ContainerBuilder::new(), providers: ContainerBuilder::new() }
    }

    /// Binds `interface` to a component: built once, shared by all users.
    pub fn component(&mut self, component_name: &str, interface: u64, dependencies: Vec<u64>)
        requires
            old(self).wf(),
        ensures
            final(self).wf(),
            final(self).components() == old(self).components().insert(
                interface,
                (component_name@, dependencies@),
            ),
            final(self).providers() == old(self).providers(),
    {
        let _ = self.components.register_lambda(component_name, interface, dependencies);
    }

    /// Binds `interface` to a provider: built anew on every request.
    pub fn provider(&mut self, component_name: &str, interface: u64, dependencies: Vec<u64>)
        requires
            old(self).wf(),
        ensures
            final(self).wf(),
            final(self).providers() == old(self).providers().insert(
                interface,
                (component_name@, dependencies@),
            ),
            final(self).components() == old(self).components(),
    {
        let _ = self.providers.register_lambda(component_name, interface, dependencies);
    }
}

/// A built composition unit: the shared component instances, and the
/// instances handed out by providers so far, each at its own handle.
pub struct ModuleUnit {
    components: Container,
    providers: Vec<RegisteredType>,
    provided: Vec<Instance>,
}

impl ModuleUnit {
    /// The shared component instances.
    pub closed spec fn components(&self) -> Container {
        self.components
    }

    /// The provider bindings.
    pub closed spec fn providers(&self) -> Registry {
        registry_of(self.providers@)
    }

    /// The provider instances handed out so far, oldest first.
    pub closed spec fn provided(&self) -> Seq<Instance> {
        self.provided@
    }

    /// The components were built from their registry, the providers have
    /// distinct interfaces, and every provider dependency is a component.
    pub closed spec fn wf(&self) -> bool {
        &&& self.components.wf()
        &&& crate::graph::unique_interfaces(self.providers@)
        &&& providers_satisfied(self.components.registry(), self.providers())
    }
}

/// What a failed provider check reports: a provider depending on an
/// interface that no component serves.
pub open spec fn provider_failure(components: Registry, providers: Registry, e: Error) -> bool {
    match e {
        Error::UnregisteredInterface { interface: i, dependent: Some(p) } => !components.contains_key(
            i,
        ) && depends_on(providers, p, i),
        _ => false,
    }
}

/// `inst` was built by the provider bound to `id`, from the component
/// instances `comps`: one handle per declared dependency, in order.
pub open spec fn provided_from(comps: Seq<Instance>, providers: Registry, id: u64, inst: Instance) -> bool {
    &&& providers.contains_key(id)
    &&& inst.interface == id
    &&& inst.component@ == providers[id].0
    &&& inst.dependencies@.len() == providers[id].1.len()
    &&& forall|j: int|
        0 <= j < inst.dependencies@.len() ==> #[trigger] inst.dependencies@[j] < comps.len()
            && comps[inst.dependencies@[j] as int].interface == providers[id].1[j]
}

/// `after` is `before` with one more provider instance, built for `id` and
/// handed out at the new handle `h`; earlier instances are kept.
pub open spec fn provision(before: ModuleUnit, id: u64, after: ModuleUnit, h: int) -> bool {
    &&& h == before.provided().len()
    &&& after.provided().len() == h + 1
    &&& after.provided().subrange(0, h) == before.provided()
    &&& provided_from(before.components()@, before.providers(), id, after.provided()[h])
}

/// Checks that every dependency of every provider is a component.
fn check_providers(components: &ContainerBuilder, providers: &ContainerBuilder) -> (r: Result<(), Error>)
    requires
        components.wf(),
        providers.wf(),
    ensures
        r is Ok <==> providers_satisfied(components@, providers@),
        r matches Err(e) ==> provider_failure(components@, providers@, e),
{
    let regs = &providers.registrations;
    proof {
        lemma_builder_view(providers);
    }
    let mut k: usize = 0;
    while k < regs.len()
        invariant
            0 <= k <= regs@.len(),
            components.wf(),
            providers.wf(),
            providers@ == registry_of(regs@),
            crate::graph::unique_interfaces(regs@),
            forall|t: int, j: int|
                0 <= t < k && 0 <= j < regs@[t].dependencies@.len() ==> components@.contains_key(
                    #[trigger] regs@[t].dependencies@[j],
                ),
        decreases regs@.len() - k,
    {
        let deps = &regs[k].dependencies;
        let mut j: usize = 0;
        while j < deps.len()
            invariant
                0 <= k < regs@.len(),
                components.wf(),
                providers@ == registry_of(regs@),
                crate::graph::unique_interfaces(regs@),
                *deps == regs@[k as int].dependencies,
                0 <= j <= deps@.len(),
                forall|t: int, j2: int|
                    0 <= t < k && 0 <= j2 < regs@[t].dependencies@.len() ==> components@.contains_key(
                        #[trigger] regs@[t].dependencies@[j2],
                    ),
                forall|j2: int| 0 <= j2 < j ==> components@.contains_key(#[trigger] deps@[j2]),
            decreases deps@.len() - j,
        {
            let d = deps[j];
            if !components.contains(d) {
                proof {
                    lemma_registry_entry(regs@, k as int);
                    assert(providers@[regs@[k as int].interface].1[j as int] == d);
                    assert(depends_on(providers@, regs@[k as int].interface, d));
                }
                return Err(Error::UnregisteredInterface { interface: d, dependent: Some(regs[k].interface) });
            }
            j += 1;
        }
        k += 1;
    }
    proof {
        assert forall|p: u64, b: u64| #[trigger] depends_on(providers@, p, b) implies components@.contains_key(b) by {
            let t = choose|t: int| 0 <= t < regs@.len() && #[trigger] regs@[t].interface == p;
            lemma_registry_entry(regs@, t);
            let j = choose|j: int| 0 <= j < regs@[t].dependencies@.len() && regs@[t].dependencies@[j] == b;
            assert(components@.contains_key(regs@[t].dependencies@[j]));
        }
    }
    Ok(())
}

impl ModuleUnit {
    /// Checks the definition, then builds every component once. Succeeds
    /// exactly when the components are complete and acyclic and every
    /// provider depends on components only.
    pub fn build(definition: ModuleDefinition) -> (r: Result<ModuleUnit, Error>)
        requires
            definition.wf(),
        ensures
            r is Ok <==> complete(definition.components()) && acyclic(definition.components())
                && providers_satisfied(definition.components(), definition.providers()),
            r matches Ok(u) ==> u.wf() && u.components().wf() && u.components().registry()
                == definition.components()
                && u.providers() == definition.providers() && u.provided().len() == 0,
            r matches Err(e) ==> build_failure(definition.components(), e) || provider_failure(
                definition.components(),
                definition.providers(),
                e,
            ),
    {
        let ModuleDefinition { components, providers } = definition;
        proof {
            lemma_builder_view(&providers);
        }
        if let Err(e) = check_providers(&components, &providers) {
            return Err(e);
        }
        match components.build() {
            Ok(c) => Ok(ModuleUnit { components: c, providers: providers.registrations, provided: Vec::new() }),
            Err(e) => Err(e),
        }
    }

    /// The handle of the shared instance of the component serving
    /// `interface`: the same handle on every call.
    pub fn resolve_component(&self, interface: u64) -> (r: Result<usize, Error>)
        ensures
            r is Ok <==> serves(self.components()@, interface),
            r matches Ok(h) ==> h < self.components()@.len() && self.components()@[h as int].interface
                == interface,
            r matches Err(e) ==> e == (Error::UnregisteredInterface { interface, dependent: None }),
    {
        self.components.resolve(interface)
    }

    /// The provider instance behind `handle`, if one was handed out there.
    pub fn provided_instance(&self, handle: usize) -> (r: Option<&Instance>)
        ensures
            r is Some <==> handle < self.provided().len(),
            r matches Some(inst) ==> *inst == self.provided()[handle as int],
    {
        if handle < self.provided.len() {
            Some(&self.provided[handle])
        } else {
            None
        }
    }

    /// Position of the provider bound to `interface`, if any.
    fn find_provider(&self, interface: u64) -> (r: Option<usize>)
        ensures
            r is Some <==> self.providers().contains_key(interface),
            r matches Some(k) ==> k < self.providers@.len() && self.providers@[k as int].interface
                == interface,
    {
        let mut k: usize = 0;
        while k < self.providers.len()
            invariant
                0 <= k <= self.providers@.len(),
                forall|j: int| 0 <= j < k ==> #[trigger] self.providers@[j].interface != interface,
            decreases self.providers@.len() - k,
        {
            if self.providers[k].interface == interface {
                return Some(k);
            }
            k += 1;
        }
        None
    }

    /// Builds a fresh instance with the provider bound to `interface`, from
    /// the shared components, and hands back its new handle.
    pub fn provide_instance(&mut self, interface: u64) -> (r: Result<usize, Error>)
        requires
            old(self).wf(),
        ensures
            final(self).wf(),
            final(self).components() == old(self).components(),
            final(self).providers() == old(self).providers(),
            r is Ok <==> old(self).providers().contains_key(interface),
            r matches Ok(h) ==> provision(*old(self), interface, *final(self), h as int),
            r is Err ==> final(self).provided() == old(self).provided() && r == Err::<usize, Error>(
                Error::UnregisteredInterface { interface, dependent: None },
            ),
    {
        let ghost g = registry_of(self.providers@);
        let k = match self.find_provider(interface) {
            Some(k) => k,
            None => {
                return Err(Error::UnregisteredInterface { interface, dependent: None });
            },
        };
        proof {
            lemma_registry_entry(self.providers@, k as int);
        }
        let n_deps = self.providers[k].dependencies.len();
        let mut handles: Vec<usize> = Vec::new();
        let mut j: usize = 0;
        while j < n_deps
            invariant
                self.wf(),
                *self == *old(self),
                k < self.providers@.len(),
                self.providers@[k as int].interface == interface,
                g == registry_of(self.providers@),
                g[interface] == self.providers@[k as int].entry(),
                n_deps == self.providers@[k as int].dependencies@.len(),
                0 <= j <= n_deps,
                handles@.len() == j,
                forall|t: int|
                    0 <= t < j ==> #[trigger] handles@[t] < self.components@.len()
                        && self.components@[handles@[t] as int].interface
                        == self.providers@[k as int].dependencies@[t],
            decreases n_deps - j,
        {
            let d = self.providers[k].dependencies[j];
            proof {
                assert(depends_on(g, interface, d));
            }
            match self.components.resolve(d) {
                Ok(h) => handles.push(h),
                Err(_) => {
                    proof {
                        assert(self.components.registry().contains_key(d));
                        assert(false);
                    }
                    return Err(Error::UnregisteredInterface { interface, dependent: None });
                },
            }
            j += 1;
        }
        let component = self.providers[k].component.clone();
        let h = self.provided.len();
        self.provided.push(Instance { interface, component, dependencies: handles });
        proof {
            assert(self.provided@.subrange(0, h as int) =~= old(self).provided@);
        }
        Ok(h)
    }
}

/// A composition unit that can be built from its definition.
pub trait Module: Sized {
    /// The unit is built and consistent.
    spec fn well_formed(&self) -> bool;

    /// Checks the definition and builds its components. Succeeds exactly
    /// when the components are complete and acyclic and every provider
    /// depends on components only.
    fn build(definition: ModuleDefinition) -> (r: Result<Self, Error>)
        requires
            definition.wf(),
        ensures
            r is Ok <==> complete(definition.components()) && acyclic(definition.components())
                && providers_satisfied(definition.components(), definition.providers()),
            r matches Ok(u) ==> u.well_formed(),
            r matches Err(e) ==> build_failure(definition.components(), e) || provider_failure(
                definition.components(),
                definition.providers(),
                e,
            ),
    ;
}

/// A composition unit that holds shared components.
pub trait HasComponent {
    /// The shared component instances, by handle.
    spec fn component_store(&self) -> Seq<Instance>;

    /// The handle of the shared instance serving `interface`.
    fn get_ref(&self, interface: u64) -> (r: Result<usize, Error>)
        ensures
            r is Ok <==> serves(self.component_store(), interface),
            r matches Ok(h) ==> h < self.component_store().len()
                && self.component_store()[h as int].interface == interface,
            r matches Err(e) ==> e == (Error::UnregisteredInterface { interface, dependent: None }),
    ;
}

/// A composition unit that can provide fresh instances of an interface.
pub trait HasProvider {
    /// The unit is in a state where providers can run.
    spec fn ready(&self) -> bool;

    /// The provider bindings.
    spec fn provider_bindings(&self) -> Registry;

    /// The provider instances handed out so far, by handle.
    spec fn provided_store(&self) -> Seq<Instance>;

    /// Builds a fresh instance serving `interface` and hands back its new
    /// handle; earlier instances are kept.
    fn provide(&mut self, interface: u64) -> (r: Result<usize, Error>)
        requires
            old(self).ready(),
        ensures
            final(self).ready(),
            final(self).provider_bindings() == old(self).provider_bindings(),
            r is Ok <==> old(self).provider_bindings().contains_key(interface),
            r matches Ok(h) ==> {
                &&& h == old(self).provided_store().len()
                &&& final(self).provided_store().len() == h + 1
                &&& final(self).provided_store().subrange(0, h as int) == old(self).provided_store()
                &&& final(self).provided_store()[h as int].interface == interface
            },
            r is Err ==> final(self).provided_store() == old(self).provided_store(),
    ;
}

impl Module for ModuleUnit {
    open spec fn well_formed(&self) -> bool {
        self.wf()
    }

    fn build(definition: ModuleDefinition) -> (r: Result<Self, Error>) {
        ModuleUnit::build(definition)
    }
}

impl HasComponent for ModuleUnit {
    open spec fn component_store(&self) -> Seq<Instance> {
        self.components()@
    }

    fn get_ref(&self, interface: u64) -> (r: Result<usize, Error>) {
        self.resolve_component(interface)
    }
}

impl HasProvider for ModuleUnit {
    open spec fn ready(&self) -> bool {
        self.wf()
    }

    open spec fn provider_bindings(&self) -> Registry {
        self.providers()
    }

    open spec fn provided_store(&self) -> Seq<Instance> {
        self.provided()
    }

    fn provide(&mut self, interface: u64) -> (r: Result<usize, Error>) {
        self.provide_instance(interface)
    }
}

/// Within one composition unit, two requests to a provider hand back two
/// distinct instances, both kept, while two requests for a component hand
/// back the same one.
pub proof fn lemma_provider_fresh_component_shared(
    before: ModuleUnit,
    middle: ModuleUnit,
    after: ModuleUnit,
    id: u64,
    p1: int,
    p2: int,
    c1: int,
    c2: int,
)
    requires
        before.wf(),
        provision(before, id, middle, p1),
        provision(middle, id, after, p2),
        0 <= c1 < before.components()@.len(),
        0 <= c2 < before.components()@.len(),
        before.components()@[c1].interface == before.components()@[c2].interface,
    ensures
        p1 != p2,
        after.provided()[p1] == middle.provided()[p1],
        after.provided()[p1].interface == id,
        after.provided()[p2].interface == id,
        c1 == c2,
{
    assert(after.provided().subrange(0, p2)[p1] == after.provided()[p1]);
}

} // verus!
