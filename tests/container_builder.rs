use shaku::component::Component;
use shaku::container::ContainerBuilder;
use shaku::error::Error;

const A: u64 = 10;
const B: u64 = 20;
const C: u64 = 30;
const D: u64 = 40;
const FOO: u64 = 100;

struct FooImpl;

impl Component for FooImpl {
    const INTERFACE: u64 = FOO;
    const NAME: &'static str = "FooImpl";
    const DEPENDENCIES: &'static [u64] = &[];
}

struct FooDuplicateImpl1;

impl Component for FooDuplicateImpl1 {
    const INTERFACE: u64 = FOO;
    const NAME: &'static str = "FooDuplicateImpl1";
    const DEPENDENCIES: &'static [u64] = &[];
}

struct FooDuplicateImpl2;

impl Component for FooDuplicateImpl2 {
    const INTERFACE: u64 = FOO;
    const NAME: &'static str = "FooDuplicateImpl2";
    const DEPENDENCIES: &'static [u64] = &[];
}

struct UsesFoo;

impl Component for UsesFoo {
    const INTERFACE: u64 = B;
    const NAME: &'static str = "UsesFoo";
    const DEPENDENCIES: &'static [u64] = &[FOO, A];
}

#[test]
fn register_type_copies_the_component_binding() {
    let mut builder = ContainerBuilder::new();
    builder.register_lambda("AImpl", A, vec![]);
    builder.register_type::<FooImpl>();
    let r = builder.register_type::<UsesFoo>();
    assert_eq!(r.interface, B);
    assert_eq!(r.component, "UsesFoo");
    assert_eq!(r.dependencies, vec![FOO, A]);
    let container = builder.build().unwrap();
    let b = container.resolve_ref(B).unwrap();
    assert_eq!(b.component, "UsesFoo");
    assert_eq!(
        b.dependencies,
        vec![container.resolve(FOO).unwrap(), container.resolve(A).unwrap()]
    );
}

#[test]
fn register_type_then_build_resolves() {
    let mut builder = ContainerBuilder::new();
    let r = builder.register_type::<FooImpl>();
    assert_eq!(r.interface, FOO);
    assert_eq!(r.component, "FooImpl");
    assert!(r.dependencies.is_empty());
    let container = builder.build().unwrap();
    let h = container.resolve(FOO).unwrap();
    assert_eq!(container.get(h, FOO).unwrap().component, "FooImpl");
}

#[test]
fn duplicate_registration_keeps_latest() {
    let mut builder = ContainerBuilder::new();
    builder.register_type::<FooDuplicateImpl1>();
    assert!(builder.contains(FOO));
    let r = builder.register_type::<FooDuplicateImpl2>();
    assert_eq!(r.component, "FooDuplicateImpl2");
    let container = builder.build().unwrap();
    assert_eq!(container.len(), 1);
    let foo = container.resolve_ref(FOO).unwrap();
    assert_eq!(foo.component, "FooDuplicateImpl2");
    assert!(foo.dependencies.is_empty());
}

#[test]
fn dependency_is_shared_with_store() {
    let mut builder = ContainerBuilder::new();
    builder.register_lambda("BImpl", B, vec![A]);
    builder.register_lambda("AImpl", A, vec![]);
    let container = builder.build().unwrap();
    let a = container.resolve(A).unwrap();
    let b = container.resolve(B).unwrap();
    let b_inst = container.get(b, B).unwrap();
    assert_eq!(b_inst.dependencies, vec![a]);
    assert!(a < b);
}

#[test]
fn resolve_twice_gives_same_instance() {
    let mut builder = ContainerBuilder::new();
    builder.register_lambda("AImpl", A, vec![]);
    builder.register_lambda("BImpl", B, vec![A]);
    let container = builder.build().unwrap();
    let first = container.resolve(A).unwrap();
    let second = container.resolve(A).unwrap();
    assert_eq!(first, second);
    assert!(std::ptr::eq(container.get(first, A).unwrap(), container.get(second, A).unwrap()));
}

#[test]
fn two_node_cycle_is_reported() {
    let mut builder = ContainerBuilder::new();
    builder.register_lambda("CImpl", C, vec![D]);
    builder.register_lambda("DImpl", D, vec![C]);
    match builder.build() {
        Err(Error::CircularDependency(path)) => {
            assert!(path == vec![C, D] || path == vec![D, C]);
        }
        _ => panic!("expected a circular dependency"),
    }
}

#[test]
fn self_cycle_is_reported() {
    let mut builder = ContainerBuilder::new();
    builder.register_lambda("AImpl", A, vec![]);
    builder.register_lambda("CImpl", C, vec![A, C]);
    assert_eq!(builder.build().err(), Some(Error::CircularDependency(vec![C])));
}

#[test]
fn three_node_cycle_names_every_member() {
    let mut builder = ContainerBuilder::new();
    builder.register_lambda("AImpl", A, vec![B]);
    builder.register_lambda("BImpl", B, vec![C]);
    builder.register_lambda("CImpl", C, vec![A]);
    assert_eq!(builder.build().err(), Some(Error::CircularDependency(vec![A, B, C])));
}

#[test]
fn missing_dependency_is_reported() {
    let mut builder = ContainerBuilder::new();
    builder.register_lambda("AImpl", A, vec![]);
    builder.register_lambda("BImpl", B, vec![A, D]);
    assert_eq!(
        builder.build().err(),
        Some(Error::UnregisteredInterface { interface: D, dependent: Some(B) })
    );
}

#[test]
fn empty_registry_builds_empty_store() {
    let container = ContainerBuilder::new().build().unwrap();
    assert_eq!(container.len(), 0);
    assert_eq!(
        container.resolve(A),
        Err(Error::UnregisteredInterface { interface: A, dependent: None })
    );
}

#[test]
fn orphan_registration_is_built_and_checked() {
    let mut builder = ContainerBuilder::new();
    builder.register_lambda("AImpl", A, vec![]);
    builder.register_lambda("OrphanImpl", C, vec![D]);
    assert_eq!(
        builder.build().err(),
        Some(Error::UnregisteredInterface { interface: D, dependent: Some(C) })
    );
}

#[test]
fn wrong_type_is_reported() {
    let mut builder = ContainerBuilder::new();
    builder.register_lambda("AImpl", A, vec![]);
    builder.register_lambda("BImpl", B, vec![]);
    let container = builder.build().unwrap();
    let a = container.resolve(A).unwrap();
    assert_eq!(
        container.get(a, B).err(),
        Some(Error::WrongType { expected: B, found: A })
    );
    assert_eq!(
        container.get(7, B).err(),
        Some(Error::UnregisteredInterface { interface: B, dependent: None })
    );
}

#[test]
fn contains_reports_registrations() {
    let mut builder = ContainerBuilder::new();
    builder.register_lambda("AImpl", A, vec![]);
    assert!(builder.contains(A));
    assert!(!builder.contains(B));
}

#[test]
fn default_builder_is_empty() {
    let builder = ContainerBuilder::default();
    assert!(!builder.contains(A));
    assert_eq!(builder.build().unwrap().len(), 0);
}

#[test]
fn register_lambda_returns_new_registration() {
    let mut builder = ContainerBuilder::new();
    let r = builder.register_lambda("BImpl", B, vec![A, C]);
    assert_eq!(r.interface, B);
    assert_eq!(r.component, "BImpl");
    assert_eq!(r.dependencies, vec![A, C]);
}

#[test]
fn dependencies_built_depth_first_in_declaration_order() {
    let mut builder = ContainerBuilder::new();
    builder.register_lambda("DImpl", D, vec![B, C]);
    builder.register_lambda("CImpl", C, vec![A]);
    builder.register_lambda("BImpl", B, vec![]);
    builder.register_lambda("AImpl", A, vec![]);
    let container = builder.build().unwrap();
    assert_eq!(container.resolve(B), Ok(0));
    assert_eq!(container.resolve(A), Ok(1));
    assert_eq!(container.resolve(C), Ok(2));
    assert_eq!(container.resolve(D), Ok(3));
}
