use shaku::error::Error;
use shaku::module::{ModuleDefinition, ModuleUnit};

const CONFIG: u64 = 1;
const DB: u64 = 2;
const REQUEST: u64 = 3;
const MISSING: u64 = 9;

#[test]
fn provider_is_fresh_component_is_shared() {
    let mut def = ModuleDefinition::new();
    def.component("ConfigImpl", CONFIG, vec![]);
    def.component("DbImpl", DB, vec![CONFIG]);
    def.provider("RequestImpl", REQUEST, vec![DB, CONFIG]);
    let mut unit = ModuleUnit::build(def).unwrap();
    let db1 = unit.resolve_component(DB).unwrap();
    let db2 = unit.resolve_component(DB).unwrap();
    assert_eq!(db1, db2);
    let r1 = unit.provide_instance(REQUEST).unwrap();
    let r2 = unit.provide_instance(REQUEST).unwrap();
    assert_ne!(r1, r2);
    assert_eq!(r1, 0);
    assert_eq!(r2, 1);
    let config = unit.resolve_component(CONFIG).unwrap();
    assert_eq!(config, 0);
    assert_eq!(db1, 1);
}

#[test]
fn provider_with_missing_component_is_rejected() {
    let mut def = ModuleDefinition::new();
    def.component("ConfigImpl", CONFIG, vec![]);
    def.provider("RequestImpl", REQUEST, vec![MISSING]);
    assert_eq!(
        ModuleUnit::build(def).err(),
        Some(Error::UnregisteredInterface { interface: MISSING, dependent: Some(REQUEST) })
    );
}

#[test]
fn unknown_provider_is_reported() {
    let mut def = ModuleDefinition::new();
    def.component("ConfigImpl", CONFIG, vec![]);
    let mut unit = ModuleUnit::build(def).unwrap();
    assert_eq!(
        unit.provide_instance(REQUEST),
        Err(Error::UnregisteredInterface { interface: REQUEST, dependent: None })
    );
}

#[test]
fn module_component_cycle_is_rejected() {
    let mut def = ModuleDefinition::new();
    def.component("ConfigImpl", CONFIG, vec![DB]);
    def.component("DbImpl", DB, vec![CONFIG]);
    assert_eq!(
        ModuleUnit::build(def).err(),
        Some(Error::CircularDependency(vec![CONFIG, DB]))
    );
}

#[test]
fn provided_instance_holds_component_handles() {
    let mut def = ModuleDefinition::new();
    def.component("ConfigImpl", CONFIG, vec![]);
    def.component("DbImpl", DB, vec![CONFIG]);
    def.provider("RequestImpl", REQUEST, vec![DB, CONFIG]);
    let mut unit = ModuleUnit::build(def).unwrap();
    let r = unit.provide_instance(REQUEST).unwrap();
    let inst = unit.provided_instance(r).unwrap();
    assert_eq!(inst.interface, REQUEST);
    assert_eq!(inst.component, "RequestImpl");
    let db = unit.resolve_component(DB).unwrap();
    let config = unit.resolve_component(CONFIG).unwrap();
    assert_eq!(inst.dependencies, vec![db, config]);
    assert!(unit.provided_instance(r + 1).is_none());
}
