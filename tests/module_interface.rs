use shaku::module::{HasComponent, HasProvider, Module, ModuleDefinition, ModuleUnit};

const MY_COMPONENT: u64 = 1;
const MY_PROVIDER: u64 = 2;

fn definition() -> ModuleDefinition {
    let mut def = ModuleDefinition::new();
    def.component("MyComponentImpl", MY_COMPONENT, vec![]);
    def.provider("MyProviderImpl", MY_PROVIDER, vec![MY_COMPONENT]);
    def
}

#[test]
fn compiles_ok() {}

#[test]
fn module_exposes_component_and_provider() {
    let mut unit = <ModuleUnit as Module>::build(definition()).unwrap();
    let c = unit.get_ref(MY_COMPONENT).unwrap();
    let p = unit.provide(MY_PROVIDER).unwrap();
    assert_eq!(c, 0);
    assert_eq!(p, 0);
}
