use di_engine::descriptor::{
    find_binding, BoundSet, ComponentDescriptor, ConfigSlot, ConfigValue, DefaultRule,
    DependencySlot, Lifecycle,
};
use di_engine::error::EngineError;
use di_engine::module::{check_bounds, validate, ModuleDefinition, Registry};

fn binding(
    component: u64,
    interface: u64,
    kind: Lifecycle,
    needs: &[u64],
) -> ComponentDescriptor {
    let mut dependencies = Vec::new();
    for (n, interface) in needs.iter().enumerate() {
        dependencies.push(DependencySlot { field: n as u64, interface: *interface, param: None });
    }
    ComponentDescriptor { component, interface, kind, dependencies, configuration: Vec::new() }
}

fn declared(bindings: Vec<ComponentDescriptor>) -> Result<ModuleDefinition, EngineError> {
    let mut registry = Registry::new();
    for descriptor in bindings {
        registry.register(descriptor)?;
    }
    ModuleDefinition::declare(registry, Vec::new(), Vec::new())
}

#[test]
fn second_singleton_for_an_interface_is_refused() {
    let mut registry = Registry::new();
    assert_eq!(registry.register(binding(1, 10, Lifecycle::Singleton, &[])), Ok(()));
    assert_eq!(
        registry.register(binding(2, 10, Lifecycle::Singleton, &[])),
        Err(EngineError::DuplicateSingletonBinding { interface: 10 })
    );
    // The registry is as it was: the interface still has its first binding only.
    let definition = ModuleDefinition::declare(registry, Vec::new(), Vec::new()).unwrap();
    assert_eq!(definition.len(), 1);
    assert_eq!(definition.descriptor(0).component, 1);
}

#[test]
fn providers_may_share_an_interface() {
    let mut registry = Registry::new();
    assert_eq!(registry.register(binding(1, 10, Lifecycle::Provider, &[])), Ok(()));
    assert_eq!(registry.register(binding(2, 10, Lifecycle::Provider, &[])), Ok(()));
    assert_eq!(registry.register(binding(3, 10, Lifecycle::Singleton, &[])), Ok(()));
    assert_eq!(
        registry.register(binding(4, 10, Lifecycle::Singleton, &[])),
        Err(EngineError::DuplicateSingletonBinding { interface: 10 })
    );
}

#[test]
fn the_first_binding_of_an_interface_is_found() {
    let scope = vec![
        binding(1, 10, Lifecycle::Provider, &[]),
        binding(2, 20, Lifecycle::Singleton, &[]),
        binding(3, 10, Lifecycle::Singleton, &[]),
    ];
    assert_eq!(find_binding(&scope, 10), Some(0));
    assert_eq!(find_binding(&scope, 20), Some(1));
    assert_eq!(find_binding(&scope, 30), None);
    assert_eq!(find_binding(&Vec::new(), 10), None);
}

#[test]
fn unbound_dependency_names_the_first_offending_slot() {
    let result = declared(vec![
        binding(1, 10, Lifecycle::Singleton, &[20]),
        binding(2, 20, Lifecycle::Singleton, &[10, 30, 40]),
        binding(3, 50, Lifecycle::Singleton, &[60]),
    ]);
    match result {
        Err(e) => assert_eq!(
            e,
            EngineError::UnboundDependency { component: 2, slot: 1, interface: 30 }
        ),
        Ok(_) => panic!("an unbound dependency went through"),
    }
}

#[test]
fn an_import_binds_what_the_module_lacks() {
    let library = declared(vec![binding(7, 20, Lifecycle::Singleton, &[])]).unwrap();
    let mut registry = Registry::new();
    registry.register(binding(1, 10, Lifecycle::Singleton, &[20])).unwrap();
    let definition = ModuleDefinition::declare(registry, vec![library], Vec::new()).unwrap();
    assert_eq!(definition.len(), 2);
    let rows = definition.resolved_slots();
    assert_eq!(rows.len(), 2);
    assert_eq!(rows[0].len(), 1);
    assert_eq!(rows[0][0].component, 7);
    assert_eq!(rows[0][0].interface, 20);
    assert_eq!(rows[0][0].kind, Lifecycle::Singleton);
    assert!(rows[1].is_empty());
}

#[test]
fn a_local_binding_shadows_an_imported_one() {
    let library = declared(vec![
        binding(7, 20, Lifecycle::Singleton, &[]),
        binding(8, 30, Lifecycle::Singleton, &[20]),
    ])
    .unwrap();
    let mut registry = Registry::new();
    registry.register(binding(1, 10, Lifecycle::Singleton, &[30])).unwrap();
    // A singleton for interface 20 exists in the import; the local one is no duplicate.
    assert_eq!(registry.register(binding(2, 20, Lifecycle::Singleton, &[])), Ok(()));
    let definition = ModuleDefinition::declare(registry, vec![library], Vec::new()).unwrap();
    assert_eq!(definition.len(), 4);
    let rows = definition.resolved_slots();
    // The imported component 8 now gets the local binding of interface 20.
    assert_eq!(definition.descriptor(3).component, 8);
    assert_eq!(rows[3][0].component, 2);
    assert!(validate(definition).is_ok());
}

#[test]
fn imports_come_in_the_order_given() {
    let first = declared(vec![binding(7, 20, Lifecycle::Singleton, &[])]).unwrap();
    let second = declared(vec![binding(8, 20, Lifecycle::Singleton, &[])]).unwrap();
    let mut registry = Registry::new();
    registry.register(binding(1, 10, Lifecycle::Singleton, &[20])).unwrap();
    let definition = ModuleDefinition::declare(registry, vec![first, second], Vec::new()).unwrap();
    assert_eq!(definition.descriptor(1).component, 7);
    assert_eq!(definition.descriptor(2).component, 8);
    assert_eq!(definition.resolved_slots()[0][0].component, 7);
}

#[test]
fn a_cycle_can_run_through_an_import() {
    // The import is sound by itself: its 20 depends on its own 10.
    let library = declared(vec![
        binding(7, 20, Lifecycle::Singleton, &[10]),
        binding(8, 10, Lifecycle::Singleton, &[]),
    ])
    .unwrap();
    assert!(validate(library).is_ok());
    let library = declared(vec![
        binding(7, 20, Lifecycle::Singleton, &[10]),
        binding(8, 10, Lifecycle::Singleton, &[]),
    ])
    .unwrap();
    // The importer shadows 10 with a component that needs 20.
    let mut registry = Registry::new();
    registry.register(binding(1, 10, Lifecycle::Singleton, &[20])).unwrap();
    let definition = ModuleDefinition::declare(registry, vec![library], Vec::new()).unwrap();
    match validate(definition) {
        Err(EngineError::CyclicDependency { cycle }) => assert_eq!(cycle, vec![10, 20]),
        _ => panic!("the cycle was not found"),
    }
}

#[test]
fn a_component_that_needs_itself_is_a_cycle() {
    let definition = declared(vec![
        binding(1, 10, Lifecycle::Singleton, &[]),
        binding(2, 20, Lifecycle::Provider, &[10, 20]),
    ])
    .unwrap();
    match validate(definition) {
        Err(EngineError::CyclicDependency { cycle }) => assert_eq!(cycle, vec![20]),
        _ => panic!("the cycle was not found"),
    }
}

#[test]
fn a_long_cycle_is_listed_in_the_direction_of_the_dependencies() {
    let definition = declared(vec![
        binding(1, 10, Lifecycle::Singleton, &[20]),
        binding(2, 20, Lifecycle::Singleton, &[50, 30]),
        binding(3, 30, Lifecycle::Singleton, &[40]),
        binding(4, 40, Lifecycle::Singleton, &[50, 20]),
        binding(5, 50, Lifecycle::Singleton, &[]),
    ])
    .unwrap();
    match validate(definition) {
        Err(EngineError::CyclicDependency { cycle }) => assert_eq!(cycle, vec![20, 30, 40]),
        _ => panic!("the cycle was not found"),
    }
}

#[test]
fn a_diamond_is_no_cycle() {
    let definition = declared(vec![
        binding(1, 10, Lifecycle::Singleton, &[20, 30]),
        binding(2, 20, Lifecycle::Singleton, &[40]),
        binding(3, 30, Lifecycle::Singleton, &[40]),
        binding(4, 40, Lifecycle::Singleton, &[]),
    ])
    .unwrap();
    assert!(validate(definition).is_ok());
}

#[test]
fn an_empty_module_validates() {
    let definition = declared(Vec::new()).unwrap();
    assert_eq!(definition.len(), 0);
    assert!(validate(definition).is_ok());
}

fn generic(
    dependencies: Vec<DependencySlot>,
    configuration: Vec<ConfigSlot>,
) -> ComponentDescriptor {
    ComponentDescriptor {
        component: 1,
        interface: 10,
        kind: Lifecycle::Singleton,
        dependencies,
        configuration,
    }
}

fn bounds(implements: Vec<u64>, default_constructible: bool, shareable: bool) -> BoundSet {
    BoundSet { implements, default_constructible, shareable }
}

#[test]
fn a_slot_may_use_a_parameter_within_its_bounds() {
    let params = vec![bounds(vec![20, 30], true, true)];
    let d = generic(
        vec![DependencySlot { field: 0, interface: 30, param: Some(0) }],
        vec![
            ConfigSlot { field: 1, default: DefaultRule::TypeDefault, param: Some(0) },
            ConfigSlot { field: 2, default: DefaultRule::Required, param: Some(0) },
            ConfigSlot { field: 3, default: DefaultRule::Value(ConfigValue::Int(4)), param: None },
        ],
    );
    assert_eq!(check_bounds(&params, &d), None);
}

#[test]
fn a_parameter_must_implement_the_interface_of_its_slot() {
    let params = vec![bounds(vec![20], true, true), bounds(vec![30], true, true)];
    let d = generic(
        vec![
            DependencySlot { field: 0, interface: 30, param: Some(1) },
            DependencySlot { field: 1, interface: 30, param: Some(0) },
        ],
        Vec::new(),
    );
    assert_eq!(check_bounds(&params, &d), Some(0));
}

#[test]
fn a_default_constructed_slot_needs_a_default_constructible_parameter() {
    let params = vec![bounds(Vec::new(), false, true)];
    let needs_default =
        generic(Vec::new(), vec![ConfigSlot { field: 0, default: DefaultRule::TypeDefault, param: Some(0) }]);
    assert_eq!(check_bounds(&params, &needs_default), Some(0));
    let supplied =
        generic(Vec::new(), vec![ConfigSlot { field: 0, default: DefaultRule::Required, param: Some(0) }]);
    assert_eq!(check_bounds(&params, &supplied), None);
}

#[test]
fn a_parameter_in_a_slot_must_be_shareable_and_declared() {
    let params = vec![bounds(vec![30], true, false)];
    let unshareable =
        generic(Vec::new(), vec![ConfigSlot { field: 0, default: DefaultRule::Required, param: Some(0) }]);
    assert_eq!(check_bounds(&params, &unshareable), Some(0));
    let undeclared = generic(vec![DependencySlot { field: 0, interface: 30, param: Some(3) }], Vec::new());
    assert_eq!(check_bounds(&params, &undeclared), Some(3));
}

#[test]
fn declare_checks_bounds_after_bindings() {
    let mut registry = Registry::new();
    registry
        .register(generic(
            vec![DependencySlot { field: 0, interface: 30, param: Some(0) }],
            Vec::new(),
        ))
        .unwrap();
    registry
        .register(ComponentDescriptor {
            component: 2,
            interface: 30,
            kind: Lifecycle::Singleton,
            dependencies: Vec::new(),
            configuration: Vec::new(),
        })
        .unwrap();
    let result =
        ModuleDefinition::declare(registry, Vec::new(), vec![bounds(vec![20], false, true)]);
    match result {
        Err(e) => assert_eq!(e, EngineError::UnsatisfiedGenericBound { parameter: 0 }),
        Ok(_) => panic!("a parameter was used beyond its bounds"),
    }

    // With both faults present the unbound dependency is reported.
    let mut registry = Registry::new();
    registry
        .register(generic(
            vec![DependencySlot { field: 5, interface: 30, param: Some(0) }],
            Vec::new(),
        ))
        .unwrap();
    let result = ModuleDefinition::declare(registry, Vec::new(), Vec::new());
    match result {
        Err(e) => assert_eq!(
            e,
            EngineError::UnboundDependency { component: 1, slot: 5, interface: 30 }
        ),
        Ok(_) => panic!("an unbound dependency went through"),
    }
}
