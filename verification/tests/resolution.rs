use di_engine::builder::{Builder, TypeArgument};
use di_engine::descriptor::{
    BoundSet, ComponentDescriptor, ConfigSlot, ConfigValue, DefaultRule, DependencySlot, Lifecycle,
};
use di_engine::error::EngineError;
use di_engine::instance::{
    report, settle, Access, BuildRequest, ComponentFactory, ModuleInstance, Parameter,
    ResolvedDependency, SlotState,
};
use di_engine::module::{validate, ModuleDefinition, Registry};

/// Gives the tokens 1, 2, 3, ..., keeps what it was asked, and fails for
/// the components it was told to fail for.
struct Workshop {
    issued: u64,
    requests: Vec<(u64, Vec<ResolvedDependency>, Vec<Parameter>)>,
    failing: Vec<u64>,
}

impl Workshop {
    fn new() -> Workshop {
        Workshop { issued: 0, requests: Vec::new(), failing: Vec::new() }
    }

    fn components(&self) -> Vec<u64> {
        self.requests.iter().map(|r| r.0).collect()
    }
}

impl ComponentFactory for Workshop {
    fn build(&mut self, request: &BuildRequest) -> Result<u64, u64> {
        self.requests.push((
            request.component,
            request.dependencies.clone(),
            request.parameters.clone(),
        ));
        if self.failing.contains(&request.component) {
            return Err(request.component + 9000);
        }
        self.issued += 1;
        Ok(self.issued)
    }
}

fn binding(
    component: u64,
    interface: u64,
    kind: Lifecycle,
    needs: &[u64],
    configuration: Vec<ConfigSlot>,
) -> ComponentDescriptor {
    let mut dependencies = Vec::new();
    for (n, interface) in needs.iter().enumerate() {
        dependencies.push(DependencySlot {
            field: 100 + n as u64,
            interface: *interface,
            param: None,
        });
    }
    ComponentDescriptor { component, interface, kind, dependencies, configuration }
}

fn instance(bindings: Vec<ComponentDescriptor>) -> ModuleInstance {
    let mut registry = Registry::new();
    for descriptor in bindings {
        registry.register(descriptor).unwrap();
    }
    let definition = ModuleDefinition::declare(registry, Vec::new(), Vec::new()).unwrap();
    Builder::new(validate(definition).unwrap(), Vec::new()).unwrap().build().unwrap()
}

const APP: u64 = 10;
const STORE: u64 = 20;
const CLOCK: u64 = 30;
const REQUEST: u64 = 40;

fn shop() -> Vec<ComponentDescriptor> {
    vec![
        binding(1, APP, Lifecycle::Singleton, &[STORE, CLOCK, REQUEST], Vec::new()),
        binding(2, STORE, Lifecycle::Singleton, &[CLOCK], Vec::new()),
        binding(3, CLOCK, Lifecycle::Singleton, &[], Vec::new()),
        binding(4, REQUEST, Lifecycle::Provider, &[STORE], Vec::new()),
    ]
}

#[test]
fn an_unbound_interface_is_turned_away() {
    let mut instance = instance(shop());
    let mut factory = Workshop::new();
    assert_eq!(
        instance.resolve_shared(99, &mut factory),
        Err(EngineError::UnboundInterface { interface: 99 })
    );
    assert_eq!(
        instance.resolve_exclusive(99, &mut factory),
        Err(EngineError::UnboundInterface { interface: 99 })
    );
    assert!(factory.requests.is_empty());
    assert_eq!(instance.singleton(99), None);
}

#[test]
fn dependencies_are_built_before_their_dependents() {
    let mut instance = instance(shop());
    let mut factory = Workshop::new();
    let app = instance.resolve_shared(APP, &mut factory).unwrap();
    // Store needs clock; app needs store, clock and a request, which needs store.
    assert_eq!(factory.components(), vec![3, 2, 4, 1]);
    assert_eq!(app.instance, 4);
    assert_eq!(
        factory.requests[3].1,
        vec![
            ResolvedDependency { field: 100, interface: STORE, instance: 2 },
            ResolvedDependency { field: 101, interface: CLOCK, instance: 1 },
            ResolvedDependency { field: 102, interface: REQUEST, instance: 3 },
        ]
    );
    assert_eq!(
        factory.requests[1].1,
        vec![ResolvedDependency { field: 100, interface: CLOCK, instance: 1 }]
    );
    assert_eq!(instance.singleton(APP), Some(4));
    assert_eq!(instance.singleton(STORE), Some(2));
    assert_eq!(instance.singleton(CLOCK), Some(1));
    assert_eq!(instance.singleton(REQUEST), None);
}

#[test]
fn a_singleton_is_built_once() {
    let mut instance = instance(shop());
    let mut factory = Workshop::new();
    let first = instance.resolve_shared(STORE, &mut factory).unwrap();
    let second = instance.resolve_shared(STORE, &mut factory).unwrap();
    let third = instance.resolve_exclusive(STORE, &mut factory).unwrap();
    assert_eq!(first.instance, second.instance);
    assert_eq!(first.instance, third.instance);
    assert_eq!(first.access, Access::Shared);
    assert_eq!(third.access, Access::Exclusive);
    assert_eq!(third.interface, STORE);
    assert_eq!(factory.components(), vec![3, 2]);
}

#[test]
fn a_provider_is_built_on_every_resolution() {
    let mut instance = instance(shop());
    let mut factory = Workshop::new();
    let first = instance.resolve_shared(REQUEST, &mut factory).unwrap();
    let second = instance.resolve_shared(REQUEST, &mut factory).unwrap();
    assert_ne!(first.instance, second.instance);
    // The store behind both is the one singleton.
    assert_eq!(factory.components(), vec![3, 2, 4, 4]);
    assert_eq!(factory.requests[2].1, factory.requests[3].1);
    assert_eq!(instance.singleton(REQUEST), None);
}

#[test]
fn a_failed_build_is_reported_and_can_be_tried_again() {
    let mut instance = instance(shop());
    let mut factory = Workshop::new();
    factory.failing = vec![2];
    assert_eq!(
        instance.resolve_shared(APP, &mut factory),
        Err(EngineError::ComponentBuildFailed { interface: STORE, cause: 9002 })
    );
    // The clock was built and stays; store and app are unbuilt. The store
    // was asked for once, with the clock in its slot, and not again.
    assert_eq!(factory.components(), vec![3, 2]);
    assert_eq!(
        factory.requests[1].1,
        vec![ResolvedDependency { field: 100, interface: CLOCK, instance: 1 }]
    );
    assert_eq!(instance.singleton(CLOCK), Some(1));
    assert_eq!(instance.singleton(STORE), None);
    assert_eq!(instance.singleton(APP), None);

    factory.failing.clear();
    let app = instance.resolve_shared(APP, &mut factory).unwrap();
    assert_eq!(factory.components(), vec![3, 2, 2, 4, 1]);
    assert_eq!(instance.singleton(APP), Some(app.instance));
}

#[test]
fn a_failed_build_gets_the_values_in_effect() {
    let bindings = vec![binding(
        1,
        APP,
        Lifecycle::Provider,
        &[],
        vec![
            ConfigSlot { field: 7, default: DefaultRule::Value(ConfigValue::Int(80)), param: None },
            ConfigSlot { field: 8, default: DefaultRule::Computed, param: None },
        ],
    )];
    let mut registry = Registry::new();
    for descriptor in bindings {
        registry.register(descriptor).unwrap();
    }
    let definition = ModuleDefinition::declare(registry, Vec::new(), Vec::new()).unwrap();
    let mut instance = Builder::new(validate(definition).unwrap(), Vec::new())
        .unwrap()
        .with_parameter(1, 7, ConfigValue::Flag(true))
        .build()
        .unwrap();
    let mut factory = Workshop::new();
    factory.failing = vec![1];
    assert_eq!(
        instance.resolve_exclusive(APP, &mut factory),
        Err(EngineError::ComponentBuildFailed { interface: APP, cause: 9001 })
    );
    assert_eq!(factory.requests.len(), 1);
    assert_eq!(
        factory.requests[0].2,
        vec![
            Parameter { field: 7, value: ConfigValue::Flag(true) },
            Parameter { field: 8, value: ConfigValue::Computed },
        ]
    );
}

#[test]
fn the_build_order_puts_dependencies_first() {
    let mut registry = Registry::new();
    for descriptor in shop() {
        registry.register(descriptor).unwrap();
    }
    let definition = ModuleDefinition::declare(registry, Vec::new(), Vec::new()).unwrap();
    let module = validate(definition).unwrap();
    // Clock, store, request, app: by position in the scope 2, 1, 3, 0.
    assert_eq!(module.order(), &vec![2, 1, 3, 0]);
}

#[test]
fn every_slot_gets_a_provider_instance_of_its_own() {
    let mut instance = instance(vec![
        binding(1, APP, Lifecycle::Provider, &[REQUEST, CLOCK, REQUEST], Vec::new()),
        binding(3, CLOCK, Lifecycle::Singleton, &[], Vec::new()),
        binding(4, REQUEST, Lifecycle::Provider, &[CLOCK], Vec::new()),
    ]);
    let mut factory = Workshop::new();
    let first = instance.resolve_shared(APP, &mut factory).unwrap();
    // Clock, a request, another request, the app; the clock is built once.
    assert_eq!(factory.components(), vec![3, 4, 4, 1]);
    assert_eq!(first.instance, 4);
    assert_eq!(
        factory.requests[3].1,
        vec![
            ResolvedDependency { field: 100, interface: REQUEST, instance: 2 },
            ResolvedDependency { field: 101, interface: CLOCK, instance: 1 },
            ResolvedDependency { field: 102, interface: REQUEST, instance: 3 },
        ]
    );
    let second = instance.resolve_shared(APP, &mut factory).unwrap();
    assert_eq!(factory.components(), vec![3, 4, 4, 1, 4, 4, 1]);
    assert_eq!(second.instance, 7);
    assert_eq!(
        factory.requests[6].1,
        vec![
            ResolvedDependency { field: 100, interface: REQUEST, instance: 5 },
            ResolvedDependency { field: 101, interface: CLOCK, instance: 1 },
            ResolvedDependency { field: 102, interface: REQUEST, instance: 6 },
        ]
    );
}

#[test]
fn a_failure_ends_the_resolution_at_once() {
    let mut instance = instance(vec![
        binding(1, APP, Lifecycle::Singleton, &[CLOCK, REQUEST, STORE], Vec::new()),
        binding(2, STORE, Lifecycle::Singleton, &[], Vec::new()),
        binding(3, CLOCK, Lifecycle::Singleton, &[], Vec::new()),
        binding(4, REQUEST, Lifecycle::Provider, &[], Vec::new()),
    ]);
    let mut factory = Workshop::new();
    factory.failing = vec![4];
    assert_eq!(
        instance.resolve_shared(APP, &mut factory),
        Err(EngineError::ComponentBuildFailed { interface: REQUEST, cause: 9004 })
    );
    // The store, which comes after the failed slot, was not asked for.
    assert_eq!(factory.components(), vec![3, 4]);
    assert_eq!(instance.singleton(CLOCK), Some(1));
    assert_eq!(instance.singleton(STORE), None);
}

#[test]
fn a_failing_provider_fails_each_time() {
    let mut instance = instance(shop());
    let mut factory = Workshop::new();
    factory.failing = vec![4];
    for _ in 0..2 {
        assert_eq!(
            instance.resolve_shared(REQUEST, &mut factory),
            Err(EngineError::ComponentBuildFailed { interface: REQUEST, cause: 9004 })
        );
    }
    assert_eq!(factory.components(), vec![3, 2, 4, 4]);
}

#[test]
fn a_build_gets_the_override_and_not_the_default() {
    let bindings = vec![binding(
        1,
        APP,
        Lifecycle::Singleton,
        &[],
        vec![
            ConfigSlot { field: 7, default: DefaultRule::Value(ConfigValue::Int(80)), param: None },
            ConfigSlot { field: 8, default: DefaultRule::Value(ConfigValue::Int(3)), param: None },
            ConfigSlot { field: 9, default: DefaultRule::Required, param: None },
        ],
    )];
    let mut registry = Registry::new();
    for descriptor in bindings {
        registry.register(descriptor).unwrap();
    }
    let definition = ModuleDefinition::declare(registry, Vec::new(), Vec::new()).unwrap();
    let mut instance = Builder::new(validate(definition).unwrap(), Vec::new())
        .unwrap()
        .with_parameter(1, 7, ConfigValue::Int(8080))
        .with_parameter(1, 9, ConfigValue::Resource(55))
        .with_parameter(1, 9, ConfigValue::Resource(56))
        .build()
        .unwrap();
    let expected = vec![
        Parameter { field: 7, value: ConfigValue::Int(8080) },
        Parameter { field: 8, value: ConfigValue::Int(3) },
        Parameter { field: 9, value: ConfigValue::Resource(56) },
    ];
    assert_eq!(instance.parameters_for(APP), Ok(expected.clone()));
    assert_eq!(
        instance.parameters_for(STORE),
        Err(EngineError::UnboundInterface { interface: STORE })
    );
    let mut factory = Workshop::new();
    instance.resolve_shared(APP, &mut factory).unwrap();
    assert_eq!(factory.requests.len(), 1);
    assert_eq!(factory.requests[0].2, expected);
}

#[test]
fn full_resolution_builds_every_singleton_once() {
    let mut instance = instance(shop());
    let mut factory = Workshop::new();
    let handles = instance.resolve_all(&mut factory).unwrap();
    let interfaces: Vec<u64> = handles.iter().map(|h| h.interface).collect();
    assert_eq!(interfaces, vec![CLOCK, STORE, REQUEST, APP]);
    // The walk built a request of its own, and app another.
    assert_eq!(factory.components(), vec![3, 2, 4, 4, 1]);
    for handle in &handles {
        assert_eq!(handle.access, Access::Shared);
    }
    assert_eq!(instance.singleton(APP), Some(5));
    let again = instance.resolve_all(&mut factory).unwrap();
    assert_eq!(again[0], handles[0]);
    assert_eq!(again[1], handles[1]);
    assert_eq!(again[3], handles[3]);
    assert_eq!(factory.components(), vec![3, 2, 4, 4, 1, 4]);
}

#[test]
fn full_resolution_stops_at_the_first_failure() {
    let mut instance = instance(shop());
    let mut factory = Workshop::new();
    factory.failing = vec![2];
    assert_eq!(
        instance.resolve_all(&mut factory),
        Err(EngineError::ComponentBuildFailed { interface: STORE, cause: 9002 })
    );
    assert_eq!(factory.components(), vec![3, 2]);
}

#[test]
fn a_shadowed_binding_is_never_built() {
    let mut registry = Registry::new();
    registry.register(binding(5, STORE, Lifecycle::Singleton, &[], Vec::new())).unwrap();
    let library = ModuleDefinition::declare(registry, Vec::new(), Vec::new()).unwrap();
    let mut registry = Registry::new();
    registry.register(binding(2, STORE, Lifecycle::Provider, &[], Vec::new())).unwrap();
    let definition = ModuleDefinition::declare(registry, vec![library], Vec::new()).unwrap();
    let mut instance =
        Builder::new(validate(definition).unwrap(), Vec::new()).unwrap().build().unwrap();
    let mut factory = Workshop::new();
    instance.resolve_all(&mut factory).unwrap();
    instance.resolve_shared(STORE, &mut factory).unwrap();
    assert_eq!(factory.components(), vec![2, 2]);
}

#[test]
fn two_instantiations_of_a_generic_module_keep_apart() {
    let make = |type_id: u64| {
        let mut registry = Registry::new();
        registry
            .register(binding(
                1,
                APP,
                Lifecycle::Singleton,
                &[],
                vec![ConfigSlot { field: 7, default: DefaultRule::Required, param: Some(0) }],
            ))
            .unwrap();
        let params =
            vec![BoundSet { implements: vec![CLOCK], default_constructible: true, shareable: true }];
        let definition = ModuleDefinition::declare(registry, Vec::new(), params).unwrap();
        let argument = TypeArgument {
            type_id,
            implements: vec![CLOCK, STORE],
            default_constructible: true,
            shareable: true,
        };
        Builder::new(validate(definition).unwrap(), vec![argument])
            .unwrap()
            .with_parameter(1, 7, ConfigValue::Resource(type_id))
            .build()
            .unwrap()
    };
    let mut pooled = make(501);
    let mut transactional = make(502);
    let mut factory = Workshop::new();
    let first = pooled.resolve_exclusive(APP, &mut factory).unwrap();
    assert_eq!(pooled.singleton(APP), Some(first.instance));
    assert_eq!(transactional.singleton(APP), None);
    let second = transactional.resolve_exclusive(APP, &mut factory).unwrap();
    assert_ne!(first.instance, second.instance);
    assert_eq!(pooled.singleton(APP), Some(first.instance));
    assert_eq!(factory.requests[0].2, vec![Parameter { field: 7, value: ConfigValue::Resource(501) }]);
    assert_eq!(factory.requests[1].2, vec![Parameter { field: 7, value: ConfigValue::Resource(502) }]);
}

#[test]
fn the_outcome_of_a_build_decides_state_and_answer() {
    assert_eq!(settle(Lifecycle::Singleton, Ok(5)), SlotState::Built(5));
    assert_eq!(settle(Lifecycle::Singleton, Err(6)), SlotState::Unbuilt);
    assert_eq!(settle(Lifecycle::Provider, Ok(5)), SlotState::Unbuilt);
    assert_eq!(settle(Lifecycle::Provider, Err(6)), SlotState::Unbuilt);
    assert_eq!(report(10, Ok(5)), Ok(5));
    assert_eq!(
        report(10, Err(6)),
        Err(EngineError::ComponentBuildFailed { interface: 10, cause: 6 })
    );
}
