use di_engine::builder::{
    check_argument, check_arguments, find_override, Builder, Override, TypeArgument,
};
use di_engine::descriptor::{
    BoundSet, ComponentDescriptor, ConfigSlot, ConfigValue, DefaultRule, Lifecycle,
};
use di_engine::error::EngineError;
use di_engine::instance::{parameters_of, value_for, Parameter};
use di_engine::module::{validate, ModuleDefinition, Registry, ValidatedModule};

fn configured(component: u64, interface: u64, slots: Vec<ConfigSlot>) -> ComponentDescriptor {
    ComponentDescriptor {
        component,
        interface,
        kind: Lifecycle::Singleton,
        dependencies: Vec::new(),
        configuration: slots,
    }
}

fn slot(field: u64, default: DefaultRule) -> ConfigSlot {
    ConfigSlot { field, default, param: None }
}

fn module(bindings: Vec<ComponentDescriptor>, params: Vec<BoundSet>) -> ValidatedModule {
    let mut registry = Registry::new();
    for descriptor in bindings {
        registry.register(descriptor).unwrap();
    }
    validate(ModuleDefinition::declare(registry, Vec::new(), params).unwrap()).unwrap()
}

fn argument(type_id: u64, implements: Vec<u64>, default_constructible: bool) -> TypeArgument {
    TypeArgument { type_id, implements, default_constructible, shareable: true }
}

#[test]
fn the_last_override_of_a_slot_counts() {
    let overrides = vec![
        Override { component: 1, slot: 2, value: ConfigValue::Int(5) },
        Override { component: 1, slot: 3, value: ConfigValue::Int(6) },
        Override { component: 1, slot: 2, value: ConfigValue::Int(7) },
        Override { component: 2, slot: 2, value: ConfigValue::Int(8) },
    ];
    assert_eq!(find_override(&overrides, 1, 2), Some(ConfigValue::Int(7)));
    assert_eq!(find_override(&overrides, 1, 3), Some(ConfigValue::Int(6)));
    assert_eq!(find_override(&overrides, 2, 2), Some(ConfigValue::Int(8)));
    assert_eq!(find_override(&overrides, 2, 3), None);
    assert_eq!(find_override(&Vec::new(), 1, 2), None);
}

#[test]
fn an_override_goes_before_the_default() {
    let overrides = vec![Override { component: 1, slot: 2, value: ConfigValue::Flag(true) }];
    let with_default = slot(2, DefaultRule::Value(ConfigValue::Int(9)));
    assert_eq!(value_for(&overrides, 1, &with_default), Some(ConfigValue::Flag(true)));
    assert_eq!(value_for(&overrides, 7, &with_default), Some(ConfigValue::Int(9)));
    assert_eq!(value_for(&overrides, 1, &slot(2, DefaultRule::Required)), Some(ConfigValue::Flag(true)));
    assert_eq!(value_for(&overrides, 1, &slot(3, DefaultRule::Required)), None);
    assert_eq!(
        value_for(&overrides, 1, &slot(3, DefaultRule::TypeDefault)),
        Some(ConfigValue::TypeDefault)
    );
}

#[test]
fn parameters_follow_the_slots() {
    let d = configured(
        1,
        10,
        vec![
            slot(4, DefaultRule::Value(ConfigValue::Int(-3))),
            slot(5, DefaultRule::Required),
            slot(6, DefaultRule::TypeDefault),
        ],
    );
    let overrides = vec![Override { component: 1, slot: 5, value: ConfigValue::Resource(77) }];
    assert_eq!(
        parameters_of(&d, &overrides),
        Ok(vec![
            Parameter { field: 4, value: ConfigValue::Int(-3) },
            Parameter { field: 5, value: ConfigValue::Resource(77) },
            Parameter { field: 6, value: ConfigValue::TypeDefault },
        ])
    );
    assert_eq!(parameters_of(&d, &Vec::new()), Err(1));
}

#[test]
fn build_fails_on_a_required_slot_without_override() {
    let bindings = || {
        vec![
            configured(1, 10, vec![slot(4, DefaultRule::Value(ConfigValue::Int(1)))]),
            configured(2, 20, vec![slot(5, DefaultRule::TypeDefault), slot(6, DefaultRule::Required)]),
            configured(3, 30, vec![slot(7, DefaultRule::Required)]),
        ]
    };
    let result = Builder::new(module(bindings(), Vec::new()), Vec::new()).unwrap().build();
    match result {
        Err(e) => assert_eq!(e, EngineError::MissingRequiredParameter { component: 2, slot: 6 }),
        Ok(_) => panic!("an incomplete composition was built"),
    }

    let result = Builder::new(module(bindings(), Vec::new()), Vec::new())
        .unwrap()
        .with_parameter(2, 6, ConfigValue::Int(0))
        .build();
    match result {
        Err(e) => assert_eq!(e, EngineError::MissingRequiredParameter { component: 3, slot: 7 }),
        Ok(_) => panic!("an incomplete composition was built"),
    }

    let result = Builder::new(module(bindings(), Vec::new()), Vec::new())
        .unwrap()
        .with_parameter(3, 7, ConfigValue::Flag(false))
        .with_parameter(2, 6, ConfigValue::Int(0))
        .with_parameter(9, 9, ConfigValue::Int(0))
        .build();
    assert!(result.is_ok());
}

#[test]
fn build_without_required_slots_needs_no_overrides() {
    let bindings = vec![configured(1, 10, vec![slot(4, DefaultRule::TypeDefault)])];
    assert!(Builder::new(module(bindings, Vec::new()), Vec::new()).unwrap().build().is_ok());
    assert!(Builder::new(module(Vec::new(), Vec::new()), Vec::new()).unwrap().build().is_ok());
}

#[test]
fn an_argument_must_offer_what_the_bounds_ask() {
    let bounds = BoundSet { implements: vec![20, 30], default_constructible: true, shareable: true };
    assert!(check_argument(&argument(1, vec![30, 40, 20], true), &bounds));
    assert!(!check_argument(&argument(1, vec![30, 40], true), &bounds));
    assert!(!check_argument(&argument(1, vec![30, 20], false), &bounds));
    let unshareable =
        TypeArgument { type_id: 1, implements: vec![20, 30], default_constructible: true, shareable: false };
    assert!(!check_argument(&unshareable, &bounds));
    let nothing = BoundSet { implements: Vec::new(), default_constructible: false, shareable: false };
    assert!(check_argument(&unshareable, &nothing));
}

#[test]
fn arguments_and_parameters_must_pair_up() {
    let params = vec![
        BoundSet { implements: vec![20], default_constructible: false, shareable: true },
        BoundSet { implements: Vec::new(), default_constructible: true, shareable: true },
    ];
    let good = vec![argument(1, vec![20], false), argument(2, Vec::new(), true)];
    assert_eq!(check_arguments(&good, &params), None);
    let second_bad = vec![argument(1, vec![20], false), argument(2, Vec::new(), false)];
    assert_eq!(check_arguments(&second_bad, &params), Some(1));
    let first_bad = vec![argument(1, Vec::new(), false), argument(2, Vec::new(), false)];
    assert_eq!(check_arguments(&first_bad, &params), Some(0));
    let too_few = vec![argument(1, vec![20], false)];
    assert_eq!(check_arguments(&too_few, &params), Some(1));
    let too_many =
        vec![argument(1, vec![20], false), argument(2, Vec::new(), true), argument(3, Vec::new(), true)];
    assert_eq!(check_arguments(&too_many, &params), Some(2));
    assert_eq!(check_arguments(&Vec::new(), &Vec::new()), None);
}

#[test]
fn a_builder_needs_fitting_arguments() {
    let params = || vec![BoundSet { implements: vec![20], default_constructible: true, shareable: true }];
    let bindings = || vec![configured(1, 10, Vec::new())];
    assert!(Builder::new(module(bindings(), params()), vec![argument(5, vec![20], true)]).is_ok());
    match Builder::new(module(bindings(), params()), vec![argument(5, vec![21], true)]) {
        Err(e) => assert_eq!(e, EngineError::UnsatisfiedGenericBound { parameter: 0 }),
        Ok(_) => panic!("an argument beyond the bounds went through"),
    }
    match Builder::new(module(bindings(), params()), Vec::new()) {
        Err(e) => assert_eq!(e, EngineError::UnsatisfiedGenericBound { parameter: 0 }),
        Ok(_) => panic!("a parameter without argument went through"),
    }
}
