use di_engine::builder::Builder;
use di_engine::descriptor::{ComponentDescriptor, DependencySlot, Lifecycle};
use di_engine::error::EngineError;
use di_engine::instance::{Access, BuildRequest, ComponentFactory};
use di_engine::module::{validate, ModuleDefinition, Registry};

const LOGGER: u64 = 1;
const SINK: u64 = 2;
const LOGGER_IMPL: u64 = 101;
const CONSOLE_SINK: u64 = 102;

/// Hands out tokens 1000, 1001, ... and remembers what it was asked.
struct Recorder {
    next: u64,
    built: Vec<u64>,
    dependencies: Vec<Vec<u64>>,
}

impl Recorder {
    fn new() -> Recorder {
        Recorder { next: 1000, built: Vec::new(), dependencies: Vec::new() }
    }
}

impl ComponentFactory for Recorder {
    fn build(&mut self, request: &BuildRequest) -> Result<u64, u64> {
        self.built.push(request.component);
        self.dependencies.push(request.dependencies.iter().map(|d| d.instance).collect());
        let token = self.next;
        self.next += 1;
        Ok(token)
    }
}

fn singleton(component: u64, interface: u64, needs: &[u64]) -> ComponentDescriptor {
    let mut dependencies = Vec::new();
    for (n, interface) in needs.iter().enumerate() {
        dependencies.push(DependencySlot { field: n as u64, interface: *interface, param: None });
    }
    ComponentDescriptor {
        component,
        interface,
        kind: Lifecycle::Singleton,
        dependencies,
        configuration: Vec::new(),
    }
}

#[test]
fn logger_with_console_sink_resolves_in_dependency_order() {
    let mut registry = Registry::new();
    registry.register(singleton(LOGGER_IMPL, LOGGER, &[SINK])).unwrap();
    registry.register(singleton(CONSOLE_SINK, SINK, &[])).unwrap();
    let definition = ModuleDefinition::declare(registry, Vec::new(), Vec::new()).unwrap();
    let module = validate(definition).unwrap();
    let mut instance = Builder::new(module, Vec::new()).unwrap().build().unwrap();
    let mut factory = Recorder::new();

    let first = instance.resolve_shared(LOGGER, &mut factory).unwrap();
    assert_eq!(first.interface, LOGGER);
    assert_eq!(first.access, Access::Shared);
    assert_eq!(factory.built, vec![CONSOLE_SINK, LOGGER_IMPL]);
    assert_eq!(factory.dependencies, vec![vec![], vec![1000]]);
    assert_eq!(first.instance, 1001);
    assert_eq!(instance.singleton(SINK), Some(1000));

    let second = instance.resolve_shared(LOGGER, &mut factory).unwrap();
    assert_eq!(second, first);
    assert_eq!(factory.built.len(), 2);
}

#[test]
fn mutual_dependency_is_reported_as_a_cycle() {
    const A: u64 = 7;
    const B: u64 = 8;
    let mut registry = Registry::new();
    registry.register(singleton(1, A, &[B])).unwrap();
    registry.register(singleton(2, B, &[A])).unwrap();
    let definition = ModuleDefinition::declare(registry, Vec::new(), Vec::new()).unwrap();
    match validate(definition) {
        Err(EngineError::CyclicDependency { cycle }) => {
            let mut named = cycle.clone();
            named.sort();
            assert_eq!(named, vec![A, B]);
            assert_eq!(cycle, vec![A, B]);
        },
        _ => panic!("the cycle was not found"),
    }
}
