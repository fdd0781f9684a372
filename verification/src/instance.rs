//! The module instance: the cache of singletons and the resolver.

use vstd::prelude::*;
use crate::builder::{
    arguments_fit, complete, effective_value, find_override, Override, TypeArgument,
};
use crate::descriptor::{
    binding_of, bound, find_binding, is_binding, ComponentDescriptor, ConfigSlot, ConfigValue,
    DefaultRule, Lifecycle,
};
use crate::error::EngineError;
use crate::module::{
    depends_on, lemma_needs_itself, lemma_needs_through, needs, scheduled, ValidatedModule,
};

verus! {

/// Where a bound component stands in its life within one module instance.
#[derive(Clone, Copy, Debug, PartialEq, Eq)]
pub enum SlotState {
    /// No instance exists.
    Unbuilt,
    /// The build has begun and waits for dependencies or for the factory.
    Building,
    /// The singleton instance with this token exists.
    Built(u64),
}

/// How the holder of a handle may use the instance behind it.
#[derive(Clone, Copy, Debug, PartialEq, Eq)]
pub enum Access {
    /// Together with any number of other holders.
    Shared,
    /// As the only holder for the time being.
    Exclusive,
}

/// What a resolution hands back: the instance, seen through one interface.
#[derive(Clone, Copy, Debug, PartialEq, Eq)]
pub struct Handle {
    pub interface: u64,
    /// The token that the factory gave the instance.
    pub instance: u64,
    pub access: Access,
}

/// A dependency slot together with the instance that fills it.
#[derive(Clone, Copy, Debug, PartialEq, Eq)]
pub struct ResolvedDependency {
    pub field: u64,
    pub interface: u64,
    pub instance: u64,
}

/// A configuration slot together with the value that fills it.
#[derive(Clone, Copy, Debug, PartialEq, Eq)]
pub struct Parameter {
    pub field: u64,
    pub value: ConfigValue,
}

/// Everything a factory is told when it is asked to build a component.
#[derive(Debug)]
pub struct BuildRequest {
    pub component: u64,
    pub interface: u64,
    pub kind: Lifecycle,
    /// One entry for each dependency slot, in the order of the slots.
    pub dependencies: Vec<ResolvedDependency>,
    /// One entry for each configuration slot, in the order of the slots.
    pub parameters: Vec<Parameter>,
}

/// One call of a factory: what it was asked and what it answered.
pub struct BuildEvent {
    pub request: BuildRequest,
    pub outcome: Result<u64, u64>,
}

/// The build operations of the components. The engine decides what is
/// built, when, and from what; how an instance comes to be is up to the
/// implementor.
pub trait ComponentFactory {
    /// Builds the component that `request` describes. Gives the token by
    /// which the new instance is known, or the cause of the failure.
    fn build(&mut self, request: &BuildRequest) -> Result<u64, u64>;
}

/// The call at position `e` of `trace` built an instance for `interface`
/// and gave it the token `instance`.
pub open spec fn produced(trace: Seq<BuildEvent>, e: int, interface: u64, instance: u64) -> bool {
    &&& 0 <= e < trace.len()
    &&& trace[e].request.interface == interface
    &&& trace[e].outcome == Ok::<u64, u64>(instance)
}

/// The call at position `e` of `trace` was handed, in dependency slot `k`,
/// an instance that an earlier call had built.
pub open spec fn supplied(trace: Seq<BuildEvent>, e: int, k: int) -> bool {
    exists|earlier: int|
        earlier < e && #[trigger] produced(
            trace,
            earlier,
            trace[e].request.dependencies@[k].interface,
            trace[e].request.dependencies@[k].instance,
        )
}

/// No build was handed an instance that did not exist yet: dependencies are
/// built before their dependents.
pub open spec fn causal(trace: Seq<BuildEvent>) -> bool {
    forall|e: int, k: int|
        0 <= e < trace.len() && 0 <= k < trace[e].request.dependencies@.len()
            ==> #[trigger] supplied(trace, e, k)
}

/// The call at position `e` of `trace` built a singleton.
pub open spec fn built_singleton(trace: Seq<BuildEvent>, e: int) -> bool {
    &&& 0 <= e < trace.len()
    &&& trace[e].request.kind == Lifecycle::Singleton
    &&& trace[e].outcome is Ok
}

/// No interface had a singleton built for it twice.
pub open spec fn built_once(trace: Seq<BuildEvent>) -> bool {
    forall|a: int, b: int|
        a < b && #[trigger] built_singleton(trace, a) && #[trigger] built_singleton(trace, b)
            ==> trace[a].request.interface != trace[b].request.interface
}

/// The call at position `e` of `trace` asked for the component that
/// `scope` binds to the interface of the request, and if that is a
/// singleton and the call built it, `states` holds the instance.
pub open spec fn recorded(
    scope: Seq<ComponentDescriptor>,
    states: Seq<SlotState>,
    trace: Seq<BuildEvent>,
    e: int,
) -> bool {
    let request = trace[e].request;
    let i = binding_of(scope, request.interface);
    &&& is_binding(scope, request.interface, i)
    &&& request.component == scope[i].component
    &&& request.kind == scope[i].kind
    &&& (request.kind == Lifecycle::Singleton && trace[e].outcome is Ok ==> states[i]
        == SlotState::Built(trace[e].outcome->Ok_0))
}

/// The call at position `e` of `trace` was made with the values in effect
/// for the component, and with its dependency slots filled one by one,
/// those that are bound to singletons with the instances in `states`.
pub open spec fn in_order(
    scope: Seq<ComponentDescriptor>,
    states: Seq<SlotState>,
    overrides: Seq<Override>,
    trace: Seq<BuildEvent>,
    e: int,
) -> bool {
    let request = trace[e].request;
    let d = scope[binding_of(scope, request.interface)];
    &&& is_effective(d, overrides, request.parameters@)
    &&& fills(scope, states, d, request.dependencies@)
}

/// The singleton that `states` holds at position `i` was built by a call
/// of `trace`.
pub open spec fn accounted(
    scope: Seq<ComponentDescriptor>,
    states: Seq<SlotState>,
    trace: Seq<BuildEvent>,
    i: int,
) -> bool {
    states[i] is Built ==> exists|e: int| #[trigger]
        produced(trace, e, scope[i].interface, states[i]->Built_0)
}

/// `trace` agrees with `states`: every call is recorded and was made in
/// order, every singleton is accounted for, dependencies came before
/// dependents, and no singleton was built twice.
pub open spec fn orderly(
    scope: Seq<ComponentDescriptor>,
    states: Seq<SlotState>,
    overrides: Seq<Override>,
    trace: Seq<BuildEvent>,
) -> bool {
    &&& causal(trace)
    &&& built_once(trace)
    &&& forall|e: int| 0 <= e < trace.len() ==> #[trigger] recorded(scope, states, trace, e)
    &&& forall|e: int|
        0 <= e < trace.len() ==> #[trigger] in_order(scope, states, overrides, trace, e)
    &&& forall|i: int| 0 <= i < states.len() ==> #[trigger] accounted(scope, states, trace, i)
}

/// Every call of `trace` from position `from` up to, but not at, position
/// `upto` built its component.
pub open spec fn all_built(trace: Seq<BuildEvent>, from: int, upto: int) -> bool {
    forall|e: int| from <= e < upto ==> (#[trigger] trace[e]).outcome is Ok
}

/// No call of `trace` from position `from` up to, but not at, position
/// `upto` was for `interface`.
pub open spec fn none_for(trace: Seq<BuildEvent>, from: int, upto: int, interface: u64) -> bool {
    forall|e: int| from <= e < upto ==> (#[trigger] trace[e]).request.interface != interface
}

/// Every call of `trace` from position `from` up to, but not at, position
/// `upto` was for a component that the one bound to `interface` needs.
pub open spec fn all_needed(
    scope: Seq<ComponentDescriptor>,
    trace: Seq<BuildEvent>,
    from: int,
    upto: int,
    interface: u64,
) -> bool {
    forall|e: int|
        from <= e < upto ==> needs(scope, interface, (#[trigger] trace[e]).request.interface)
}

/// Some call of `trace` built the instance that fills `dependency`.
pub open spec fn available(trace: Seq<BuildEvent>, dependency: ResolvedDependency) -> bool {
    exists|e: int| #[trigger] produced(trace, e, dependency.interface, dependency.instance)
}

/// Calls that all succeeded, followed by calls that all succeeded.
proof fn lemma_all_built_joins(
    shorter: Seq<BuildEvent>,
    longer: Seq<BuildEvent>,
    from: int,
    upto: int,
)
    requires
        0 <= from,
        shorter.is_prefix_of(longer),
        all_built(shorter, from, shorter.len() as int),
        all_built(longer, shorter.len() as int, upto),
    ensures
        all_built(longer, from, upto),
{
    assert forall|e: int| from <= e < upto implies (#[trigger] longer[e]).outcome is Ok by {
        if e < shorter.len() {
            assert(longer[e] == shorter[e]);
        }
    }
}

proof fn lemma_available_grows(
    shorter: Seq<BuildEvent>,
    longer: Seq<BuildEvent>,
    dependency: ResolvedDependency,
)
    requires
        shorter.is_prefix_of(longer),
        available(shorter, dependency),
    ensures
        available(longer, dependency),
{
    let e = choose|e: int|
        #[trigger] produced(shorter, e, dependency.interface, dependency.instance);
    assert(longer[e] == shorter[e]);
    assert(produced(longer, e, dependency.interface, dependency.instance));
}

/// A binding that holds no singleton may change between unbuilt and
/// building without the trace taking notice.
proof fn lemma_orderly_mark(
    scope: Seq<ComponentDescriptor>,
    states: Seq<SlotState>,
    overrides: Seq<Override>,
    trace: Seq<BuildEvent>,
    index: int,
    mark: SlotState,
)
    requires
        orderly(scope, states, overrides, trace),
        states.len() == scope.len(),
        0 <= index < states.len(),
        !(states[index] is Built),
        !(mark is Built),
    ensures
        orderly(scope, states.update(index, mark), overrides, trace),
{
    let after = states.update(index, mark);
    assert forall|e: int| 0 <= e < trace.len() implies #[trigger] recorded(
        scope,
        after,
        trace,
        e,
    ) by {
        assert(recorded(scope, states, trace, e));
    }
    assert forall|e: int| 0 <= e < trace.len() implies #[trigger] in_order(
        scope,
        after,
        overrides,
        trace,
        e,
    ) by {
        assert(in_order(scope, states, overrides, trace, e));
    }
    assert forall|i: int| 0 <= i < after.len() implies #[trigger] accounted(
        scope,
        after,
        trace,
        i,
    ) by {
        assert(accounted(scope, states, trace, i));
    }
}

/// The build of a binding that was under construction, with dependencies
/// that earlier calls built, keeps trace and states in agreement.
proof fn lemma_orderly_record(
    scope: Seq<ComponentDescriptor>,
    states: Seq<SlotState>,
    overrides: Seq<Override>,
    trace: Seq<BuildEvent>,
    index: int,
    event: BuildEvent,
)
    requires
        orderly(scope, states, overrides, trace),
        states.len() == scope.len(),
        0 <= index < states.len(),
        states[index] == SlotState::Building,
        is_binding(scope, scope[index].interface, index),
        event.request.interface == scope[index].interface,
        event.request.component == scope[index].component,
        event.request.kind == scope[index].kind,
        forall|k: int|
            0 <= k < event.request.dependencies@.len() ==> available(
                trace,
                #[trigger] event.request.dependencies@[k],
            ),
        is_effective(scope[index], overrides, event.request.parameters@),
        fills(scope, states, scope[index], event.request.dependencies@),
    ensures
        orderly(
            scope,
            states.update(index, settled(scope[index].kind, event.outcome)),
            overrides,
            trace.push(event),
        ),
{
    let after = states.update(index, settled(scope[index].kind, event.outcome));
    let longer = trace.push(event);
    let last = trace.len() as int;
    crate::descriptor::lemma_binding_unique(
        scope,
        scope[index].interface,
        index,
        binding_of(scope, scope[index].interface),
    );
    assert forall|e: int, k: int|
        0 <= e < longer.len() && 0 <= k < longer[e].request.dependencies@.len()
        implies #[trigger] supplied(longer, e, k) by {
        let dependency = longer[e].request.dependencies@[k];
        if e < last {
            assert(supplied(trace, e, k));
            let earlier = choose|earlier: int|
                earlier < e && #[trigger] produced(
                    trace,
                    earlier,
                    dependency.interface,
                    dependency.instance,
                );
            assert(produced(longer, earlier, dependency.interface, dependency.instance));
        } else {
            assert(available(trace, event.request.dependencies@[k]));
            let earlier = choose|earlier: int|
                #[trigger] produced(trace, earlier, dependency.interface, dependency.instance);
            assert(produced(longer, earlier, dependency.interface, dependency.instance));
        }
    }
    assert forall|a: int, b: int|
        a < b && #[trigger] built_singleton(longer, a) && #[trigger] built_singleton(
            longer,
            b,
        ) implies longer[a].request.interface != longer[b].request.interface by {
        if b < last {
            assert(built_singleton(trace, a) && built_singleton(trace, b));
        } else {
            assert(recorded(scope, states, trace, a));
        }
    }
    assert forall|e: int| 0 <= e < longer.len() implies #[trigger] recorded(
        scope,
        after,
        longer,
        e,
    ) by {
        if e < last {
            assert(recorded(scope, states, trace, e));
        }
    }
    assert forall|e: int| 0 <= e < longer.len() implies #[trigger] in_order(
        scope,
        after,
        overrides,
        longer,
        e,
    ) by {
        if e < last {
            assert(in_order(scope, states, overrides, trace, e));
        }
    }
    assert forall|i: int| 0 <= i < after.len() implies #[trigger] accounted(
        scope,
        after,
        longer,
        i,
    ) by {
        if i == index {
            if after[i] is Built {
                assert(event.outcome is Ok);
                assert(after[i]->Built_0 == event.outcome->Ok_0);
                assert(longer[last] == event);
                assert(produced(longer, last, scope[i].interface, after[i]->Built_0));
            }
        } else {
            assert(accounted(scope, states, trace, i));
            if states[i] is Built {
                let token = states[i]->Built_0;
                let e = choose|e: int| #[trigger] produced(trace, e, scope[i].interface, token);
                assert(produced(longer, e, scope[i].interface, token));
            }
        }
    }
}

/// `parameters` holds, slot by slot, the value that a build of `d` gets.
pub open spec fn is_effective(
    d: ComponentDescriptor,
    overrides: Seq<Override>,
    parameters: Seq<Parameter>,
) -> bool {
    &&& parameters.len() == d.configuration@.len()
    &&& forall|c: int|
        0 <= c < parameters.len() ==> {
            &&& (#[trigger] parameters[c]).field == d.configuration@[c].field
            &&& Some(parameters[c].value) == effective_value(
                overrides,
                d.component,
                d.configuration@[c],
            )
        }
}

/// The value that a build of `component` gets for `slot`, if there is one.
pub fn value_for(overrides: &Vec<Override>, component: u64, slot: &ConfigSlot) -> (value: Option<
    ConfigValue,
>)
    ensures
        value == effective_value(overrides@, component, *slot),
{
    match find_override(overrides, component, slot.field) {
        Some(value) => Some(value),
        None => match slot.default {
            DefaultRule::Required => None,
            DefaultRule::Value(value) => Some(value),
            DefaultRule::TypeDefault => Some(ConfigValue::TypeDefault),
            DefaultRule::Computed => Some(ConfigValue::Computed),
        },
    }
}

/// The values that a build of `d` gets, slot by slot; or the first
/// configuration slot that has none.
pub fn parameters_of(d: &ComponentDescriptor, overrides: &Vec<Override>) -> (r: Result<
    Vec<Parameter>,
    usize,
>)
    ensures
        match r {
            Ok(parameters) => is_effective(*d, overrides@, parameters@),
            Err(c) => {
                &&& c < d.configuration@.len()
                &&& effective_value(overrides@, d.component, d.configuration@[c as int]) is None
                &&& forall|j: int|
                    0 <= j < c ==> effective_value(
                        overrides@,
                        d.component,
                        #[trigger] d.configuration@[j],
                    ) is Some
            },
        },
{
    let mut parameters: Vec<Parameter> = Vec::new();
    let mut c: usize = 0;
    while c < d.configuration.len()
        invariant
            c <= d.configuration@.len(),
            parameters@.len() == c,
            forall|j: int|
                0 <= j < c ==> effective_value(
                    overrides@,
                    d.component,
                    #[trigger] d.configuration@[j],
                ) is Some,
            forall|j: int|
                0 <= j < c ==> {
                    &&& (#[trigger] parameters@[j]).field == d.configuration@[j].field
                    &&& Some(parameters@[j].value) == effective_value(
                        overrides@,
                        d.component,
                        d.configuration@[j],
                    )
                },
        decreases d.configuration@.len() - c,
    {
        let slot = d.configuration[c];
        match value_for(overrides, d.component, &slot) {
            Some(value) => {
                parameters.push(Parameter { field: slot.field, value });
            },
            None => {
                return Err(c);
            },
        }
        c = c + 1;
    }
    Ok(parameters)
}

/// The live container: the validated module, what the builder was given,
/// and the state of every binding.
///
/// Every resolution takes the instance by `&mut`, so no two of them run at
/// the same time and no binding is ever seen under construction from
/// outside. Callers that share an instance between threads put it behind a
/// lock of their own.
pub struct ModuleInstance {
    pub(crate) module: ValidatedModule,
    pub(crate) arguments: Vec<TypeArgument>,
    pub(crate) overrides: Vec<Override>,
    pub(crate) cache: Vec<SlotState>,
    pub(crate) trace: Ghost<Seq<BuildEvent>>,
}

impl ModuleInstance {
    /// The module that the instance was built from.
    pub open(crate) spec fn module(&self) -> ValidatedModule {
        self.module
    }

    /// Every binding in scope.
    pub open spec fn scope(&self) -> Seq<ComponentDescriptor> {
        self.module().definition().scope()
    }

    /// The types that stand for the generic parameters.
    pub open(crate) spec fn arguments(&self) -> Seq<TypeArgument> {
        self.arguments@
    }

    /// The overrides, in the order in which they were supplied.
    pub open(crate) spec fn overrides(&self) -> Seq<Override> {
        self.overrides@
    }

    /// The state of each binding, in the order of the scope.
    pub open(crate) spec fn states(&self) -> Seq<SlotState> {
        self.cache@
    }

    /// Every call of a factory that a resolution of this instance made,
    /// oldest first.
    pub open(crate) spec fn trace(&self) -> Seq<BuildEvent> {
        self.trace@
    }

    /// What holds of an instance at every moment, also in the middle of a
    /// resolution.
    pub open(crate) spec fn inv(&self) -> bool {
        let scope = self.module.definition.scope@;
        let links = self.module.definition.links@;
        &&& self.module.wf()
        &&& self.cache@.len() == scope.len()
        &&& complete(scope, self.overrides@)
        &&& arguments_fit(self.arguments@, self.module.definition.params@)
        &&& forall|i: int|
            0 <= i < scope.len() && (#[trigger] self.cache@[i]) is Built ==> scope[i].kind
                == Lifecycle::Singleton
        &&& forall|i: int, k: int|
            0 <= i < scope.len() && 0 <= k < links[i]@.len() && self.cache@[i] is Built
                && scope[(#[trigger] links[i]@[k]) as int].kind == Lifecycle::Singleton
                ==> self.cache@[links[i]@[k] as int] is Built
        &&& orderly(scope, self.cache@, self.overrides@, self.trace@)
    }

    /// What holds of an instance between resolutions.
    pub open(crate) spec fn wf(&self) -> bool {
        &&& self.inv()
        &&& forall|i: int|
            0 <= i < self.cache@.len() ==> (#[trigger] self.cache@[i]) != SlotState::Building
    }
}

/// The state of a binding after a build attempt: a singleton that was built
/// is kept, everything else leaves the binding unbuilt.
pub open spec fn settled(kind: Lifecycle, outcome: Result<u64, u64>) -> SlotState {
    match (kind, outcome) {
        (Lifecycle::Singleton, Ok(token)) => SlotState::Built(token),
        _ => SlotState::Unbuilt,
    }
}

/// What a resolution answers after a build attempt: the token, or the
/// cause of the failure under the name of the interface.
pub open spec fn reported(interface: u64, outcome: Result<u64, u64>) -> Result<u64, EngineError> {
    match outcome {
        Ok(token) => Ok(token),
        Err(cause) => Err(EngineError::ComponentBuildFailed { interface, cause }),
    }
}

/// The state of a binding of kind `kind` after its factory answered `outcome`.
pub fn settle(kind: Lifecycle, outcome: Result<u64, u64>) -> (state: SlotState)
    ensures
        state == settled(kind, outcome),
{
    match kind {
        Lifecycle::Singleton => match outcome {
            Ok(token) => SlotState::Built(token),
            Err(_) => SlotState::Unbuilt,
        },
        Lifecycle::Provider => SlotState::Unbuilt,
    }
}

/// What the resolution of `interface` answers after its factory answered
/// `outcome`.
pub fn report(interface: u64, outcome: Result<u64, u64>) -> (r: Result<u64, EngineError>)
    ensures
        r == reported(interface, outcome),
{
    match outcome {
        Ok(token) => Ok(token),
        Err(cause) => Err(EngineError::ComponentBuildFailed { interface, cause }),
    }
}

/// `dependencies` fills the dependency slots of `d` one by one, and each
/// slot whose interface is bound to a singleton holds the instance that
/// `states` has for it.
pub open spec fn fills(
    scope: Seq<ComponentDescriptor>,
    states: Seq<SlotState>,
    d: ComponentDescriptor,
    dependencies: Seq<ResolvedDependency>,
) -> bool {
    &&& dependencies.len() == d.dependencies@.len()
    &&& forall|k: int|
        0 <= k < dependencies.len() ==> {
            &&& (#[trigger] dependencies[k]).field == d.dependencies@[k].field
            &&& dependencies[k].interface == d.dependencies@[k].interface
        }
    &&& forall|k: int, j: int|
        0 <= k < dependencies.len() && is_binding(scope, d.dependencies@[k].interface, j)
            && scope[j].kind == Lifecycle::Singleton ==> #[trigger] states[j] == SlotState::Built(
            (#[trigger] dependencies[k]).instance,
        )
}

/// A call of `trace` before position `from` built the singleton of the
/// binding `index`.
pub open spec fn built_before(
    scope: Seq<ComponentDescriptor>,
    trace: Seq<BuildEvent>,
    from: int,
    index: int,
) -> bool {
    exists|e: int|
        e < from && #[trigger] built_singleton(trace, e) && trace[e].request.interface
            == scope[index].interface
}

/// The stretch `k` of `cuts` lies between `from` and the last position
/// before `upto`.
pub open spec fn stretch(cuts: Seq<int>, k: int, from: int, upto: int) -> bool {
    from <= cuts[k] <= cuts[k + 1] <= upto - 1
}

/// The stretch `k` of `cuts` begins at or after `from` and does not end
/// before it begins.
pub open spec fn rises(cuts: Seq<int>, k: int, from: int) -> bool {
    from <= cuts[k] <= cuts[k + 1]
}

/// `cuts` divides the positions from `from` up to the last one before
/// `upto` into `slots` stretches, one after the other.
pub open spec fn divides(cuts: Seq<int>, from: int, upto: int, slots: int) -> bool {
    &&& cuts.len() == slots + 1
    &&& cuts[0] == from
    &&& cuts[slots] == upto - 1
    &&& forall|k: int| 0 <= k < slots ==> #[trigger] stretch(cuts, k, from, upto)
}

/// The calls of `trace` from position `from` up to, but not at, position
/// `upto` are those of one resolution of the binding `index` in which
/// every build succeeded: none, if its singleton was built before; else
/// the calls of the resolutions of its dependency slots, one slot after
/// the other (the one of slot `k` from `cuts[k]` to `cuts[k + 1]`), and then
/// the build of the component itself, which was handed what they gave.
pub open spec fn resolved_in(
    scope: Seq<ComponentDescriptor>,
    links: Seq<Vec<usize>>,
    rank: Seq<usize>,
    trace: Seq<BuildEvent>,
    from: int,
    upto: int,
    index: int,
) -> bool
    decreases rank[index],
{
    if built_before(scope, trace, from, index) {
        upto == from
    } else {
        let targets = links[index]@;
        let handed = trace[upto - 1].request.dependencies@;
        &&& 0 <= from < upto <= trace.len()
        &&& trace[upto - 1].request.interface == scope[index].interface
        &&& handed.len() == targets.len()
        &&& exists|cuts: Seq<int>|
            {
                &&& #[trigger] divides(cuts, from, upto, targets.len() as int)
                &&& forall|k: int|
                    #![trigger targets[k]]
                    0 <= k < targets.len() ==> {
                        &&& rank[targets[k] as int] < rank[index]
                        &&& resolved_in(
                            scope,
                            links,
                            rank,
                            trace,
                            cuts[k],
                            cuts[k + 1],
                            targets[k] as int,
                        )
                        &&& cuts[k] < cuts[k + 1] ==> produced(
                            trace,
                            cuts[k + 1] - 1,
                            handed[k].interface,
                            handed[k].instance,
                        )
                    }
            }
    }
}

/// `cuts` marks stretches, one after the other, from `from` on.
pub open spec fn leads(cuts: Seq<int>, from: int) -> bool {
    &&& cuts.len() >= 1
    &&& cuts[0] == from
    &&& forall|k: int| 0 <= k < cuts.len() - 1 ==> #[trigger] rises(cuts, k, from)
}

/// The calls of `trace` from position `from` up to, but not at, position
/// `upto` are those of one resolution of the binding `index` that ended
/// with the first build that failed: the calls of the resolutions of its
/// first dependency slots, as many as `cuts` marks, and then either the
/// calls of the resolution of the next slot, which ended so, or, after the
/// last slot, the build of the component itself, which was handed what
/// the slots gave.
pub open spec fn failed_in(
    scope: Seq<ComponentDescriptor>,
    links: Seq<Vec<usize>>,
    rank: Seq<usize>,
    trace: Seq<BuildEvent>,
    from: int,
    upto: int,
    index: int,
) -> bool
    decreases rank[index],
{
    let targets = links[index]@;
    let handed = trace[upto - 1].request.dependencies@;
    &&& !built_before(scope, trace, from, index)
    &&& 0 <= from < upto <= trace.len()
    &&& exists|cuts: Seq<int>|
        {
            &&& cuts.len() - 1 <= targets.len()
            &&& #[trigger] leads(cuts, from)
            &&& cuts[cuts.len() - 1] < upto
            &&& forall|k: int|
                #![trigger targets[k]]
                0 <= k < cuts.len() - 1 ==> {
                    &&& rank[targets[k] as int] < rank[index]
                    &&& resolved_in(
                        scope,
                        links,
                        rank,
                        trace,
                        cuts[k],
                        cuts[k + 1],
                        targets[k] as int,
                    )
                }
            &&& forall|k: int|
                #![trigger targets[k]]
                k == cuts.len() - 1 && 0 <= k < targets.len() ==> {
                    &&& rank[targets[k] as int] < rank[index]
                    &&& failed_in(scope, links, rank, trace, cuts[k], upto, targets[k] as int)
                }
            &&& cuts.len() - 1 == targets.len() ==> {
                &&& cuts[cuts.len() - 1] == upto - 1
                &&& trace[upto - 1].request.interface == scope[index].interface
                &&& handed.len() == targets.len()
                &&& forall|k: int|
                    0 <= k < cuts.len() - 1 && cuts[k] < cuts[k + 1] ==> produced(
                        trace,
                        cuts[k + 1] - 1,
                        (#[trigger] handed[k]).interface,
                        handed[k].instance,
                    )
            }
        }
}

/// `cuts` and `j` show that the calls of `trace` from `from` up to `upto`
/// are those of one resolution of the binding `index` that ended with the
/// first build that failed.
proof fn lemma_failed_by(
    scope: Seq<ComponentDescriptor>,
    links: Seq<Vec<usize>>,
    rank: Seq<usize>,
    trace: Seq<BuildEvent>,
    from: int,
    upto: int,
    index: int,
    cuts: Seq<int>,
    j: int,
)
    requires
        !built_before(scope, trace, from, index),
        0 <= from < upto <= trace.len(),
        0 <= j <= links[index]@.len(),
        j == cuts.len() - 1,
        leads(cuts, from),
        cuts[j] < upto,
        forall|k: int|
            #![trigger links[index]@[k]]
            0 <= k < j ==> {
                &&& rank[links[index]@[k] as int] < rank[index]
                &&& resolved_in(
                    scope,
                    links,
                    rank,
                    trace,
                    cuts[k],
                    cuts[k + 1],
                    links[index]@[k] as int,
                )
            },
        j < links[index]@.len() ==> {
            &&& rank[links[index]@[j] as int] < rank[index]
            &&& failed_in(scope, links, rank, trace, cuts[j], upto, links[index]@[j] as int)
        },
        j == links[index]@.len() ==> {
            &&& cuts[j] == upto - 1
            &&& trace[upto - 1].request.interface == scope[index].interface
            &&& trace[upto - 1].request.dependencies@.len() == links[index]@.len()
            &&& forall|k: int|
                0 <= k < j && cuts[k] < cuts[k + 1] ==> produced(
                    trace,
                    cuts[k + 1] - 1,
                    (#[trigger] trace[upto - 1].request.dependencies@[k]).interface,
                    trace[upto - 1].request.dependencies@[k].instance,
                )
        },
    ensures
        failed_in(scope, links, rank, trace, from, upto, index),
{
}

/// What was built before a position stays so when the trace grows.
proof fn lemma_built_before_grows(
    scope: Seq<ComponentDescriptor>,
    shorter: Seq<BuildEvent>,
    longer: Seq<BuildEvent>,
    from: int,
    index: int,
)
    requires
        shorter.is_prefix_of(longer),
        from <= shorter.len(),
    ensures
        built_before(scope, shorter, from, index) == built_before(scope, longer, from, index),
{
    if built_before(scope, shorter, from, index) {
        let e = choose|e: int|
            e < from && #[trigger] built_singleton(shorter, e) && shorter[e].request.interface
                == scope[index].interface;
        assert(longer[e] == shorter[e]);
        assert(built_singleton(longer, e));
    }
    if built_before(scope, longer, from, index) {
        let e = choose|e: int|
            e < from && #[trigger] built_singleton(longer, e) && longer[e].request.interface
                == scope[index].interface;
        assert(longer[e] == shorter[e]);
        assert(built_singleton(shorter, e));
    }
}

/// `cuts` shows that the calls of `trace` from `from` up to `upto` are those
/// of one resolution of the binding `index`, whose singleton was not built
/// before.
proof fn lemma_resolved_by(
    scope: Seq<ComponentDescriptor>,
    links: Seq<Vec<usize>>,
    rank: Seq<usize>,
    trace: Seq<BuildEvent>,
    from: int,
    upto: int,
    index: int,
    cuts: Seq<int>,
)
    requires
        !built_before(scope, trace, from, index),
        0 <= from < upto <= trace.len(),
        trace[upto - 1].request.interface == scope[index].interface,
        trace[upto - 1].request.dependencies@.len() == links[index]@.len(),
        divides(cuts, from, upto, links[index]@.len() as int),
        forall|k: int|
            #![trigger links[index]@[k]]
            0 <= k < links[index]@.len() ==> {
                &&& rank[links[index]@[k] as int] < rank[index]
                &&& resolved_in(
                    scope,
                    links,
                    rank,
                    trace,
                    cuts[k],
                    cuts[k + 1],
                    links[index]@[k] as int,
                )
                &&& cuts[k] < cuts[k + 1] ==> produced(
                    trace,
                    cuts[k + 1] - 1,
                    trace[upto - 1].request.dependencies@[k].interface,
                    trace[upto - 1].request.dependencies@[k].instance,
                )
            },
    ensures
        resolved_in(scope, links, rank, trace, from, upto, index),
{
}

/// The calls of a resolution stay what they are when the trace grows.
proof fn lemma_resolved_grows(
    scope: Seq<ComponentDescriptor>,
    links: Seq<Vec<usize>>,
    rank: Seq<usize>,
    shorter: Seq<BuildEvent>,
    longer: Seq<BuildEvent>,
    from: int,
    upto: int,
    index: int,
)
    requires
        shorter.is_prefix_of(longer),
        upto <= shorter.len(),
        resolved_in(scope, links, rank, shorter, from, upto, index),
    ensures
        resolved_in(scope, links, rank, longer, from, upto, index),
    decreases rank[index],
{
    lemma_built_before_grows(scope, shorter, longer, from, index);
    if !built_before(scope, shorter, from, index) {
        let targets = links[index]@;
        let handed = shorter[upto - 1].request.dependencies@;
        let cuts = choose|cuts: Seq<int>|
            {
                &&& #[trigger] divides(cuts, from, upto, targets.len() as int)
                &&& forall|k: int|
                    #![trigger targets[k]]
                    0 <= k < targets.len() ==> {
                        &&& rank[targets[k] as int] < rank[index]
                        &&& resolved_in(
                            scope,
                            links,
                            rank,
                            shorter,
                            cuts[k],
                            cuts[k + 1],
                            targets[k] as int,
                        )
                        &&& cuts[k] < cuts[k + 1] ==> produced(
                            shorter,
                            cuts[k + 1] - 1,
                            handed[k].interface,
                            handed[k].instance,
                        )
                    }
            };
        assert(longer[upto - 1] == shorter[upto - 1]);
        assert forall|k: int| #![trigger targets[k]] 0 <= k < targets.len() implies {
            &&& rank[targets[k] as int] < rank[index]
            &&& resolved_in(scope, links, rank, longer, cuts[k], cuts[k + 1], targets[k] as int)
            &&& cuts[k] < cuts[k + 1] ==> produced(
                longer,
                cuts[k + 1] - 1,
                handed[k].interface,
                handed[k].instance,
            )
        } by {
            assert(stretch(cuts, k, from, upto));
            lemma_resolved_grows(
                scope,
                links,
                rank,
                shorter,
                longer,
                cuts[k],
                cuts[k + 1],
                targets[k] as int,
            );
            if cuts[k] < cuts[k + 1] {
                assert(longer[cuts[k + 1] - 1] == shorter[cuts[k + 1] - 1]);
            }
        }
        lemma_resolved_by(scope, links, rank, longer, from, upto, index, cuts);
    }
}

/// The slots of the binding `index` up to slot `slots` were resolved with
/// the calls of `trace` that `cuts` marks, from `from` on.
spec fn slots_done(
    scope: Seq<ComponentDescriptor>,
    links: Seq<Vec<usize>>,
    rank: Seq<usize>,
    trace: Seq<BuildEvent>,
    from: int,
    index: int,
    cuts: Seq<int>,
    slots: int,
) -> bool {
    &&& 0 <= from
    &&& 0 <= slots <= links[index]@.len()
    &&& cuts.len() == slots + 1
    &&& cuts[0] == from
    &&& cuts[slots] == trace.len()
    &&& forall|b: int| 0 <= b < slots ==> #[trigger] rises(cuts, b, from)
    &&& forall|b: int| 0 <= b <= slots ==> (#[trigger] cuts[b]) <= trace.len()
    &&& forall|b: int|
        #![trigger links[index]@[b]]
        0 <= b < slots ==> {
            &&& rank[links[index]@[b] as int] < rank[index]
            &&& resolved_in(
                scope,
                links,
                rank,
                trace,
                cuts[b],
                cuts[b + 1],
                links[index]@[b] as int,
            )
        }
}

/// Where the next slot was resolved, one more slot is done.
proof fn lemma_slot_done(
    scope: Seq<ComponentDescriptor>,
    links: Seq<Vec<usize>>,
    rank: Seq<usize>,
    shorter: Seq<BuildEvent>,
    trace: Seq<BuildEvent>,
    from: int,
    index: int,
    cuts: Seq<int>,
    slot: int,
)
    requires
        shorter.is_prefix_of(trace),
        slots_done(scope, links, rank, shorter, from, index, cuts, slot),
        slot < links[index]@.len(),
        rank[links[index]@[slot] as int] < rank[index],
        resolved_in(
            scope,
            links,
            rank,
            trace,
            shorter.len() as int,
            trace.len() as int,
            links[index]@[slot] as int,
        ),
    ensures
        slots_done(
            scope,
            links,
            rank,
            trace,
            from,
            index,
            cuts.push(trace.len() as int),
            slot + 1,
        ),
{
    let longer = cuts.push(trace.len() as int);
    assert forall|b: int| 0 <= b < slot + 1 implies #[trigger] rises(longer, b, from) by {
        if b < slot {
            assert(rises(cuts, b, from));
        }
    }
    assert forall|b: int| #![trigger links[index]@[b]] 0 <= b < slot + 1 implies {
        &&& rank[links[index]@[b] as int] < rank[index]
        &&& resolved_in(
            scope,
            links,
            rank,
            trace,
            longer[b],
            longer[b + 1],
            links[index]@[b] as int,
        )
    } by {
        if b < slot {
            assert(rises(cuts, b, from));
            assert(cuts[b + 1] <= shorter.len());
            lemma_resolved_grows(
                scope,
                links,
                rank,
                shorter,
                trace,
                cuts[b],
                cuts[b + 1],
                links[index]@[b] as int,
            );
        }
    }
}

/// Where the resolution of the next slot failed, the resolution of the
/// binding failed.
proof fn lemma_failed_through(
    scope: Seq<ComponentDescriptor>,
    links: Seq<Vec<usize>>,
    rank: Seq<usize>,
    shorter: Seq<BuildEvent>,
    trace: Seq<BuildEvent>,
    from: int,
    index: int,
    cuts: Seq<int>,
    slot: int,
)
    requires
        shorter.is_prefix_of(trace),
        shorter.len() < trace.len(),
        !built_before(scope, trace, from, index),
        slots_done(scope, links, rank, shorter, from, index, cuts, slot),
        slot < links[index]@.len(),
        rank[links[index]@[slot] as int] < rank[index],
        failed_in(
            scope,
            links,
            rank,
            trace,
            shorter.len() as int,
            trace.len() as int,
            links[index]@[slot] as int,
        ),
    ensures
        failed_in(scope, links, rank, trace, from, trace.len() as int, index),
{
    assert forall|b: int| #![trigger links[index]@[b]] 0 <= b < slot implies {
        &&& rank[links[index]@[b] as int] < rank[index]
        &&& resolved_in(scope, links, rank, trace, cuts[b], cuts[b + 1], links[index]@[b] as int)
    } by {
        assert(rises(cuts, b, from));
        assert(cuts[b + 1] <= shorter.len());
        lemma_resolved_grows(
            scope,
            links,
            rank,
            shorter,
            trace,
            cuts[b],
            cuts[b + 1],
            links[index]@[b] as int,
        );
    }
    assert(leads(cuts, from));
    lemma_failed_by(scope, links, rank, trace, from, trace.len() as int, index, cuts, slot);
}

/// Where every slot was resolved and the component itself was asked for,
/// with what the slots gave, the calls are those of one resolution of the
/// binding, and of one that failed with its first failure as well.
proof fn lemma_finished(
    scope: Seq<ComponentDescriptor>,
    links: Seq<Vec<usize>>,
    rank: Seq<usize>,
    shorter: Seq<BuildEvent>,
    event: BuildEvent,
    from: int,
    index: int,
    cuts: Seq<int>,
)
    requires
        !built_before(scope, shorter, from, index),
        from <= shorter.len(),
        slots_done(scope, links, rank, shorter, from, index, cuts, links[index]@.len() as int),
        event.request.interface == scope[index].interface,
        event.request.dependencies@.len() == links[index]@.len(),
        forall|b: int|
            0 <= b < links[index]@.len() && cuts[b] < cuts[b + 1] ==> produced(
                shorter,
                cuts[b + 1] - 1,
                (#[trigger] event.request.dependencies@[b]).interface,
                event.request.dependencies@[b].instance,
            ),
    ensures
        resolved_in(
            scope,
            links,
            rank,
            shorter.push(event),
            from,
            (shorter.len() + 1) as int,
            index,
        ),
        failed_in(
            scope,
            links,
            rank,
            shorter.push(event),
            from,
            (shorter.len() + 1) as int,
            index,
        ),
{
    let trace = shorter.push(event);
    let upto = (shorter.len() + 1) as int;
    let slots = links[index]@.len() as int;
    let handed = event.request.dependencies@;
    lemma_built_before_grows(scope, shorter, trace, from, index);
    assert(trace[upto - 1] == event);
    assert forall|b: int| #![trigger links[index]@[b]] 0 <= b < slots implies {
        &&& rank[links[index]@[b] as int] < rank[index]
        &&& resolved_in(scope, links, rank, trace, cuts[b], cuts[b + 1], links[index]@[b] as int)
        &&& cuts[b] < cuts[b + 1] ==> produced(
            trace,
            cuts[b + 1] - 1,
            handed[b].interface,
            handed[b].instance,
        )
    } by {
        assert(rises(cuts, b, from));
        assert(cuts[b + 1] <= shorter.len());
        lemma_resolved_grows(
            scope,
            links,
            rank,
            shorter,
            trace,
            cuts[b],
            cuts[b + 1],
            links[index]@[b] as int,
        );
        if cuts[b] < cuts[b + 1] {
            assert(trace[cuts[b + 1] - 1] == shorter[cuts[b + 1] - 1]);
        }
    }
    assert forall|b: int| 0 <= b < slots implies #[trigger] stretch(cuts, b, from, upto) by {
        assert(rises(cuts, b, from));
        assert(cuts[b + 1] <= shorter.len());
    }
    assert(divides(cuts, from, upto, slots));
    lemma_resolved_by(scope, links, rank, trace, from, upto, index, cuts);
    assert(leads(cuts, from));
    assert forall|b: int|
        0 <= b < slots && cuts[b] < cuts[b + 1] implies produced(
        trace,
        cuts[b + 1] - 1,
        (#[trigger] trace[upto - 1].request.dependencies@[b]).interface,
        trace[upto - 1].request.dependencies@[b].instance,
    ) by {
        assert(rises(cuts, b, from));
        assert(cuts[b + 1] <= shorter.len());
        assert(trace[cuts[b + 1] - 1] == shorter[cuts[b + 1] - 1]);
    }
    lemma_failed_by(scope, links, rank, trace, from, upto, index, cuts, slots);
}

/// The dependency slot `k` of `d` names an interface that is bound to a
/// provider.
pub open spec fn provided(scope: Seq<ComponentDescriptor>, d: ComponentDescriptor, k: int) -> bool {
    scope[binding_of(scope, d.dependencies@[k].interface)].kind == Lifecycle::Provider
}

/// For each dependency slot of `d` that a provider fills, `at` gives a call
/// of `trace` at or after position `from`, and before the last, that built
/// the instance in the slot; a later slot has a later call.
pub open spec fn supplies(
    scope: Seq<ComponentDescriptor>,
    trace: Seq<BuildEvent>,
    from: int,
    d: ComponentDescriptor,
    dependencies: Seq<ResolvedDependency>,
    at: Seq<int>,
) -> bool {
    &&& at.len() == dependencies.len()
    &&& forall|k: int|
        0 <= k < dependencies.len() && provided(scope, d, k) ==> {
            &&& from <= (#[trigger] at[k]) < trace.len() - 1
            &&& produced(trace, at[k], dependencies[k].interface, dependencies[k].instance)
        }
    &&& forall|j: int, k: int|
        0 <= j < k < dependencies.len() && provided(scope, d, j) && provided(scope, d, k)
            ==> (#[trigger] at[j]) < (#[trigger] at[k])
}

/// Every dependency slot of `d` that a provider fills holds an instance
/// that was built for this slot alone, by a call of `trace` at or after
/// position `from`, in the order of the slots.
pub open spec fn supplied_afresh(
    scope: Seq<ComponentDescriptor>,
    trace: Seq<BuildEvent>,
    from: int,
    d: ComponentDescriptor,
    dependencies: Seq<ResolvedDependency>,
) -> bool {
    exists|at: Seq<int>| #[trigger] supplies(scope, trace, from, d, dependencies, at)
}

proof fn lemma_supplied_sooner(
    scope: Seq<ComponentDescriptor>,
    trace: Seq<BuildEvent>,
    from: int,
    sooner: int,
    d: ComponentDescriptor,
    dependencies: Seq<ResolvedDependency>,
)
    requires
        sooner <= from,
        supplied_afresh(scope, trace, from, d, dependencies),
    ensures
        supplied_afresh(scope, trace, sooner, d, dependencies),
{
    let at = choose|at: Seq<int>| #[trigger] supplies(scope, trace, from, d, dependencies, at);
    assert(supplies(scope, trace, sooner, d, dependencies, at));
}

impl ModuleInstance {
    /// `self` is what a resolution can make of `pre`: the setup is the
    /// same, what was built stays built, and the trace only grows.
    pub open spec fn extends(&self, pre: ModuleInstance) -> bool {
        &&& self.module() == pre.module()
        &&& self.arguments() == pre.arguments()
        &&& self.overrides() == pre.overrides()
        &&& self.states().len() == pre.states().len()
        &&& forall|i: int|
            #![trigger pre.states()[i]]
            #![trigger self.states()[i]]
            0 <= i < pre.states().len() && pre.states()[i] is Built ==> self.states()[i]
                == pre.states()[i]
        &&& forall|i: int|
            #![trigger pre.states()[i]]
            #![trigger self.states()[i]]
            0 <= i < pre.states().len() ==> (pre.states()[i] == SlotState::Building
                <==> self.states()[i] == SlotState::Building)
        &&& pre.trace().is_prefix_of(self.trace())
    }

    /// The last call of a factory was the build of `scope[index]`, from the
    /// values in effect and the dependencies as they now stand, and the
    /// factory answered `outcome`.
    pub open spec fn built_last(&self, index: int, outcome: Result<u64, u64>) -> bool {
        let d = self.scope()[index];
        &&& self.trace().len() > 0
        &&& self.trace().last().outcome == outcome
        &&& self.trace().last().request.component == d.component
        &&& self.trace().last().request.interface == d.interface
        &&& self.trace().last().request.kind == d.kind
        &&& is_effective(d, self.overrides(), self.trace().last().request.parameters@)
        &&& fills(self.scope(), self.states(), d, self.trace().last().request.dependencies@)
    }

    /// The last call of a factory was the build of the component bound to
    /// `interface`, from the values in effect and the dependencies as they
    /// now stand; it failed with `cause`, and the binding is unbuilt.
    pub open spec fn failed_last(&self, interface: u64, cause: u64) -> bool {
        let at = binding_of(self.scope(), interface);
        &&& bound(self.scope(), interface)
        &&& self.built_last(at, Err(cause))
        &&& self.states()[at] == SlotState::Unbuilt
    }

    /// The last call of a factory got, in every dependency slot that a
    /// provider fills, an instance built for that slot alone at or after
    /// position `from` of the trace.
    pub open spec fn fresh_last(&self, from: int) -> bool {
        let request = self.trace().last().request;
        supplied_afresh(
            self.scope(),
            self.trace(),
            from,
            self.scope()[binding_of(self.scope(), request.interface)],
            request.dependencies@,
        )
    }

    /// The calls from position `from` up to, but not at, position `upto` of
    /// the trace are those of one resolution of the binding `index` in
    /// which every build succeeded.
    pub open(crate) spec fn resolved(&self, from: int, upto: int, index: int) -> bool {
        resolved_in(
            self.module.definition.scope@,
            self.module.definition.links@,
            self.module.rank@,
            self.trace@,
            from,
            upto,
            index,
        )
    }

    /// The calls from position `from` up to, but not at, position `upto` of
    /// the trace are those of one resolution of the binding `index` that
    /// ended with the first build that failed.
    pub open(crate) spec fn failed(&self, from: int, upto: int, index: int) -> bool {
        failed_in(
            self.module.definition.scope@,
            self.module.definition.links@,
            self.module.rank@,
            self.trace@,
            from,
            upto,
            index,
        )
    }

    /// A singleton that the instance holds was built before the end of the
    /// trace.
    proof fn lemma_held_was_built(&self, index: int)
        requires
            self.inv(),
            0 <= index < self.cache@.len(),
            self.cache@[index] is Built,
            is_binding(self.scope(), self.scope()[index].interface, index),
        ensures
            built_before(self.scope(), self.trace@, self.trace@.len() as int, index),
    {
        let scope = self.scope();
        assert(accounted(scope, self.cache@, self.trace@, index));
        let e = choose|e: int| #[trigger]
            produced(self.trace@, e, scope[index].interface, self.cache@[index]->Built_0);
        assert(recorded(scope, self.cache@, self.trace@, e));
        crate::descriptor::lemma_binding_unique(
            scope,
            scope[index].interface,
            index,
            binding_of(scope, scope[index].interface),
        );
        assert(built_singleton(self.trace@, e));
    }

    /// A binding that holds no singleton had none built before the end of
    /// the trace.
    proof fn lemma_unheld_was_not_built(&self, index: int)
        requires
            self.inv(),
            0 <= index < self.cache@.len(),
            !(self.cache@[index] is Built),
            is_binding(self.scope(), self.scope()[index].interface, index),
        ensures
            !built_before(self.scope(), self.trace@, self.trace@.len() as int, index),
    {
        let scope = self.scope();
        if built_before(scope, self.trace@, self.trace@.len() as int, index) {
            let e = choose|e: int|
                e < self.trace@.len() && #[trigger] built_singleton(self.trace@, e)
                    && self.trace@[e].request.interface == scope[index].interface;
            assert(recorded(scope, self.cache@, self.trace@, e));
            crate::descriptor::lemma_binding_unique(
                scope,
                scope[index].interface,
                index,
                binding_of(scope, scope[index].interface),
            );
        }
    }

    /// Every call that `self` has beyond the first `from` was for a binding
    /// whose rank is at most `limit`.
    spec fn ranked(&self, from: int, limit: int) -> bool {
        forall|e: int|
            from <= e < self.trace@.len() ==> self.module.rank@[binding_of(
                self.module.definition.scope@,
                (#[trigger] self.trace@[e]).request.interface,
            )] <= limit
    }

    /// Calls within a limit, followed by calls within the limit.
    proof fn lemma_ranked_joins(&self, mid: ModuleInstance, from: int, limit: int)
        requires
            0 <= from,
            mid.trace@.is_prefix_of(self.trace@),
            mid.module == self.module,
            mid.ranked(from, limit),
            self.ranked(mid.trace@.len() as int, limit),
        ensures
            self.ranked(from, limit),
    {
        assert forall|e: int| from <= e < self.trace@.len() implies self.module.rank@[binding_of(
            self.module.definition.scope@,
            (#[trigger] self.trace@[e]).request.interface,
        )] <= limit by {
            if e < mid.trace@.len() {
                assert(self.trace@[e] == mid.trace@[e]);
            }
        }
    }

    /// `self` and `r` are what the resolution of `scope[index]` can make of
    /// `pre`: a singleton that exists is handed out and nothing else
    /// happens. Otherwise the factory is asked, each time with success, for
    /// what the component needs, slot by slot, and last for the component
    /// itself, for which it was not asked before in this resolution; the
    /// first failure ends the resolution. Which calls are made, in which
    /// order and with which requests is fixed; only what the factory
    /// answers is open.
    pub open spec fn answered(
        &self,
        pre: ModuleInstance,
        index: int,
        r: Result<u64, EngineError>,
    ) -> bool {
        match pre.states()[index] {
            SlotState::Built(token) => {
                &&& r == Ok::<u64, EngineError>(token)
                &&& self.states() == pre.states()
                &&& self.trace() == pre.trace()
                &&& self.resolved(pre.trace().len() as int, self.trace().len() as int, index)
            },
            _ => match r {
                Ok(token) => {
                    &&& self.trace().len() > pre.trace().len()
                    &&& all_needed(
                        self.scope(),
                        self.trace(),
                        pre.trace().len() as int,
                        self.trace().len() as int,
                        self.scope()[index].interface,
                    )
                    &&& all_built(self.trace(), pre.trace().len() as int, self.trace().len() as int)
                    &&& none_for(
                        self.trace(),
                        pre.trace().len() as int,
                        self.trace().len() - 1,
                        self.scope()[index].interface,
                    )
                    &&& self.built_last(index, Ok(token))
                    &&& self.fresh_last(pre.trace().len() as int)
                    &&& self.resolved(pre.trace().len() as int, self.trace().len() as int, index)
                    &&& self.states()[index] == settled(self.scope()[index].kind, Ok(token))
                },
                Err(EngineError::ComponentBuildFailed { interface, cause }) => {
                    &&& self.trace().len() > pre.trace().len()
                    &&& all_needed(
                        self.scope(),
                        self.trace(),
                        pre.trace().len() as int,
                        self.trace().len() as int,
                        self.scope()[index].interface,
                    )
                    &&& all_built(self.trace(), pre.trace().len() as int, self.trace().len() - 1)
                    &&& self.failed_last(interface, cause)
                    &&& self.fresh_last(pre.trace().len() as int)
                    &&& self.failed(pre.trace().len() as int, self.trace().len() as int, index)
                    &&& self.states()[index] == SlotState::Unbuilt
                    &&& needs(self.scope(), self.scope()[index].interface, interface)
                },
                Err(_) => false,
            },
        }
    }

    /// Resolves the binding `index`: hands out the singleton that exists,
    /// or resolves the dependencies in the order of their slots, asks the
    /// factory for a new instance and keeps it if it is a singleton.
    #[verifier::loop_isolation(false)]
    #[verifier::rlimit(50)]
    fn resolve_at<F: ComponentFactory>(&mut self, index: usize, factory: &mut F) -> (r: Result<
        u64,
        EngineError,
    >)
        requires
            old(self).inv(),
            index < old(self).states().len(),
            is_binding(old(self).scope(), old(self).scope()[index as int].interface, index as int),
            forall|i: int|
                0 <= i < old(self).states().len() && (#[trigger] old(self).states()[i])
                    == SlotState::Building ==> old(self).module.rank@[i] > old(
                    self,
                ).module.rank@[index as int],
        ensures
            final(self).inv(),
            final(self).extends(*old(self)),
            final(self).answered(*old(self), index as int, r),
            final(self).ranked(
                old(self).trace().len() as int,
                old(self).module.rank@[index as int] as int,
            ),
            old(self).states()[index as int] is Built ==> *final(factory) == *old(factory),
        decreases old(self).module.rank@[index as int],
    {
        let ghost pre = *self;
        match self.cache[index] {
            SlotState::Built(token) => {
                proof {
                    self.lemma_held_was_built(index as int);
                }
                return Ok(token);
            },
            SlotState::Building => {
                return Err(EngineError::InternalError);
            },
            SlotState::Unbuilt => {},
        }
        let component = self.module.definition.scope[index].component;
        let interface = self.module.definition.scope[index].interface;
        let kind = self.module.definition.scope[index].kind;
        self.cache.set(index, SlotState::Building);
        proof {
            lemma_orderly_mark(
                pre.module.definition.scope@,
                pre.cache@,
                pre.overrides@,
                pre.trace@,
                index as int,
                SlotState::Building,
            );
        }
        let ghost entered = *self;
        let ghost scope = self.module.definition.scope@;
        let ghost links = self.module.definition.links@;
        let ghost rank = self.module.rank@;
        let mut dependencies: Vec<ResolvedDependency> = Vec::new();
        let ghost mut at: Seq<int> = Seq::empty();
        let ghost mut cuts: Seq<int> = seq![pre.trace@.len() as int];
        let mut k: usize = 0;
        proof {
            pre.lemma_unheld_was_not_built(index as int);
        }
        while k < self.module.definition.links[index].len()
            invariant
                !built_before(scope, pre.trace@, pre.trace@.len() as int, index as int),
                slots_done(
                    scope,
                    links,
                    rank,
                    self.trace@,
                    pre.trace@.len() as int,
                    index as int,
                    cuts,
                    k as int,
                ),
                forall|b: int|
                    0 <= b < k && cuts[b] < cuts[b + 1] ==> produced(
                        self.trace@,
                        cuts[b + 1] - 1,
                        (#[trigger] dependencies@[b]).interface,
                        dependencies@[b].instance,
                    ),
                at.len() == k,
                forall|b: int|
                    0 <= b < k && provided(scope, scope[index as int], b) ==> {
                        &&& pre.trace@.len() <= (#[trigger] at[b]) < self.trace@.len()
                        &&& produced(
                            self.trace@,
                            at[b],
                            dependencies@[b].interface,
                            dependencies@[b].instance,
                        )
                    },
                forall|a: int, b: int|
                    0 <= a < b < k && provided(scope, scope[index as int], a) && provided(
                        scope,
                        scope[index as int],
                        b,
                    ) ==> (#[trigger] at[a]) < (#[trigger] at[b]),
                self.inv(),
                self.extends(entered),
                entered.module == pre.module,
                entered.cache@ == pre.cache@.update(index as int, SlotState::Building),
                entered.trace == pre.trace,
                entered.arguments == pre.arguments,
                entered.overrides == pre.overrides,
                pre.inv(),
                pre.cache@[index as int] == SlotState::Unbuilt,
                index < pre.cache@.len(),
                scope == pre.module.definition.scope@,
                links == pre.module.definition.links@,
                rank == pre.module.rank@,
                forall|i: int|
                    0 <= i < pre.cache@.len() && (#[trigger] pre.cache@[i]) == SlotState::Building
                        ==> rank[i] > rank[index as int],
                k <= links[index as int]@.len(),
                dependencies@.len() == k,
                forall|b: int|
                    0 <= b < k ==> {
                        &&& (#[trigger] dependencies@[b]).field
                            == scope[index as int].dependencies@[b].field
                        &&& dependencies@[b].interface
                            == scope[index as int].dependencies@[b].interface
                    },
                forall|b: int| 0 <= b < k ==> available(self.trace@, #[trigger] dependencies@[b]),
                all_built(self.trace@, pre.trace@.len() as int, self.trace@.len() as int),
                all_needed(
                    scope,
                    self.trace@,
                    pre.trace@.len() as int,
                    self.trace@.len() as int,
                    interface,
                ),
                self.ranked(pre.trace@.len() as int, rank[index as int] - 1),
                forall|b: int|
                    0 <= b < k && scope[(#[trigger] links[index as int]@[b]) as int].kind
                        == Lifecycle::Singleton ==> self.cache@[links[index as int]@[b] as int]
                        == SlotState::Built(dependencies@[b].instance),
            decreases links[index as int]@.len() - k,
        {
            let target = self.module.definition.links[index][k];
            let slot = self.module.definition.scope[index].dependencies[k];
            let ghost mid = *self;
            assert(is_binding(scope, slot.interface, target as int));
            assert(rank[target as int] < rank[index as int]);
            assert(self.module == pre.module);
            let resolved = self.resolve_at(target, factory);
            proof {
                assert(depends_on(scope, interface, slot.interface)) by {
                    assert(scope[index as int].dependencies@[k as int].interface == slot.interface);
                }
                assert forall|e: int| pre.trace@.len() <= e < self.trace@.len() implies needs(
                    scope,
                    interface,
                    (#[trigger] self.trace@[e]).request.interface,
                ) by {
                    if e < mid.trace@.len() {
                        assert(self.trace@[e] == mid.trace@[e]);
                    } else {
                        lemma_needs_through(
                            scope,
                            interface,
                            slot.interface,
                            self.trace@[e].request.interface,
                        );
                    }
                }
            }
            match resolved {
                Ok(token) => {
                    proof {
                        let found = ResolvedDependency {
                            field: slot.field,
                            interface: slot.interface,
                            instance: token,
                        };
                        if mid.cache@[target as int] is Built {
                            assert(accounted(scope, mid.cache@, mid.trace@, target as int));
                            let e = choose|e: int| #[trigger]
                                produced(mid.trace@, e, scope[target as int].interface, token);
                            assert(produced(self.trace@, e, found.interface, found.instance));
                        } else {
                            assert(produced(
                                self.trace@,
                                self.trace@.len() - 1,
                                found.interface,
                                found.instance,
                            ));
                        }
                        assert(available(self.trace@, found));
                        self.lemma_ranked_joins(
                            mid,
                            pre.trace@.len() as int,
                            rank[index as int] - 1,
                        );
                        lemma_all_built_joins(
                            mid.trace@,
                            self.trace@,
                            pre.trace@.len() as int,
                            self.trace@.len() as int,
                        );
                        assert forall|b: int| 0 <= b < k implies available(
                            self.trace@,
                            #[trigger] dependencies@[b],
                        ) by {
                            lemma_available_grows(mid.trace@, self.trace@, dependencies@[b]);
                        }
                    }
                    proof {
                        let ghost earlier = at;
                        assert forall|b: int|
                            0 <= b < k && provided(scope, scope[index as int], b) implies produced(
                            self.trace@,
                            #[trigger] earlier[b],
                            dependencies@[b].interface,
                            dependencies@[b].instance,
                        ) by {
                            assert(self.trace@[earlier[b]] == mid.trace@[earlier[b]]);
                        }
                        crate::descriptor::lemma_binding_unique(
                            scope,
                            slot.interface,
                            target as int,
                            binding_of(scope, slot.interface),
                        );
                        at = at.push(self.trace@.len() - 1);
                        let ghost sofar = cuts;
                        lemma_slot_done(
                            scope,
                            links,
                            rank,
                            mid.trace@,
                            self.trace@,
                            pre.trace@.len() as int,
                            index as int,
                            sofar,
                            k as int,
                        );
                        assert forall|b: int|
                            0 <= b < k && sofar[b] < sofar[b + 1] implies produced(
                            self.trace@,
                            sofar[b + 1] - 1,
                            (#[trigger] dependencies@[b]).interface,
                            dependencies@[b].instance,
                        ) by {
                            assert(rises(sofar, b, pre.trace@.len() as int));
                            assert(sofar[b + 1] <= mid.trace@.len());
                            assert(self.trace@[sofar[b + 1] - 1] == mid.trace@[sofar[b + 1] - 1]);
                        }
                        cuts = cuts.push(self.trace@.len() as int);
                        if cuts[k as int] < cuts[k + 1] {
                            assert(produced(
                                self.trace@,
                                cuts[k + 1] - 1,
                                slot.interface,
                                token,
                            ));
                        }
                    }
                    dependencies.push(
                        ResolvedDependency {
                            field: slot.field,
                            interface: slot.interface,
                            instance: token,
                        },
                    );
                },
                Err(e) => {
                    let ghost failed = *self;
                    self.cache.set(index, SlotState::Unbuilt);
                    proof {
                        lemma_orderly_mark(
                            scope,
                            failed.cache@,
                            failed.overrides@,
                            failed.trace@,
                            index as int,
                            SlotState::Unbuilt,
                        );
                        self.lemma_ranked_joins(
                            mid,
                            pre.trace@.len() as int,
                            rank[index as int] - 1,
                        );
                        lemma_all_built_joins(
                            mid.trace@,
                            self.trace@,
                            pre.trace@.len() as int,
                            self.trace@.len() - 1,
                        );
                        lemma_built_before_grows(
                            scope,
                            pre.trace@,
                            self.trace@,
                            pre.trace@.len() as int,
                            index as int,
                        );
                        assert(failed.failed(
                            mid.trace@.len() as int,
                            failed.trace@.len() as int,
                            target as int,
                        ));
                        lemma_failed_through(
                            scope,
                            links,
                            rank,
                            mid.trace@,
                            self.trace@,
                            pre.trace@.len() as int,
                            index as int,
                            cuts,
                            k as int,
                        );
                        if let EngineError::ComponentBuildFailed { interface: at, cause } = e {
                            assert(depends_on(scope, interface, slot.interface)) by {
                                assert(scope[index as int].dependencies@[k as int].interface
                                    == slot.interface);
                            }
                            assert(scope[target as int].interface == slot.interface);
                            assert(needs(scope, slot.interface, at));
                            lemma_needs_through(scope, interface, slot.interface, at);
                            crate::descriptor::lemma_bound_has_binding(scope, at);
                            assert(self.states()[binding_of(scope, at)] == SlotState::Unbuilt);
                            lemma_supplied_sooner(
                                scope,
                                self.trace@,
                                mid.trace@.len() as int,
                                pre.trace@.len() as int,
                                scope[binding_of(scope, at)],
                                self.trace@.last().request.dependencies@,
                            );
                        }
                    }
                    return Err(e);
                },
            }
            k = k + 1;
        }
        let parameters = match parameters_of(
            &self.module.definition.scope[index],
            &self.overrides,
        ) {
            Ok(parameters) => parameters,
            Err(c) => {
                assert(crate::builder::missing_at(scope, self.overrides@, index as int, c as int));
                self.cache.set(index, SlotState::Unbuilt);
                return Err(EngineError::InternalError);
            },
        };
        let request = BuildRequest { component, interface, kind, dependencies, parameters };
        let outcome = factory.build(&request);
        let ghost asked = *self;
        self.trace = Ghost(self.trace@.push(BuildEvent { request, outcome }));
        self.cache.set(index, settle(kind, outcome));
        proof {
            let filled = request.dependencies@;
            assert forall|b: int, j: int|
                0 <= b < filled.len() && is_binding(
                    scope,
                    scope[index as int].dependencies@[b].interface,
                    j,
                ) && scope[j].kind == Lifecycle::Singleton implies #[trigger] asked.cache@[j]
                == SlotState::Built((#[trigger] filled[b]).instance) by {
                crate::descriptor::lemma_binding_unique(
                    scope,
                    scope[index as int].dependencies@[b].interface,
                    j,
                    links[index as int]@[b] as int,
                );
            }
            assert(fills(scope, asked.cache@, scope[index as int], filled));
            lemma_orderly_record(
                scope,
                asked.cache@,
                asked.overrides@,
                asked.trace@,
                index as int,
                BuildEvent { request, outcome },
            );
            lemma_needs_itself(scope, interface);
            crate::descriptor::lemma_binding_unique(
                scope,
                interface,
                index as int,
                binding_of(scope, interface),
            );
            assert(in_order(
                scope,
                self.cache@,
                self.overrides@,
                self.trace@,
                self.trace@.len() - 1,
            ));
            assert forall|b: int|
                0 <= b < filled.len() && provided(scope, scope[index as int], b) implies produced(
                self.trace@,
                #[trigger] at[b],
                filled[b].interface,
                filled[b].instance,
            ) by {
                assert(self.trace@[at[b]] == asked.trace@[at[b]]);
            }
            assert(supplies(
                scope,
                self.trace@,
                pre.trace@.len() as int,
                scope[index as int],
                filled,
                at,
            ));
            lemma_built_before_grows(
                scope,
                pre.trace@,
                asked.trace@,
                pre.trace@.len() as int,
                index as int,
            );
            lemma_finished(
                scope,
                links,
                rank,
                asked.trace@,
                BuildEvent { request, outcome },
                pre.trace@.len() as int,
                index as int,
                cuts,
            );
        }
        report(interface, outcome)
    }
}

/// The token behind the handle that a resolution granted.
pub open spec fn instance_of(r: Result<Handle, EngineError>) -> Result<u64, EngineError> {
    match r {
        Ok(handle) => Ok(handle.instance),
        Err(e) => Err(e),
    }
}

impl ModuleInstance {
    /// Resolves `interface` and grants `access` to the instance. An
    /// interface without a binding is turned away. A singleton that exists
    /// is handed out again, and nothing else happens. Otherwise the
    /// dependencies are resolved first, then the factory builds the
    /// component; if any build fails, its cause is handed on and every
    /// binding on the way is left unbuilt.
    pub fn resolve<F: ComponentFactory>(
        &mut self,
        interface: u64,
        access: Access,
        factory: &mut F,
    ) -> (r: Result<Handle, EngineError>)
        requires
            old(self).wf(),
        ensures
            final(self).wf(),
            final(self).extends(*old(self)),
            !(r matches Err(EngineError::InternalError)),
            r matches Ok(handle) ==> handle.interface == interface && handle.access == access,
            !bound(old(self).scope(), interface) ==> {
                &&& r == Err::<Handle, EngineError>(EngineError::UnboundInterface { interface })
                &&& final(self).states() == old(self).states()
                &&& final(self).trace() == old(self).trace()
                &&& *final(factory) == *old(factory)
            },
            bound(old(self).scope(), interface) ==> {
                let i = binding_of(old(self).scope(), interface);
                &&& final(self).answered(*old(self), i, instance_of(r))
                &&& old(self).states()[i] is Built ==> *final(factory) == *old(factory)
            },
    {
        match find_binding(&self.module.definition.scope, interface) {
            None => Err(EngineError::UnboundInterface { interface }),
            Some(index) => {
                let inner = self.resolve_at(index, factory);
                match inner {
                    Ok(instance) => Ok(Handle { interface, instance, access }),
                    Err(e) => Err(e),
                }
            },
        }
    }

    /// Resolves `interface` for shared access.
    pub fn resolve_shared<F: ComponentFactory>(&mut self, interface: u64, factory: &mut F) -> (r:
        Result<Handle, EngineError>)
        requires
            old(self).wf(),
        ensures
            final(self).wf(),
            final(self).extends(*old(self)),
            !(r matches Err(EngineError::InternalError)),
            r matches Ok(handle) ==> handle.interface == interface && handle.access
                == Access::Shared,
            !bound(old(self).scope(), interface) ==> {
                &&& r == Err::<Handle, EngineError>(EngineError::UnboundInterface { interface })
                &&& final(self).states() == old(self).states()
                &&& final(self).trace() == old(self).trace()
                &&& *final(factory) == *old(factory)
            },
            bound(old(self).scope(), interface) ==> {
                let i = binding_of(old(self).scope(), interface);
                &&& final(self).answered(*old(self), i, instance_of(r))
                &&& old(self).states()[i] is Built ==> *final(factory) == *old(factory)
            },
    {
        self.resolve(interface, Access::Shared, factory)
    }

    /// Resolves `interface` for exclusive access. The borrow of the
    /// instance for the call is what keeps other holders out; the engine
    /// adds no lock of its own.
    pub fn resolve_exclusive<F: ComponentFactory>(&mut self, interface: u64, factory: &mut F) -> (r:
        Result<Handle, EngineError>)
        requires
            old(self).wf(),
        ensures
            final(self).wf(),
            final(self).extends(*old(self)),
            !(r matches Err(EngineError::InternalError)),
            r matches Ok(handle) ==> handle.interface == interface && handle.access
                == Access::Exclusive,
            !bound(old(self).scope(), interface) ==> {
                &&& r == Err::<Handle, EngineError>(EngineError::UnboundInterface { interface })
                &&& final(self).states() == old(self).states()
                &&& final(self).trace() == old(self).trace()
                &&& *final(factory) == *old(factory)
            },
            bound(old(self).scope(), interface) ==> {
                let i = binding_of(old(self).scope(), interface);
                &&& final(self).answered(*old(self), i, instance_of(r))
                &&& old(self).states()[i] is Built ==> *final(factory) == *old(factory)
            },
    {
        self.resolve(interface, Access::Exclusive, factory)
    }

    /// The singleton that exists for `interface`, if one does.
    pub fn singleton(&self, interface: u64) -> (token: Option<u64>)
        requires
            self.wf(),
        ensures
            token == (if bound(self.scope(), interface) {
                match self.states()[binding_of(self.scope(), interface)] {
                    SlotState::Built(t) => Some(t),
                    _ => None,
                }
            } else {
                None
            }),
    {
        match find_binding(&self.module.definition.scope, interface) {
            None => None,
            Some(index) => {
                match self.cache[index] {
                    SlotState::Built(token) => Some(token),
                    _ => None,
                }
            },
        }
    }

    /// The values that a build of the component bound to `interface` gets
    /// for its configuration slots.
    pub fn parameters_for(&self, interface: u64) -> (r: Result<Vec<Parameter>, EngineError>)
        requires
            self.wf(),
        ensures
            !bound(self.scope(), interface) ==> r == Err::<Vec<Parameter>, EngineError>(
                EngineError::UnboundInterface { interface },
            ),
            bound(self.scope(), interface) ==> {
                &&& r matches Ok(parameters)
                &&& is_effective(
                    self.scope()[binding_of(self.scope(), interface)],
                    self.overrides(),
                    parameters@,
                )
            },
    {
        match find_binding(&self.module.definition.scope, interface) {
            None => Err(EngineError::UnboundInterface { interface }),
            Some(index) => {
                match parameters_of(&self.module.definition.scope[index], &self.overrides) {
                    Ok(parameters) => Ok(parameters),
                    Err(c) => {
                        assert(crate::builder::missing_at(
                            self.scope(),
                            self.overrides@,
                            index as int,
                            c as int,
                        ));
                        Err(EngineError::InternalError)
                    },
                }
            },
        }
    }
}

/// `handle` grants shared access through an interface that `scope` binds,
/// and where the binding is a singleton, to the instance that `states`
/// holds for it.
pub open spec fn held(
    scope: Seq<ComponentDescriptor>,
    states: Seq<SlotState>,
    handle: Handle,
) -> bool {
    let i = binding_of(scope, handle.interface);
    &&& handle.access == Access::Shared
    &&& is_binding(scope, handle.interface, i)
    &&& scope[i].kind == Lifecycle::Singleton ==> states[i] == SlotState::Built(handle.instance)
}

/// For each handle of `handles` whose interface is bound to a provider,
/// `spots` gives a call of `trace` at or after position `from` that built
/// the instance behind the handle; a later handle has a later call.
pub open spec fn grants(
    scope: Seq<ComponentDescriptor>,
    trace: Seq<BuildEvent>,
    from: int,
    handles: Seq<Handle>,
    spots: Seq<int>,
) -> bool {
    &&& spots.len() == handles.len()
    &&& forall|q: int|
        0 <= q < handles.len() && scope[binding_of(scope, handles[q].interface)].kind
            == Lifecycle::Provider ==> {
            &&& from <= (#[trigger] spots[q]) < trace.len()
            &&& produced(trace, spots[q], handles[q].interface, handles[q].instance)
        }
    &&& forall|p: int, q: int|
        0 <= p < q < handles.len() && scope[binding_of(scope, handles[p].interface)].kind
            == Lifecycle::Provider && scope[binding_of(scope, handles[q].interface)].kind
            == Lifecycle::Provider ==> (#[trigger] spots[p]) < (#[trigger] spots[q])
}

/// Every handle of `handles` whose interface is bound to a provider is for
/// an instance that was built for this handle alone, by a call of `trace`
/// at or after position `from`, in the order of the handles.
pub open spec fn granted_afresh(
    scope: Seq<ComponentDescriptor>,
    trace: Seq<BuildEvent>,
    from: int,
    handles: Seq<Handle>,
) -> bool {
    exists|spots: Seq<int>| #[trigger] grants(scope, trace, from, handles, spots)
}

/// The calls of `trace` from `cuts[p]` up to `cuts[p + 1]` are those of one
/// resolution of the descriptor at position `p` of `order`, if that is the
/// binding of its interface, and none otherwise.
pub open spec fn resolved_at_turn(
    scope: Seq<ComponentDescriptor>,
    links: Seq<Vec<usize>>,
    rank: Seq<usize>,
    trace: Seq<BuildEvent>,
    order: Seq<usize>,
    cuts: Seq<int>,
    p: int,
) -> bool {
    let i = order[p] as int;
    &&& cuts[p] <= cuts[p + 1] <= trace.len()
    &&& if is_binding(scope, scope[i].interface, i) {
        resolved_in(scope, links, rank, trace, cuts[p], cuts[p + 1], i)
    } else {
        cuts[p] == cuts[p + 1]
    }
}

/// The calls of `trace` from position `from` on are those of the
/// resolutions of the first `turns` descriptors of `order`, one after the
/// other, every build with success.
pub open spec fn resolved_in_turn(
    scope: Seq<ComponentDescriptor>,
    links: Seq<Vec<usize>>,
    rank: Seq<usize>,
    trace: Seq<BuildEvent>,
    order: Seq<usize>,
    from: int,
    turns: int,
    cuts: Seq<int>,
) -> bool {
    &&& cuts.len() == turns + 1
    &&& cuts[0] == from
    &&& cuts[turns] == trace.len()
    &&& forall|p: int|
        0 <= p < turns ==> #[trigger] resolved_at_turn(scope, links, rank, trace, order, cuts, p)
}

/// The calls of `trace` from position `from` on are those of the
/// resolutions of the first descriptors of `order`, as many as `cuts`
/// marks, every build with success, and then those of the resolution of
/// the next descriptor, which ended with the first build that failed.
pub open spec fn failed_in_turn(
    scope: Seq<ComponentDescriptor>,
    links: Seq<Vec<usize>>,
    rank: Seq<usize>,
    trace: Seq<BuildEvent>,
    order: Seq<usize>,
    from: int,
    cuts: Seq<int>,
) -> bool {
    let turns = cuts.len() - 1;
    &&& 0 <= turns < order.len()
    &&& cuts[0] == from
    &&& forall|p: int|
        0 <= p < turns ==> #[trigger] resolved_at_turn(scope, links, rank, trace, order, cuts, p)
    &&& failed_in(scope, links, rank, trace, cuts[turns], trace.len() as int, order[turns] as int)
}

/// The interfaces that `handles` grant access through, in their order.
pub open spec fn interfaces_of(handles: Seq<Handle>) -> Seq<u64> {
    Seq::new(handles.len(), |q: int| handles[q].interface)
}

impl ModuleInstance {
    /// The calls from position `from` of the trace on are those of the
    /// resolutions of every descriptor in build order, one after the other,
    /// every build with success.
    pub open(crate) spec fn resolved_all(&self, from: int) -> bool {
        exists|cuts: Seq<int>| #[trigger]
            resolved_in_turn(
                self.module.definition.scope@,
                self.module.definition.links@,
                self.module.rank@,
                self.trace@,
                self.module.order@,
                from,
                self.module.order@.len() as int,
                cuts,
            )
    }

    /// The calls from position `from` of the trace on are those of the
    /// resolutions of the descriptors in build order, one after the other,
    /// up to the first build that failed.
    pub open(crate) spec fn failed_all(&self, from: int) -> bool {
        exists|cuts: Seq<int>| #[trigger]
            failed_in_turn(
                self.module.definition.scope@,
                self.module.definition.links@,
                self.module.rank@,
                self.trace@,
                self.module.order@,
                from,
                cuts,
            )
    }

    /// Resolves every bound interface for shared access in the build order
    /// of the module, dependencies before dependents, and gives one handle
    /// for each, in that order. Stops at the first build that fails.
    pub fn resolve_all<F: ComponentFactory>(&mut self, factory: &mut F) -> (r: Result<
        Vec<Handle>,
        EngineError,
    >)
        requires
            old(self).wf(),
        ensures
            final(self).wf(),
            final(self).extends(*old(self)),
            match r {
                Ok(handles) => {
                    &&& interfaces_of(handles@) == scheduled(
                        final(self).scope(),
                        final(self).module().build_order(),
                    )
                    &&& forall|q: int|
                        0 <= q < handles@.len() ==> held(
                            final(self).scope(),
                            final(self).states(),
                            #[trigger] handles@[q],
                        )
                    &&& forall|i: int|
                        0 <= i < final(self).scope().len() && is_binding(
                            final(self).scope(),
                            final(self).scope()[i].interface,
                            i,
                        ) && final(self).scope()[i].kind == Lifecycle::Singleton
                            ==> (#[trigger] final(self).states()[i]) is Built
                    &&& all_built(
                        final(self).trace(),
                        old(self).trace().len() as int,
                        final(self).trace().len() as int,
                    )
                    &&& granted_afresh(
                        final(self).scope(),
                        final(self).trace(),
                        old(self).trace().len() as int,
                        handles@,
                    )
                    &&& final(self).resolved_all(old(self).trace().len() as int)
                },
                Err(e) => {
                    &&& e matches EngineError::ComponentBuildFailed { interface, cause }
                    &&& final(self).trace().len() > old(self).trace().len()
                    &&& all_built(
                        final(self).trace(),
                        old(self).trace().len() as int,
                        final(self).trace().len() - 1,
                    )
                    &&& final(self).failed_last(interface, cause)
                    &&& final(self).fresh_last(old(self).trace().len() as int)
                    &&& final(self).failed_all(old(self).trace().len() as int)
                },
            },
    {
        let ghost scope = self.module.definition.scope@;
        let ghost order = self.module.order@;
        let ghost rank = self.module.rank@;
        let ghost start = old(self).trace@.len() as int;
        let mut handles: Vec<Handle> = Vec::new();
        let ghost mut spots: Seq<int> = Seq::empty();
        let ghost links = self.module.definition.links@;
        let ghost mut cuts: Seq<int> = seq![start];
        let mut p: usize = 0;
        assert(order.take(0) =~= Seq::<usize>::empty());
        assert(interfaces_of(handles@) =~= scheduled(scope, order.take(0)));
        while p < self.module.order.len()
            invariant
                self.wf(),
                self.extends(*old(self)),
                scope == self.module.definition.scope@,
                order == self.module.order@,
                rank == self.module.rank@,
                start == old(self).trace@.len(),
                p <= order.len(),
                interfaces_of(handles@) == scheduled(scope, order.take(p as int)),
                all_built(self.trace@, start, self.trace@.len() as int),
                grants(scope, self.trace@, start, handles@, spots),
                links == self.module.definition.links@,
                resolved_in_turn(scope, links, rank, self.trace@, order, start, p as int, cuts),
                forall|q: int|
                    0 <= q < p && is_binding(
                        scope,
                        scope[order[q] as int].interface,
                        order[q] as int,
                    ) && scope[order[q] as int].kind == Lifecycle::Singleton
                        ==> self.cache@[(#[trigger] order[q]) as int] is Built,
                forall|q: int|
                    0 <= q < handles@.len() ==> held(scope, self.cache@, #[trigger] handles@[q]),
            decreases order.len() - p,
        {
            let index = self.module.order[p];
            let interface = self.module.definition.scope[index].interface;
            let active = match find_binding(&self.module.definition.scope, interface) {
                Some(first) => first == index,
                None => false,
            };
            proof {
                assert(order.take(p + 1).drop_last() =~= order.take(p as int));
                assert(order.take(p + 1).last() == index);
                if !active && is_binding(scope, interface, index as int) {
                    assert(bound(scope, interface));
                    crate::descriptor::lemma_bound_has_binding(scope, interface);
                    crate::descriptor::lemma_binding_unique(
                        scope,
                        interface,
                        binding_of(scope, interface),
                        index as int,
                    );
                }
            }
            let ghost before = *self;
            let ghost sofar = cuts;
            if active {
                let ghost listed = handles@;
                match self.resolve_at(index, factory) {
                    Ok(instance) => {
                        proof {
                            cuts = cuts.push(self.trace@.len() as int);
                            assert forall|q: int|
                                0 <= q < p + 1 implies #[trigger] resolved_at_turn(
                                scope,
                                links,
                                rank,
                                self.trace@,
                                order,
                                cuts,
                                q,
                            ) by {
                                if q < p {
                                    assert(resolved_at_turn(
                                        scope,
                                        links,
                                        rank,
                                        before.trace@,
                                        order,
                                        sofar,
                                        q,
                                    ));
                                    if is_binding(
                                        scope,
                                        scope[order[q] as int].interface,
                                        order[q] as int,
                                    ) {
                                        lemma_resolved_grows(
                                            scope,
                                            links,
                                            rank,
                                            before.trace@,
                                            self.trace@,
                                            sofar[q],
                                            sofar[q + 1],
                                            order[q] as int,
                                        );
                                    }
                                } else {
                                    assert(self.resolved(
                                        before.trace@.len() as int,
                                        self.trace@.len() as int,
                                        index as int,
                                    ));
                                }
                            }
                            assert forall|q: int| 0 <= q < handles@.len() implies held(
                                scope,
                                self.cache@,
                                #[trigger] handles@[q],
                            ) by {
                                assert(held(scope, before.cache@, handles@[q]));
                            }
                            lemma_all_built_joins(
                                before.trace@,
                                self.trace@,
                                start,
                                self.trace@.len() as int,
                            );
                            assert forall|q: int|
                                0 <= q < listed.len() && scope[binding_of(
                                    scope,
                                    listed[q].interface,
                                )].kind == Lifecycle::Provider implies produced(
                                self.trace@,
                                #[trigger] spots[q],
                                listed[q].interface,
                                listed[q].instance,
                            ) by {
                                assert(self.trace@[spots[q]] == before.trace@[spots[q]]);
                            }
                            spots = spots.push(self.trace@.len() - 1);
                        }
                        handles.push(Handle { interface, instance, access: Access::Shared });
                        assert(interfaces_of(handles@) =~= interfaces_of(listed).push(interface));
                    },
                    Err(e) => {
                        proof {
                            lemma_all_built_joins(
                                before.trace@,
                                self.trace@,
                                start,
                                self.trace@.len() - 1,
                            );
                            assert(self.failed(
                                before.trace@.len() as int,
                                self.trace@.len() as int,
                                index as int,
                            ));
                            assert forall|q: int| 0 <= q < p implies #[trigger] resolved_at_turn(
                                scope,
                                links,
                                rank,
                                self.trace@,
                                order,
                                sofar,
                                q,
                            ) by {
                                assert(resolved_at_turn(
                                    scope,
                                    links,
                                    rank,
                                    before.trace@,
                                    order,
                                    sofar,
                                    q,
                                ));
                                if is_binding(
                                    scope,
                                    scope[order[q] as int].interface,
                                    order[q] as int,
                                ) {
                                    lemma_resolved_grows(
                                        scope,
                                        links,
                                        rank,
                                        before.trace@,
                                        self.trace@,
                                        sofar[q],
                                        sofar[q + 1],
                                        order[q] as int,
                                    );
                                }
                            }
                            assert(failed_in_turn(
                                scope,
                                links,
                                rank,
                                self.trace@,
                                order,
                                start,
                                sofar,
                            ));
                            let request = self.trace@.last().request;
                            lemma_supplied_sooner(
                                scope,
                                self.trace@,
                                before.trace@.len() as int,
                                start,
                                scope[binding_of(scope, request.interface)],
                                request.dependencies@,
                            );
                        }
                        return Err(e);
                    },
                }
            } else {
                proof {
                    cuts = cuts.push(self.trace@.len() as int);
                    assert forall|q: int| 0 <= q < p + 1 implies #[trigger] resolved_at_turn(
                        scope,
                        links,
                        rank,
                        self.trace@,
                        order,
                        cuts,
                        q,
                    ) by {
                        if q < p {
                            assert(resolved_at_turn(
                                scope,
                                links,
                                rank,
                                before.trace@,
                                order,
                                sofar,
                                q,
                            ));
                        }
                    }
                }
            }
            p = p + 1;
        }
        proof {
            assert(order.take(p as int) =~= order);
            assert forall|i: int|
                0 <= i < scope.len() && is_binding(scope, scope[i].interface, i) && scope[i].kind
                    == Lifecycle::Singleton implies (#[trigger] self.cache@[i]) is Built by {
                assert(order[rank[i] as int] == i);
            }
        }
        Ok(handles)
    }
}

} // verus!
