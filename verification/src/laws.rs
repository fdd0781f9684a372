//! What follows from the contracts of the engine, stated once and proved.

use vstd::prelude::*;
use crate::builder::{complete, effective_value, missing_at, override_of, Override};
use crate::descriptor::{
    is_binding, ComponentDescriptor, ConfigSlot, ConfigValue, DefaultRule, Lifecycle,
};
use crate::error::EngineError;
use crate::graph::acyclic;
use crate::instance::{
    accounted, built_once, causal, in_order, none_for, recorded, ModuleInstance, SlotState,
};
use crate::module::{
    dependencies_acyclic, is_dependency_cycle, lemma_cycle_indices, lemma_scheduled_holds,
    scheduled, ValidatedModule,
};

verus! {

/// A validated module has no dependency cycle.
pub proof fn law_validated_module_is_acyclic(module: ValidatedModule)
    requires
        module.wf(),
    ensures
        dependencies_acyclic(module.definition().scope()),
{
    let scope = module.definition.scope@;
    let links = module.definition.links@;
    crate::module::lemma_links_closed(scope, links);
    crate::graph::lemma_ranking_implies_acyclic(links, module.rank@);
    assert forall|c: Seq<u64>| !#[trigger] is_dependency_cycle(scope, c) by {
        if is_dependency_cycle(scope, c) {
            lemma_cycle_indices(scope, links, c);
        }
    }
}

/// A module with a dependency cycle is not acyclic, whatever else it holds.
pub proof fn law_cycle_refutes_acyclic(scope: Seq<ComponentDescriptor>, cycle: Seq<u64>)
    requires
        is_dependency_cycle(scope, cycle),
    ensures
        !dependencies_acyclic(scope),
{
}

/// A resolution never answers with an internal error.
pub proof fn law_no_internal_error(
    before: ModuleInstance,
    after: ModuleInstance,
    index: int,
    answer: Result<u64, EngineError>,
)
    requires
        after.answered(before, index, answer),
    ensures
        !(answer matches Err(EngineError::InternalError)),
{
}

/// A singleton that was resolved once is handed out again: the second
/// resolution gives the same instance, builds nothing and changes nothing.
pub proof fn law_singleton_is_stable(
    start: ModuleInstance,
    middle: ModuleInstance,
    end: ModuleInstance,
    index: int,
    first: Result<u64, EngineError>,
    second: Result<u64, EngineError>,
)
    requires
        0 <= index < start.states().len(),
        start.scope()[index].kind == Lifecycle::Singleton,
        middle.extends(start),
        middle.answered(start, index, first),
        end.extends(middle),
        end.answered(middle, index, second),
        first is Ok,
    ensures
        second == first,
        end.states() == middle.states(),
        end.trace() == middle.trace(),
{
}

/// A provider is built afresh on every resolution: each of two successful
/// resolutions asks the factory for it once, as its last call, hands out
/// what that call gave, and leaves nothing behind.
pub proof fn law_provider_is_fresh(
    start: ModuleInstance,
    middle: ModuleInstance,
    end: ModuleInstance,
    index: int,
    first: u64,
    second: u64,
)
    requires
        start.wf(),
        0 <= index < start.states().len(),
        start.scope()[index].kind == Lifecycle::Provider,
        middle.extends(start),
        middle.answered(start, index, Ok(first)),
        end.extends(middle),
        end.answered(middle, index, Ok(second)),
    ensures
        middle.trace().len() > start.trace().len(),
        middle.built_last(index, Ok(first)),
        none_for(
            middle.trace(),
            start.trace().len() as int,
            middle.trace().len() - 1,
            start.scope()[index].interface,
        ),
        end.trace().len() > middle.trace().len(),
        end.built_last(index, Ok(second)),
        none_for(
            end.trace(),
            middle.trace().len() as int,
            end.trace().len() - 1,
            start.scope()[index].interface,
        ),
        middle.states()[index] == SlotState::Unbuilt,
        end.states()[index] == SlotState::Unbuilt,
{
}

/// A resolution asks the factory for the requested component once: among
/// the calls that a successful resolution adds, the last one is for the
/// requested interface and no other is, and all of them succeeded.
pub proof fn law_one_build_per_resolution(
    before: ModuleInstance,
    after: ModuleInstance,
    index: int,
    token: u64,
    e: int,
)
    requires
        0 <= index < before.states().len(),
        !(before.states()[index] is Built),
        after.extends(before),
        after.answered(before, index, Ok(token)),
        before.trace().len() <= e < after.trace().len(),
    ensures
        after.trace()[e].outcome is Ok,
        after.trace()[e].request.interface == after.scope()[index].interface <==> e
            == after.trace().len() - 1,
{
}

/// The engine adds no retry: among the calls that a failed resolution adds,
/// the last one failed and no other did.
pub proof fn law_no_retry(
    before: ModuleInstance,
    after: ModuleInstance,
    index: int,
    failure: EngineError,
    e: int,
)
    requires
        0 <= index < before.states().len(),
        after.extends(before),
        after.answered(before, index, Err(failure)),
        before.trace().len() <= e < after.trace().len(),
    ensures
        after.trace()[e].outcome is Err <==> e == after.trace().len() - 1,
{
}

/// Every bound interface has its place in the build order, so that a full
/// resolution gives a handle for it.
pub proof fn law_every_binding_is_scheduled(module: ValidatedModule, i: int)
    requires
        module.wf(),
        0 <= i < module.definition().scope().len(),
        is_binding(module.definition().scope(), module.definition().scope()[i].interface, i),
    ensures
        scheduled(module.definition().scope(), module.build_order()).contains(
            module.definition().scope()[i].interface,
        ),
{
    crate::module::lemma_links_closed(module.definition.scope@, module.definition.links@);
    assert(module.rank@[i] < module.order@.len());
    assert(module.order@[module.rank@[i] as int] == i);
    lemma_scheduled_holds(module.definition.scope@, module.order@, module.rank@[i] as int);
}

/// Construction is post-order: whatever instance a build was handed for a
/// dependency slot, an earlier call of the factory had built it.
pub proof fn law_dependencies_are_built_first(instance: ModuleInstance)
    requires
        instance.wf(),
    ensures
        causal(instance.trace()),
{
}

/// Within one module instance no interface has its singleton built twice.
pub proof fn law_singleton_is_built_once(instance: ModuleInstance)
    requires
        instance.wf(),
    ensures
        built_once(instance.trace()),
{
}

/// Every singleton that an instance holds was built by a call of the
/// factory, for the interface it is bound to; and every call asked for the
/// component that the module binds to the interface of the request, with
/// the values in effect and its dependency slots filled one by one.
pub proof fn law_trace_accounts_for_state(instance: ModuleInstance, i: int, e: int)
    requires
        instance.wf(),
    ensures
        0 <= i < instance.states().len() ==> accounted(
            instance.scope(),
            instance.states(),
            instance.trace(),
            i,
        ),
        0 <= e < instance.trace().len() ==> recorded(
            instance.scope(),
            instance.states(),
            instance.trace(),
            e,
        ),
        0 <= e < instance.trace().len() ==> in_order(
            instance.scope(),
            instance.states(),
            instance.overrides(),
            instance.trace(),
            e,
        ),
{
}

/// A failed build leaves the binding unbuilt, so that the next resolution
/// asks the factory again.
pub proof fn law_failure_allows_retry(
    start: ModuleInstance,
    middle: ModuleInstance,
    end: ModuleInstance,
    index: int,
    failure: EngineError,
    second: u64,
)
    requires
        0 <= index < start.states().len(),
        middle.extends(start),
        middle.answered(start, index, Err(failure)),
        end.extends(middle),
        end.answered(middle, index, Ok(second)),
    ensures
        middle.states()[index] == SlotState::Unbuilt,
        end.trace().len() > middle.trace().len(),
        end.built_last(index, Ok(second)),
{
}

/// What a resolution may answer does not depend on the types that stand
/// for the generic parameters: two instantiations of one module that agree
/// in everything else admit the same answers and the same next states.
pub proof fn law_resolution_ignores_arguments(
    before: ModuleInstance,
    after: ModuleInstance,
    other_before: ModuleInstance,
    other_after: ModuleInstance,
    index: int,
    answer: Result<u64, EngineError>,
)
    requires
        after.answered(before, index, answer),
        other_before.module() == before.module(),
        other_before.overrides() == before.overrides(),
        other_before.states() == before.states(),
        other_before.trace() == before.trace(),
        other_after.module() == after.module(),
        other_after.overrides() == after.overrides(),
        other_after.states() == after.states(),
        other_after.trace() == after.trace(),
    ensures
        other_after.answered(other_before, index, answer),
{
}

/// An override that was just supplied is the value in effect.
pub proof fn law_override_wins(
    overrides: Seq<Override>,
    component: u64,
    slot: ConfigSlot,
    value: ConfigValue,
)
    ensures
        effective_value(
            overrides.push(Override { component, slot: slot.field, value }),
            component,
            slot,
        ) == Some(value),
{
    let extended = overrides.push(Override { component, slot: slot.field, value });
    assert(extended.last() == Override { component, slot: slot.field, value });
}

/// An override for another slot changes nothing for this one.
pub proof fn law_override_is_local(
    overrides: Seq<Override>,
    other: Override,
    component: u64,
    slot: ConfigSlot,
)
    requires
        other.component != component || other.slot != slot.field,
    ensures
        effective_value(overrides.push(other), component, slot) == effective_value(
            overrides,
            component,
            slot,
        ),
{
    assert(overrides.push(other).drop_last() =~= overrides);
}

/// The build of a component whose slot has an override gets exactly the
/// overridden value for it, not the default.
pub proof fn law_build_uses_override(
    before: ModuleInstance,
    after: ModuleInstance,
    index: int,
    token: u64,
    c: int,
    value: ConfigValue,
)
    requires
        0 <= index < before.states().len(),
        !(before.states()[index] is Built),
        after.extends(before),
        after.answered(before, index, Ok(token)),
        0 <= c < before.scope()[index].configuration@.len(),
        override_of(
            before.overrides(),
            before.scope()[index].component,
            before.scope()[index].configuration@[c].field,
        ) == Some(value),
    ensures
        after.trace().last().request.parameters@[c].field
            == before.scope()[index].configuration@[c].field,
        after.trace().last().request.parameters@[c].value == value,
{
    let parameters = after.trace().last().request.parameters@;
    assert(parameters[c].field == before.scope()[index].configuration@[c].field);
}

/// A required slot without an override keeps the composition incomplete,
/// so `build` fails.
pub proof fn law_required_slot_needs_override(
    scope: Seq<ComponentDescriptor>,
    overrides: Seq<Override>,
    i: int,
    c: int,
)
    requires
        0 <= i < scope.len(),
        0 <= c < scope[i].configuration@.len(),
        scope[i].configuration@[c].default == DefaultRule::Required,
        override_of(overrides, scope[i].component, scope[i].configuration@[c].field) is None,
    ensures
        !complete(scope, overrides),
{
    assert(missing_at(scope, overrides, i, c));
}

/// Where every required slot has an override, the composition is complete,
/// so `build` succeeds.
pub proof fn law_overrides_complete(scope: Seq<ComponentDescriptor>, overrides: Seq<Override>)
    requires
        forall|i: int, c: int|
            0 <= i < scope.len() && 0 <= c < scope[i].configuration@.len() && (
            #[trigger] scope[i].configuration@[c]).default == DefaultRule::Required ==> override_of(
                overrides,
                scope[i].component,
                scope[i].configuration@[c].field,
            ) is Some,
    ensures
        complete(scope, overrides),
{
    assert forall|i: int, c: int| !#[trigger] missing_at(scope, overrides, i, c) by {
        if 0 <= i < scope.len() && 0 <= c < scope[i].configuration@.len() {
            let slot = scope[i].configuration@[c];
            if slot.default == DefaultRule::Required {
                assert(override_of(overrides, scope[i].component, slot.field) is Some);
            }
        }
    }
}

} // verus!
