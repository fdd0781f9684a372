//! Composition: type arguments for the generic parameters, overrides for
//! configuration slots, and the completeness check that guards `build`.

use vstd::prelude::*;
use crate::descriptor::{
    holds_id, BoundSet, ComponentDescriptor, ConfigSlot, ConfigValue, DefaultRule,
};
use crate::error::EngineError;
use crate::instance::{value_for, ModuleInstance, SlotState};
use crate::module::{slot_before, ValidatedModule};

verus! {

/// A value that the caller supplies for one slot of one component.
#[derive(Clone, Copy, Debug, PartialEq, Eq)]
pub struct Override {
    pub component: u64,
    pub slot: u64,
    pub value: ConfigValue,
}

/// A type put in the place of a generic parameter, with what it offers.
#[derive(Debug)]
pub struct TypeArgument {
    pub type_id: u64,
    /// The interfaces that the type implements.
    pub implements: Vec<u64>,
    pub default_constructible: bool,
    pub shareable: bool,
}

/// The value that was supplied last for `slot` of `component`, if any was.
pub open spec fn override_of(overrides: Seq<Override>, component: u64, slot: u64) -> Option<
    ConfigValue,
>
    decreases overrides.len(),
{
    if overrides.len() == 0 {
        None
    } else if overrides.last().component == component && overrides.last().slot == slot {
        Some(overrides.last().value)
    } else {
        override_of(overrides.drop_last(), component, slot)
    }
}

/// The value that a build of `component` gets for `slot`: the override if
/// there is one, else the default; none where both are missing.
pub open spec fn effective_value(
    overrides: Seq<Override>,
    component: u64,
    slot: ConfigSlot,
) -> Option<ConfigValue> {
    match override_of(overrides, component, slot.field) {
        Some(value) => Some(value),
        None => match slot.default {
            DefaultRule::Required => None,
            DefaultRule::Value(value) => Some(value),
            DefaultRule::TypeDefault => Some(ConfigValue::TypeDefault),
            DefaultRule::Computed => Some(ConfigValue::Computed),
        },
    }
}

/// The configuration slot `c` of `scope[i]` has neither default nor override.
pub open spec fn missing_at(
    scope: Seq<ComponentDescriptor>,
    overrides: Seq<Override>,
    i: int,
    c: int,
) -> bool {
    &&& 0 <= i < scope.len()
    &&& 0 <= c < scope[i].configuration@.len()
    &&& effective_value(overrides, scope[i].component, scope[i].configuration@[c]) is None
}

/// Every configuration slot of `scope` has a value.
pub open spec fn complete(scope: Seq<ComponentDescriptor>, overrides: Seq<Override>) -> bool {
    forall|i: int, c: int| !#[trigger] missing_at(scope, overrides, i, c)
}

/// The type `arg` offers what `bounds` ask for.
pub open spec fn satisfies(arg: TypeArgument, bounds: BoundSet) -> bool {
    &&& bounds.shareable ==> arg.shareable
    &&& bounds.default_constructible ==> arg.default_constructible
    &&& forall|k: int|
        0 <= k < bounds.implements@.len() ==> arg.implements@.contains(
            #[trigger] bounds.implements@[k],
        )
}

/// Parameter `p` has an argument that meets its bounds.
pub open spec fn fits_at(args: Seq<TypeArgument>, params: Seq<BoundSet>, p: int) -> bool {
    0 <= p < args.len() && p < params.len() && satisfies(args[p], params[p])
}

/// There is one argument for each parameter, and each meets the bounds.
pub open spec fn arguments_fit(args: Seq<TypeArgument>, params: Seq<BoundSet>) -> bool {
    &&& args.len() == params.len()
    &&& forall|p: int| 0 <= p < params.len() ==> #[trigger] fits_at(args, params, p)
}

/// `p` is the first position at which a parameter lacks an argument, an
/// argument lacks a parameter, or the argument does not meet the bounds.
pub open spec fn first_misfit(args: Seq<TypeArgument>, params: Seq<BoundSet>, p: int) -> bool {
    &&& 0 <= p
    &&& p < args.len() || p < params.len()
    &&& !fits_at(args, params, p)
    &&& forall|j: int| 0 <= j < p ==> #[trigger] fits_at(args, params, j)
}

/// The value that was supplied last for `slot` of `component`, if any was.
pub fn find_override(overrides: &Vec<Override>, component: u64, slot: u64) -> (found: Option<
    ConfigValue,
>)
    ensures
        found == override_of(overrides@, component, slot),
{
    let mut n: usize = overrides.len();
    assert(overrides@.take(n as int) =~= overrides@);
    while n > 0
        invariant
            n <= overrides@.len(),
            override_of(overrides@, component, slot) == override_of(
                overrides@.take(n as int),
                component,
                slot,
            ),
        decreases n,
    {
        let candidate = overrides[n - 1];
        if candidate.component == component && candidate.slot == slot {
            return Some(candidate.value);
        }
        assert(overrides@.take(n as int).drop_last() =~= overrides@.take(n - 1));
        n = n - 1;
    }
    None
}

/// Whether the type offers what the bounds ask for.
pub fn check_argument(arg: &TypeArgument, bounds: &BoundSet) -> (ok: bool)
    ensures
        ok == satisfies(*arg, *bounds),
{
    if bounds.shareable && !arg.shareable {
        return false;
    }
    if bounds.default_constructible && !arg.default_constructible {
        return false;
    }
    let mut k: usize = 0;
    while k < bounds.implements.len()
        invariant
            k <= bounds.implements@.len(),
            forall|j: int|
                0 <= j < k ==> arg.implements@.contains(#[trigger] bounds.implements@[j]),
        decreases bounds.implements@.len() - k,
    {
        if !holds_id(&arg.implements, bounds.implements[k]) {
            return false;
        }
        k = k + 1;
    }
    true
}

/// The first position at which arguments and parameters do not fit, if
/// there is one.
pub fn check_arguments(args: &Vec<TypeArgument>, params: &Vec<BoundSet>) -> (misfit: Option<usize>)
    ensures
        match misfit {
            None => arguments_fit(args@, params@),
            Some(p) => first_misfit(args@, params@, p as int),
        },
{
    let mut p: usize = 0;
    while p < args.len() && p < params.len()
        invariant
            p <= args@.len(),
            p <= params@.len(),
            forall|j: int| 0 <= j < p ==> #[trigger] fits_at(args@, params@, j),
        decreases args@.len() - p,
    {
        if !check_argument(&args[p], &params[p]) {
            return Some(p);
        }
        p = p + 1;
    }
    if args.len() != params.len() {
        return Some(p);
    }
    None
}

/// What `build` reports when a configuration slot has no value.
pub open spec fn build_error(
    scope: Seq<ComponentDescriptor>,
    overrides: Seq<Override>,
    e: EngineError,
) -> bool {
    exists|i: int, c: int|
        {
            &&& #[trigger] missing_at(scope, overrides, i, c)
            &&& forall|i2: int, c2: int|
                slot_before(i2, c2, i, c) ==> !#[trigger] missing_at(scope, overrides, i2, c2)
            &&& e == (EngineError::MissingRequiredParameter {
                component: scope[i].component,
                slot: scope[i].configuration@[c].field,
            })
        }
}

/// Collects what a module instance is made from.
pub struct Builder {
    pub(crate) module: ValidatedModule,
    pub(crate) arguments: Vec<TypeArgument>,
    pub(crate) overrides: Vec<Override>,
}

impl Builder {
    /// The module that will be instantiated.
    pub open(crate) spec fn module(&self) -> ValidatedModule {
        self.module
    }

    /// The types that stand for the generic parameters.
    pub open(crate) spec fn arguments(&self) -> Seq<TypeArgument> {
        self.arguments@
    }

    /// The overrides recorded so far, oldest first.
    pub open(crate) spec fn overrides(&self) -> Seq<Override> {
        self.overrides@
    }

    /// What `new` establishes and `with_parameter` keeps.
    pub open(crate) spec fn wf(&self) -> bool {
        &&& self.module.wf()
        &&& arguments_fit(self.arguments@, self.module.definition.params@)
    }

    /// Starts the composition of a validated module with one type for each
    /// of its generic parameters. Fails on the first parameter whose
    /// argument is missing or does not meet the bounds, and on the first
    /// argument without a parameter.
    pub fn new(module: ValidatedModule, arguments: Vec<TypeArgument>) -> (r: Result<
        Builder,
        EngineError,
    >)
        requires
            module.wf(),
        ensures
            match r {
                Ok(builder) => {
                    &&& arguments_fit(arguments@, module.definition().params())
                    &&& builder.wf()
                    &&& builder.module() == module
                    &&& builder.arguments() == arguments@
                    &&& builder.overrides() == Seq::<Override>::empty()
                },
                Err(e) => {
                    &&& e matches EngineError::UnsatisfiedGenericBound { parameter }
                    &&& first_misfit(arguments@, module.definition().params(), parameter as int)
                },
            },
    {
        match check_arguments(&arguments, &module.definition.params) {
            Some(parameter) => Err(EngineError::UnsatisfiedGenericBound { parameter }),
            None => Ok(Builder { module, arguments, overrides: Vec::new() }),
        }
    }

    /// Records `value` as the override for `slot` of `component`. A later
    /// override for the same slot replaces an earlier one.
    pub fn with_parameter(self, component: u64, slot: u64, value: ConfigValue) -> (builder: Builder)
        requires
            self.wf(),
        ensures
            builder.wf(),
            builder.module() == self.module(),
            builder.arguments() == self.arguments(),
            builder.overrides() == self.overrides().push(Override { component, slot, value }),
    {
        let Builder { module, arguments, mut overrides } = self;
        overrides.push(Override { component, slot, value });
        Builder { module, arguments, overrides }
    }

    /// Produces the module instance, with nothing built yet. Fails on the
    /// first configuration slot in scope that has neither a default nor an
    /// override.
    #[verifier::loop_isolation(false)]
    pub fn build(self) -> (r: Result<ModuleInstance, EngineError>)
        requires
            self.wf(),
        ensures
            match r {
                Ok(instance) => {
                    &&& complete(self.module().definition().scope(), self.overrides())
                    &&& instance.wf()
                    &&& instance.module() == self.module()
                    &&& instance.arguments() == self.arguments()
                    &&& instance.overrides() == self.overrides()
                    &&& instance.trace() == Seq::<crate::instance::BuildEvent>::empty()
                    &&& forall|i: int|
                        0 <= i < instance.states().len() ==> instance.states()[i]
                            == SlotState::Unbuilt
                },
                Err(e) => build_error(self.module().definition().scope(), self.overrides(), e),
            },
    {
        let Builder { module, arguments, overrides } = self;
        let mut cache: Vec<SlotState> = Vec::new();
        let mut i: usize = 0;
        while i < module.definition.scope.len()
            invariant
                i <= module.definition.scope@.len(),
                cache@.len() == i,
                forall|a: int| 0 <= a < i ==> cache@[a] == SlotState::Unbuilt,
                forall|a: int, b: int|
                    a < i ==> !#[trigger] missing_at(module.definition.scope@, overrides@, a, b),
            decreases module.definition.scope@.len() - i,
        {
            let descriptor = &module.definition.scope[i];
            let mut c: usize = 0;
            while c < descriptor.configuration.len()
                invariant
                    c <= descriptor.configuration@.len(),
                    forall|a: int, b: int|
                        a < i ==> !#[trigger] missing_at(
                            module.definition.scope@,
                            overrides@,
                            a,
                            b,
                        ),
                    forall|b: int|
                        b < c ==> !#[trigger] missing_at(
                            module.definition.scope@,
                            overrides@,
                            i as int,
                            b,
                        ),
                decreases descriptor.configuration@.len() - c,
            {
                let slot = descriptor.configuration[c];
                if value_for(&overrides, descriptor.component, &slot).is_none() {
                    assert(missing_at(module.definition.scope@, overrides@, i as int, c as int));
                    return Err(
                        EngineError::MissingRequiredParameter {
                            component: descriptor.component,
                            slot: slot.field,
                        },
                    );
                }
                c = c + 1;
            }
            cache.push(SlotState::Unbuilt);
            i = i + 1;
        }
        Ok(ModuleInstance { module, arguments, overrides, cache, trace: Ghost(Seq::empty()) })
    }
}

} // verus!
