//! Modules: a registry of local bindings, the declared module with its
//! imports and generic parameters, and the validated module.

use vstd::prelude::*;
use crate::descriptor::{
    binding_of, bound, find_binding, holds_id, is_binding, BoundSet, ComponentDescriptor,
    ConfigSlot, DefaultRule, DependencySlot, Lifecycle,
};
use crate::error::EngineError;
use crate::graph::{
    acyclic, closed_graph, cycle_step, is_cycle, is_listing, is_ranking, schedule,
    simple_within, successor, Schedule,
};

verus! {

/// A singleton in `bindings` already claims the interface of the singleton `d`.
pub open spec fn singleton_clash(
    bindings: Seq<ComponentDescriptor>,
    d: ComponentDescriptor,
) -> bool {
    &&& d.kind == Lifecycle::Singleton
    &&& exists|j: int|
        0 <= j < bindings.len() && (#[trigger] bindings[j]).kind == Lifecycle::Singleton
            && bindings[j].interface == d.interface
}

/// No two singletons of `bindings` claim the same interface.
pub open spec fn singletons_distinct(bindings: Seq<ComponentDescriptor>) -> bool {
    forall|i: int, j: int|
        0 <= i < j < bindings.len() && (#[trigger] bindings[i]).kind == Lifecycle::Singleton && (
        #[trigger] bindings[j]).kind == Lifecycle::Singleton ==> bindings[i].interface
            != bindings[j].interface
}

/// The bindings that a module makes itself, in the order of registration.
pub struct Registry {
    pub(crate) bindings: Vec<ComponentDescriptor>,
}

impl Registry {
    /// The registered descriptors, oldest first.
    pub open(crate) spec fn entries(&self) -> Seq<ComponentDescriptor> {
        self.bindings@
    }

    /// No interface has two singleton bindings.
    pub open spec fn wf(&self) -> bool {
        singletons_distinct(self.entries())
    }

    /// A registry without bindings.
    pub fn new() -> (registry: Registry)
        ensures
            registry.wf(),
            registry.entries() == Seq::<ComponentDescriptor>::empty(),
    {
        Registry { bindings: Vec::new() }
    }

    /// Adds a binding. A singleton for an interface that already has one is
    /// turned away, and the registry stays as it was. Dependency slots are
    /// not looked at here: a later registration or an import may bind what
    /// they name, so `declare` is where an unbound one is found.
    pub fn register(&mut self, descriptor: ComponentDescriptor) -> (r: Result<(), EngineError>)
        requires
            old(self).wf(),
        ensures
            final(self).wf(),
            match r {
                Ok(_) => {
                    &&& !singleton_clash(old(self).entries(), descriptor)
                    &&& final(self).entries() == old(self).entries().push(descriptor)
                },
                Err(e) => {
                    &&& singleton_clash(old(self).entries(), descriptor)
                    &&& e == (EngineError::DuplicateSingletonBinding {
                        interface: descriptor.interface,
                    })
                    &&& final(self).entries() == old(self).entries()
                },
            },
    {
        match descriptor.kind {
            Lifecycle::Singleton => {
                let mut j: usize = 0;
                while j < self.bindings.len()
                    invariant
                        j <= self.bindings@.len(),
                        self.bindings@ == old(self).bindings@,
                        old(self).wf(),
                        descriptor.kind == Lifecycle::Singleton,
                        forall|i: int|
                            0 <= i < j ==> !((#[trigger] self.bindings@[i]).kind
                                == Lifecycle::Singleton && self.bindings@[i].interface
                                == descriptor.interface),
                    decreases self.bindings@.len() - j,
                {
                    let clash = match self.bindings[j].kind {
                        Lifecycle::Singleton => self.bindings[j].interface == descriptor.interface,
                        Lifecycle::Provider => false,
                    };
                    if clash {
                        assert(self.bindings@[j as int].kind == Lifecycle::Singleton);
                        return Err(
                            EngineError::DuplicateSingletonBinding {
                                interface: descriptor.interface,
                            },
                        );
                    }
                    j = j + 1;
                }
            },
            Lifecycle::Provider => {},
        }
        self.bindings.push(descriptor);
        Ok(())
    }
}

/// The bounds of `params` allow the type of the dependency slot `slot`.
pub open spec fn dependency_allowed(params: Seq<BoundSet>, slot: DependencySlot) -> bool {
    match slot.param {
        None => true,
        Some(p) => {
            &&& p < params.len()
            &&& params[p as int].shareable
            &&& params[p as int].implements@.contains(slot.interface)
        },
    }
}

/// The bounds of `params` allow the type of the configuration slot `slot`.
pub open spec fn config_allowed(params: Seq<BoundSet>, slot: ConfigSlot) -> bool {
    match slot.param {
        None => true,
        Some(p) => {
            &&& p < params.len()
            &&& params[p as int].shareable
            &&& (slot.default == DefaultRule::TypeDefault
                ==> params[p as int].default_constructible)
        },
    }
}

/// The bounds of `params` allow every slot of `d`.
pub open spec fn descriptor_allowed(params: Seq<BoundSet>, d: ComponentDescriptor) -> bool {
    &&& forall|k: int|
        0 <= k < d.dependencies@.len() ==> dependency_allowed(params, #[trigger] d.dependencies@[k])
    &&& forall|c: int|
        0 <= c < d.configuration@.len() ==> config_allowed(params, #[trigger] d.configuration@[c])
}

/// The first slot of `d` that the bounds of `params` do not allow,
/// dependency slots before configuration slots, has the generic parameter
/// `parameter` as its type.
pub open spec fn first_violation(
    params: Seq<BoundSet>,
    d: ComponentDescriptor,
    parameter: usize,
) -> bool {
    ||| exists|k: int|
        {
            &&& 0 <= k < d.dependencies@.len()
            &&& !dependency_allowed(params, #[trigger] d.dependencies@[k])
            &&& d.dependencies@[k].param == Some(parameter)
            &&& forall|j: int|
                0 <= j < k ==> dependency_allowed(params, #[trigger] d.dependencies@[j])
        }
    ||| {
        &&& forall|j: int|
            0 <= j < d.dependencies@.len() ==> dependency_allowed(
                params,
                #[trigger] d.dependencies@[j],
            )
        &&& exists|c: int|
            {
                &&& 0 <= c < d.configuration@.len()
                &&& !config_allowed(params, #[trigger] d.configuration@[c])
                &&& d.configuration@[c].param == Some(parameter)
                &&& forall|j: int|
                    0 <= j < c ==> config_allowed(params, #[trigger] d.configuration@[j])
            }
    }
}

/// The bounds of `params` allow every slot of every descriptor of `locals`.
pub open spec fn bounds_suffice(locals: Seq<ComponentDescriptor>, params: Seq<BoundSet>) -> bool {
    forall|i: int| 0 <= i < locals.len() ==> descriptor_allowed(params, #[trigger] locals[i])
}

/// Whether the bounds allow the dependency slot.
fn check_dependency(params: &Vec<BoundSet>, slot: &DependencySlot) -> (ok: bool)
    ensures
        ok == dependency_allowed(params@, *slot),
{
    match slot.param {
        None => true,
        Some(p) => p < params.len() && params[p].shareable && holds_id(
            &params[p].implements,
            slot.interface,
        ),
    }
}

/// Whether the bounds allow the configuration slot.
fn check_config(params: &Vec<BoundSet>, slot: &ConfigSlot) -> (ok: bool)
    ensures
        ok == config_allowed(params@, *slot),
{
    match slot.param {
        None => true,
        Some(p) => {
            if p < params.len() && params[p].shareable {
                match slot.default {
                    DefaultRule::TypeDefault => params[p].default_constructible,
                    _ => true,
                }
            } else {
                false
            }
        },
    }
}

/// The generic parameter of the first slot of `d` that the bounds do not
/// allow, if there is such a slot.
pub fn check_bounds(params: &Vec<BoundSet>, d: &ComponentDescriptor) -> (violation: Option<usize>)
    ensures
        match violation {
            None => descriptor_allowed(params@, *d),
            Some(parameter) => first_violation(params@, *d, parameter),
        },
{
    let mut k: usize = 0;
    while k < d.dependencies.len()
        invariant
            k <= d.dependencies@.len(),
            forall|j: int|
                0 <= j < k ==> dependency_allowed(params@, #[trigger] d.dependencies@[j]),
        decreases d.dependencies@.len() - k,
    {
        if !check_dependency(params, &d.dependencies[k]) {
            assert(!dependency_allowed(params@, d.dependencies@[k as int]));
            return d.dependencies[k].param;
        }
        k = k + 1;
    }
    let mut c: usize = 0;
    while c < d.configuration.len()
        invariant
            c <= d.configuration@.len(),
            forall|j: int|
                0 <= j < d.dependencies@.len() ==> dependency_allowed(
                    params@,
                    #[trigger] d.dependencies@[j],
                ),
            forall|j: int| 0 <= j < c ==> config_allowed(params@, #[trigger] d.configuration@[j]),
        decreases d.configuration@.len() - c,
    {
        if !check_config(params, &d.configuration[c]) {
            assert(!config_allowed(params@, d.configuration@[c as int]));
            return d.configuration[c].param;
        }
        c = c + 1;
    }
    None
}

/// The dependency slot `k` of `scope[i]` names an interface that nothing in
/// `scope` is bound to.
pub open spec fn unbound_at(scope: Seq<ComponentDescriptor>, i: int, k: int) -> bool {
    &&& 0 <= i < scope.len()
    &&& 0 <= k < scope[i].dependencies@.len()
    &&& !bound(scope, scope[i].dependencies@[k].interface)
}

/// Every dependency slot of `scope` names an interface bound in `scope`.
pub open spec fn all_bound(scope: Seq<ComponentDescriptor>) -> bool {
    forall|i: int, k: int| !#[trigger] unbound_at(scope, i, k)
}

/// Slot `(i, k)` comes before slot `(i2, k2)`.
pub open spec fn slot_before(i: int, k: int, i2: int, k2: int) -> bool {
    i < i2 || (i == i2 && k < k2)
}

/// For every dependency slot of `scope`, `links` holds the binding of the
/// interface that the slot names.
pub open spec fn links_match(scope: Seq<ComponentDescriptor>, links: Seq<Vec<usize>>) -> bool {
    &&& links.len() == scope.len()
    &&& forall|i: int|
        0 <= i < scope.len() ==> (#[trigger] links[i])@.len() == scope[i].dependencies@.len()
    &&& forall|i: int, k: int|
        0 <= i < scope.len() && 0 <= k < scope[i].dependencies@.len() ==> is_binding(
            scope,
            scope[i].dependencies@[k].interface,
            (#[trigger] links[i]@[k]) as int,
        )
}

/// A declared module: its own bindings first, then those of its imports,
/// with every dependency slot linked to the binding that satisfies it.
pub struct ModuleDefinition {
    pub(crate) scope: Vec<ComponentDescriptor>,
    pub(crate) local_count: usize,
    pub(crate) params: Vec<BoundSet>,
    pub(crate) links: Vec<Vec<usize>>,
}

/// The bindings that `imports` bring, in the order of the imports.
pub open spec fn imported_scope(imports: Seq<ModuleDefinition>) -> Seq<ComponentDescriptor>
    decreases imports.len(),
{
    if imports.len() == 0 {
        Seq::empty()
    } else {
        imported_scope(imports.drop_last()) + imports.last().scope()
    }
}

/// What `declare` reports for a module with the bindings `scope`, the first
/// `local_count` of them its own, and the generic parameters `params`.
pub open spec fn declare_error(
    scope: Seq<ComponentDescriptor>,
    local_count: int,
    params: Seq<BoundSet>,
    e: EngineError,
) -> bool {
    match e {
        EngineError::UnboundDependency { component, slot, interface } => exists|i: int, k: int|
            {
                &&& #[trigger] unbound_at(scope, i, k)
                &&& forall|i2: int, k2: int|
                    slot_before(i2, k2, i, k) ==> !#[trigger] unbound_at(scope, i2, k2)
                &&& component == scope[i].component
                &&& slot == scope[i].dependencies@[k].field
                &&& interface == scope[i].dependencies@[k].interface
            },
        EngineError::UnsatisfiedGenericBound { parameter } => {
            &&& all_bound(scope)
            &&& exists|i: int|
                {
                    &&& 0 <= i < local_count
                    &&& first_violation(params, #[trigger] scope[i], parameter)
                    &&& forall|j: int|
                        0 <= j < i ==> descriptor_allowed(params, #[trigger] scope[j])
                }
        },
        _ => false,
    }
}

impl ModuleDefinition {
    /// Every binding in scope: the module's own in the order of
    /// registration, then the imported ones.
    pub open(crate) spec fn scope(&self) -> Seq<ComponentDescriptor> {
        self.scope@
    }

    /// How many bindings of the scope are the module's own.
    pub open(crate) spec fn local_count(&self) -> int {
        self.local_count as int
    }

    /// The bounds of the generic parameters.
    pub open(crate) spec fn params(&self) -> Seq<BoundSet> {
        self.params@
    }

    /// The module's own bindings.
    pub open spec fn locals(&self) -> Seq<ComponentDescriptor> {
        self.scope().take(self.local_count())
    }

    /// What `declare` establishes.
    pub open(crate) spec fn wf(&self) -> bool {
        &&& self.local_count <= self.scope@.len()
        &&& singletons_distinct(self.locals())
        &&& bounds_suffice(self.locals(), self.params@)
        &&& links_match(self.scope@, self.links@)
    }

    /// Declares a module with the bindings of `registry`, the bindings of
    /// `imports` behind them, and the generic parameters `params`. Fails on
    /// the first dependency slot that names an unbound interface, and
    /// otherwise on the first slot of the module's own that uses a generic
    /// parameter beyond its bounds.
    #[verifier::loop_isolation(false)]
    pub fn declare(registry: Registry, imports: Vec<ModuleDefinition>, params: Vec<BoundSet>) -> (r:
        Result<ModuleDefinition, EngineError>)
        requires
            registry.wf(),
        ensures
            match r {
                Ok(definition) => {
                    &&& definition.wf()
                    &&& definition.scope() == registry.entries() + imported_scope(imports@)
                    &&& definition.local_count() == registry.entries().len()
                    &&& definition.params() == params@
                    &&& all_bound(definition.scope())
                    &&& bounds_suffice(registry.entries(), params@)
                },
                Err(e) => declare_error(
                    registry.entries() + imported_scope(imports@),
                    registry.entries().len() as int,
                    params@,
                    e,
                ),
            },
    {
        let ghost all_imports = imports@;
        let ghost locals = registry.entries();
        let mut imports = imports;
        let mut rest: Vec<ComponentDescriptor> = Vec::new();
        while imports.len() > 0
            invariant
                imported_scope(all_imports) == imported_scope(imports@) + rest@,
            decreases imports@.len(),
        {
            let ghost remaining = imports@;
            let import = imports.pop().unwrap();
            let ModuleDefinition { scope: mut imported, local_count: _, params: _, links: _ } =
                import;
            proof {
                assert(imported_scope(remaining) == imported_scope(imports@) + imported@);
                assert(imported_scope(all_imports) =~= imported_scope(imports@) + (imported@
                    + rest@));
            }
            imported.append(&mut rest);
            rest = imported;
        }
        let Registry { bindings: mut scope } = registry;
        let local_count = scope.len();
        scope.append(&mut rest);
        assert(scope@ =~= locals + imported_scope(all_imports));
        assert(scope@.take(local_count as int) =~= locals);

        let mut links: Vec<Vec<usize>> = Vec::new();
        let mut i: usize = 0;
        while i < scope.len()
            invariant
                i <= scope@.len(),
                links@.len() == i,
                forall|a: int|
                    0 <= a < i ==> (#[trigger] links@[a])@.len() == scope@[a].dependencies@.len(),
                forall|a: int, b: int|
                    0 <= a < i && 0 <= b < scope@[a].dependencies@.len() ==> is_binding(
                        scope@,
                        scope@[a].dependencies@[b].interface,
                        (#[trigger] links@[a]@[b]) as int,
                    ),
                forall|a: int, b: int| a < i ==> !#[trigger] unbound_at(scope@, a, b),
            decreases scope@.len() - i,
        {
            let mut row: Vec<usize> = Vec::new();
            let mut k: usize = 0;
            while k < scope[i].dependencies.len()
                invariant
                    i < scope@.len(),
                    k <= scope@[i as int].dependencies@.len(),
                    row@.len() == k,
                    forall|b: int|
                        0 <= b < k ==> is_binding(
                            scope@,
                            scope@[i as int].dependencies@[b].interface,
                            (#[trigger] row@[b]) as int,
                        ),
                    forall|a: int, b: int| a < i ==> !#[trigger] unbound_at(scope@, a, b),
                    forall|b: int| b < k ==> !#[trigger] unbound_at(scope@, i as int, b),
                decreases scope@[i as int].dependencies@.len() - k,
            {
                let slot = scope[i].dependencies[k];
                match find_binding(&scope, slot.interface) {
                    Some(target) => {
                        row.push(target);
                    },
                    None => {
                        assert(unbound_at(scope@, i as int, k as int));
                        return Err(
                            EngineError::UnboundDependency {
                                component: scope[i].component,
                                slot: slot.field,
                                interface: slot.interface,
                            },
                        );
                    },
                }
                k = k + 1;
            }
            links.push(row);
            i = i + 1;
        }
        assert(all_bound(scope@));

        let mut j: usize = 0;
        while j < local_count
            invariant
                j <= local_count <= scope@.len(),
                all_bound(scope@),
                forall|a: int| 0 <= a < j ==> descriptor_allowed(params@, #[trigger] scope@[a]),
            decreases local_count - j,
        {
            match check_bounds(&params, &scope[j]) {
                Some(parameter) => {
                    return Err(EngineError::UnsatisfiedGenericBound { parameter });
                },
                None => {},
            }
            j = j + 1;
        }
        Ok(ModuleDefinition { scope, local_count, params, links })
    }
}

/// A dependency slot together with the binding that will fill it.
#[derive(Clone, Copy, Debug, PartialEq, Eq)]
pub struct ResolvedSlot {
    pub field: u64,
    pub interface: u64,
    /// The generic parameter that the field's type is, if it is one.
    pub param: Option<usize>,
    /// The component that is bound to the interface.
    pub component: u64,
    /// Whether that component is shared or built for this slot alone.
    pub kind: Lifecycle,
}

/// `resolved` is the dependency slot `slot`, with the binding that `scope`
/// has for its interface.
pub open spec fn resolves_slot(
    scope: Seq<ComponentDescriptor>,
    slot: DependencySlot,
    resolved: ResolvedSlot,
) -> bool {
    let target = scope[binding_of(scope, slot.interface)];
    &&& resolved.field == slot.field
    &&& resolved.interface == slot.interface
    &&& resolved.param == slot.param
    &&& resolved.component == target.component
    &&& resolved.kind == target.kind
}

/// `rows` holds, for every descriptor of `scope` and every dependency slot
/// of it, the slot with its binding.
pub open spec fn resolves_scope(
    scope: Seq<ComponentDescriptor>,
    rows: Seq<Vec<ResolvedSlot>>,
) -> bool {
    &&& rows.len() == scope.len()
    &&& forall|i: int|
        0 <= i < scope.len() ==> (#[trigger] rows[i])@.len() == scope[i].dependencies@.len()
    &&& forall|i: int, k: int|
        0 <= i < scope.len() && 0 <= k < scope[i].dependencies@.len() ==> resolves_slot(
            scope,
            scope[i].dependencies@[k],
            #[trigger] rows[i]@[k],
        )
}

impl ModuleDefinition {
    /// How many bindings are in scope.
    pub fn len(&self) -> (n: usize)
        ensures
            n == self.scope().len(),
    {
        self.scope.len()
    }

    /// The binding at position `index` of the scope.
    pub fn descriptor(&self, index: usize) -> (d: &ComponentDescriptor)
        requires
            index < self.scope().len(),
        ensures
            *d == self.scope()[index as int],
    {
        &self.scope[index]
    }

    /// For every descriptor in scope, its dependency slots, each with the
    /// binding that will fill it.
    pub fn resolved_slots(&self) -> (rows: Vec<Vec<ResolvedSlot>>)
        requires
            self.wf(),
        ensures
            resolves_scope(self.scope(), rows@),
    {
        let mut rows: Vec<Vec<ResolvedSlot>> = Vec::new();
        let mut i: usize = 0;
        while i < self.scope.len()
            invariant
                self.wf(),
                i <= self.scope@.len(),
                rows@.len() == i,
                forall|a: int|
                    0 <= a < i ==> (#[trigger] rows@[a])@.len()
                        == self.scope@[a].dependencies@.len(),
                forall|a: int, b: int|
                    0 <= a < i && 0 <= b < self.scope@[a].dependencies@.len() ==> resolves_slot(
                        self.scope@,
                        self.scope@[a].dependencies@[b],
                        #[trigger] rows@[a]@[b],
                    ),
            decreases self.scope@.len() - i,
        {
            let mut row: Vec<ResolvedSlot> = Vec::new();
            let mut k: usize = 0;
            while k < self.scope[i].dependencies.len()
                invariant
                    self.wf(),
                    i < self.scope@.len(),
                    k <= self.scope@[i as int].dependencies@.len(),
                    row@.len() == k,
                    forall|b: int|
                        0 <= b < k ==> resolves_slot(
                            self.scope@,
                            self.scope@[i as int].dependencies@[b],
                            #[trigger] row@[b],
                        ),
                decreases self.scope@[i as int].dependencies@.len() - k,
            {
                let slot = self.scope[i].dependencies[k];
                let target = self.links[i][k];
                proof {
                    assert(is_binding(self.scope@, slot.interface, target as int));
                    crate::descriptor::lemma_bound_has_binding(self.scope@, slot.interface);
                    crate::descriptor::lemma_binding_unique(
                        self.scope@,
                        slot.interface,
                        target as int,
                        binding_of(self.scope@, slot.interface),
                    );
                }
                row.push(
                    ResolvedSlot {
                        field: slot.field,
                        interface: slot.interface,
                        param: slot.param,
                        component: self.scope[target].component,
                        kind: self.scope[target].kind,
                    },
                );
                k = k + 1;
            }
            rows.push(row);
            i = i + 1;
        }
        rows
    }
}

/// The component bound to interface `a` has a dependency slot that names
/// interface `b`.
pub open spec fn depends_on(scope: Seq<ComponentDescriptor>, a: u64, b: u64) -> bool {
    exists|i: int, k: int|
        is_binding(scope, a, i) && 0 <= k < scope[i].dependencies@.len() && (
        #[trigger] scope[i].dependencies@[k]).interface == b
}

/// The interface at position `p` of `path` depends on the next one.
pub open spec fn path_step(scope: Seq<ComponentDescriptor>, path: Seq<u64>, p: int) -> bool {
    depends_on(scope, path[p], path[p + 1])
}

/// Each interface of `path` but the last depends on the next one.
pub open spec fn is_dependency_path(scope: Seq<ComponentDescriptor>, path: Seq<u64>) -> bool {
    &&& path.len() > 0
    &&& forall|p: int| 0 <= p < path.len() - 1 ==> #[trigger] path_step(scope, path, p)
}

/// The component bound to `a` cannot be built without the one bound to
/// `b`: they are the same, or a chain of dependencies leads from `a` to `b`.
pub open spec fn needs(scope: Seq<ComponentDescriptor>, a: u64, b: u64) -> bool {
    exists|path: Seq<u64>|
        #[trigger] is_dependency_path(scope, path) && path[0] == a && path.last() == b
}

/// Every interface needs itself.
pub proof fn lemma_needs_itself(scope: Seq<ComponentDescriptor>, a: u64)
    ensures
        needs(scope, a, a),
{
    let path = seq![a];
    assert(is_dependency_path(scope, path));
    assert(path[0] == a && path.last() == a);
}

/// What a dependency needs, the dependent needs too.
pub proof fn lemma_needs_through(scope: Seq<ComponentDescriptor>, a: u64, b: u64, c: u64)
    requires
        depends_on(scope, a, b),
        needs(scope, b, c),
    ensures
        needs(scope, a, c),
{
    let tail = choose|path: Seq<u64>|
        #[trigger] is_dependency_path(scope, path) && path[0] == b && path.last() == c;
    let path = seq![a] + tail;
    assert forall|p: int| 0 <= p < path.len() - 1 implies #[trigger] path_step(
        scope,
        path,
        p,
    ) by {
        if p > 0 {
            assert(path_step(scope, tail, p - 1));
        }
    }
    assert(is_dependency_path(scope, path));
    assert(path[0] == a && path.last() == c);
}

/// The interface at position `p` of `c` depends on the one that follows it.
pub open spec fn dependency_step(scope: Seq<ComponentDescriptor>, c: Seq<u64>, p: int) -> bool {
    depends_on(scope, c[p], c[successor(c.len(), p)])
}

/// Each interface of `c` depends on the next, and the last on the first.
pub open spec fn is_dependency_cycle(scope: Seq<ComponentDescriptor>, c: Seq<u64>) -> bool {
    &&& c.len() > 0
    &&& forall|p: int| 0 <= p < c.len() ==> #[trigger] dependency_step(scope, c, p)
}

/// The dependency relation of `scope` has no cycle.
pub open spec fn dependencies_acyclic(scope: Seq<ComponentDescriptor>) -> bool {
    forall|c: Seq<u64>| !#[trigger] is_dependency_cycle(scope, c)
}

pub proof fn lemma_links_closed(scope: Seq<ComponentDescriptor>, links: Seq<Vec<usize>>)
    requires
        links_match(scope, links),
    ensures
        closed_graph(links),
{
    assert forall|i: int, k: int| 0 <= i < links.len() && 0 <= k < links[i]@.len() implies (
    #[trigger] links[i]@[k]) < links.len() by {
        assert(is_binding(scope, scope[i].dependencies@[k].interface, links[i]@[k] as int));
    }
}

/// The position before `p` on a closed walk of length `len`.
spec fn predecessor(len: nat, p: int) -> int {
    if p == 0 {
        len - 1
    } else {
        p - 1
    }
}

/// A cycle among the linked bindings is a cycle among their interfaces.
proof fn lemma_cycle_names(
    scope: Seq<ComponentDescriptor>,
    links: Seq<Vec<usize>>,
    c: Seq<usize>,
    names: Seq<u64>,
)
    requires
        links_match(scope, links),
        is_cycle(links, c),
        simple_within(c, scope.len()),
        names.len() == c.len(),
        forall|p: int| 0 <= p < c.len() ==> names[p] == scope[c[p] as int].interface,
    ensures
        is_dependency_cycle(scope, names),
        names.no_duplicates(),
{
    assert forall|p: int| 0 <= p < c.len() implies is_binding(scope, names[p], c[p] as int) by {
        let q = predecessor(c.len(), p);
        assert(cycle_step(links, c, q));
        let k = choose|k: int|
            0 <= k < links[c[q] as int]@.len() && links[c[q] as int]@[k] == c[p];
        assert(is_binding(
            scope,
            scope[c[q] as int].dependencies@[k].interface,
            links[c[q] as int]@[k] as int,
        ));
    }
    assert forall|p: int| 0 <= p < names.len() implies #[trigger] dependency_step(
        scope,
        names,
        p,
    ) by {
        let next = successor(c.len(), p);
        assert(cycle_step(links, c, p));
        let k = choose|k: int|
            0 <= k < links[c[p] as int]@.len() && links[c[p] as int]@[k] == c[next];
        let slot = scope[c[p] as int].dependencies@[k];
        assert(is_binding(scope, slot.interface, links[c[p] as int]@[k] as int));
        assert(is_binding(scope, names[p], c[p] as int));
        assert(slot.interface == names[next]);
    }
    assert forall|p: int, q: int| 0 <= p < q < names.len() implies names[p] != names[q] by {
        if names[p] == names[q] {
            crate::descriptor::lemma_binding_unique(scope, names[p], c[p] as int, c[q] as int);
        }
    }
}

/// A cycle among the interfaces is a cycle among their linked bindings.
pub proof fn lemma_cycle_indices(
    scope: Seq<ComponentDescriptor>,
    links: Seq<Vec<usize>>,
    names: Seq<u64>,
)
    requires
        links_match(scope, links),
        is_dependency_cycle(scope, names),
    ensures
        !acyclic(links),
{
    let c = Seq::new(
        names.len(),
        |p: int| choose|t: usize| is_binding(scope, names[p], t as int),
    );
    assert forall|p: int| 0 <= p < names.len() implies is_binding(scope, names[p], c[p] as int) by {
        let q = predecessor(names.len(), p);
        assert(dependency_step(scope, names, q));
        let (i, k) = choose|i: int, k: int|
            is_binding(scope, names[q], i) && 0 <= k < scope[i].dependencies@.len() && (
            #[trigger] scope[i].dependencies@[k]).interface == names[p];
        let target = links[i]@[k];
        assert(is_binding(scope, names[p], target as int));
    }
    assert forall|p: int| 0 <= p < c.len() implies #[trigger] cycle_step(links, c, p) by {
        let next = successor(names.len(), p);
        assert(dependency_step(scope, names, p));
        let (i, k) = choose|i: int, k: int|
            is_binding(scope, names[p], i) && 0 <= k < scope[i].dependencies@.len() && (
            #[trigger] scope[i].dependencies@[k]).interface == names[next];
        crate::descriptor::lemma_binding_unique(scope, names[p], i, c[p] as int);
        let target = links[i]@[k];
        assert(is_binding(scope, names[next], target as int));
        crate::descriptor::lemma_binding_unique(scope, names[next], target as int, c[next] as int);
        assert(links[c[p] as int]@[k] == c[next]);
    }
    assert(is_cycle(links, c));
}

/// `order` lists every descriptor of `scope` once, each after the bindings
/// of all the interfaces that its dependency slots name.
pub open spec fn dependency_order(scope: Seq<ComponentDescriptor>, order: Seq<usize>) -> bool {
    &&& order.len() == scope.len()
    &&& forall|p: int| 0 <= p < order.len() ==> (#[trigger] order[p]) < scope.len()
    &&& forall|p: int, q: int| 0 <= p < q < order.len() ==> order[p] != order[q]
    &&& forall|p: int, q: int, k: int|
        0 <= p < order.len() && 0 <= q < order.len() && 0 <= k < scope[order[q] as int]
            .dependencies@.len()
            && is_binding(
            scope,
            (#[trigger] scope[order[q] as int].dependencies@[k]).interface,
            (#[trigger] order[p]) as int,
        ) ==> p < q
}

/// The bound interfaces in the order `order`: the interface of each
/// descriptor that is the binding of its interface.
pub open spec fn scheduled(scope: Seq<ComponentDescriptor>, order: Seq<usize>) -> Seq<u64>
    decreases order.len(),
{
    if order.len() == 0 {
        Seq::empty()
    } else {
        let before = scheduled(scope, order.drop_last());
        let i = order.last() as int;
        if is_binding(scope, scope[i].interface, i) {
            before.push(scope[i].interface)
        } else {
            before
        }
    }
}

/// An order of the descriptors in which ranks rise along the list is a
/// dependency order.
proof fn lemma_listing_is_dependency_order(
    scope: Seq<ComponentDescriptor>,
    links: Seq<Vec<usize>>,
    order: Seq<usize>,
    rank: Seq<usize>,
)
    requires
        links_match(scope, links),
        is_ranking(links, rank),
        is_listing(order, rank),
    ensures
        dependency_order(scope, order),
{
    assert forall|p: int, q: int| 0 <= p < q < order.len() implies order[p] != order[q] by {
        assert(rank[order[p] as int] == p);
        assert(rank[order[q] as int] == q);
    }
    assert forall|p: int, q: int, k: int|
        0 <= p < order.len() && 0 <= q < order.len() && 0 <= k < scope[order[q] as int]
            .dependencies@.len()
            && is_binding(
            scope,
            (#[trigger] scope[order[q] as int].dependencies@[k]).interface,
            (#[trigger] order[p]) as int,
        ) implies p < q by {
        let i = order[q] as int;
        let target = links[i]@[k];
        crate::descriptor::lemma_binding_unique(
            scope,
            scope[i].dependencies@[k].interface,
            target as int,
            order[p] as int,
        );
        assert(rank[target as int] < rank[i]);
        assert(rank[order[p] as int] == p);
        assert(rank[order[q] as int] == q);
    }
}

/// Every binding has its place among the scheduled interfaces.
pub proof fn lemma_scheduled_holds(scope: Seq<ComponentDescriptor>, order: Seq<usize>, p: int)
    requires
        0 <= p < order.len(),
        is_binding(scope, scope[order[p] as int].interface, order[p] as int),
    ensures
        scheduled(scope, order).contains(scope[order[p] as int].interface),
    decreases order.len(),
{
    let before = scheduled(scope, order.drop_last());
    if p == order.len() - 1 {
        assert(before.push(scope[order[p] as int].interface).last()
            == scope[order[p] as int].interface);
    } else {
        lemma_scheduled_holds(scope, order.drop_last(), p);
        let at = choose|at: int|
            0 <= at < before.len() && before[at] == scope[order[p] as int].interface;
        assert(scheduled(scope, order)[at] == scope[order[p] as int].interface);
    }
}

/// A module whose dependency relation was found to have no cycle, with an
/// order in which its components can be built.
pub struct ValidatedModule {
    pub(crate) definition: ModuleDefinition,
    pub(crate) order: Vec<usize>,
    pub(crate) rank: Vec<usize>,
}

impl ValidatedModule {
    /// The module that was validated.
    pub open(crate) spec fn definition(&self) -> ModuleDefinition {
        self.definition
    }

    /// The descriptors of the scope, by position, in an order in which
    /// they can be built.
    pub open(crate) spec fn build_order(&self) -> Seq<usize> {
        self.order@
    }

    /// What `validate` establishes.
    pub open(crate) spec fn wf(&self) -> bool {
        &&& self.definition.wf()
        &&& is_ranking(self.definition.links@, self.rank@)
        &&& is_listing(self.order@, self.rank@)
    }

    /// The descriptors of the scope, by position, each after everything it
    /// depends on.
    pub fn order(&self) -> (order: &Vec<usize>)
        requires
            self.wf(),
        ensures
            order@ == self.build_order(),
            dependency_order(self.definition().scope(), order@),
    {
        proof {
            lemma_listing_is_dependency_order(
                self.definition.scope@,
                self.definition.links@,
                self.order@,
                self.rank@,
            );
        }
        &self.order
    }
}

/// Checks the dependency relation of a module for cycles. A module without
/// one is handed back validated; for another, the error lists the
/// interfaces on one cycle, each once, each depending on the next.
pub fn validate(definition: ModuleDefinition) -> (r: Result<ValidatedModule, EngineError>)
    requires
        definition.wf(),
    ensures
        match r {
            Ok(module) => {
                &&& module.wf()
                &&& module.definition() == definition
                &&& dependency_order(definition.scope(), module.build_order())
            },
            Err(e) => {
                &&& e matches EngineError::CyclicDependency { cycle }
                &&& is_dependency_cycle(definition.scope(), cycle@)
                &&& cycle@.no_duplicates()
            },
        },
        r is Ok <==> dependencies_acyclic(definition.scope()),
{
    proof {
        lemma_links_closed(definition.scope@, definition.links@);
    }
    match schedule(&definition.links) {
        Ok(found) => {
            proof {
                assert forall|c: Seq<u64>| !#[trigger] is_dependency_cycle(
                    definition.scope@,
                    c,
                ) by {
                    if is_dependency_cycle(definition.scope@, c) {
                        lemma_cycle_indices(definition.scope@, definition.links@, c);
                    }
                }
            }
            let Schedule { order, rank } = found;
            proof {
                lemma_listing_is_dependency_order(
                    definition.scope@,
                    definition.links@,
                    order@,
                    rank@,
                );
            }
            Ok(ValidatedModule { definition, order, rank })
        },
        Err(found) => {
            let mut cycle: Vec<u64> = Vec::new();
            let mut p: usize = 0;
            while p < found.len()
                invariant
                    p <= found@.len(),
                    cycle@.len() == p,
                    simple_within(found@, definition.scope@.len()),
                    forall|q: int|
                        0 <= q < p ==> cycle@[q] == definition.scope@[found@[q] as int].interface,
                decreases found@.len() - p,
            {
                cycle.push(definition.scope[found[p]].interface);
                p = p + 1;
            }
            proof {
                lemma_cycle_names(definition.scope@, definition.links@, found@, cycle@);
            }
            Err(EngineError::CyclicDependency { cycle })
        },
    }
}

} // verus!
