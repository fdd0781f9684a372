//! Descriptors: what a module knows of each component it binds.

use vstd::prelude::*;

verus! {

/// How long an instance of a component lives.
#[derive(Clone, Copy, Debug, PartialEq, Eq, Structural)]
pub enum Lifecycle {
    /// Built at most once per module instance, then shared.
    Singleton,
    /// Built afresh on every resolution.
    Provider,
}

/// A value for a configuration slot.
#[derive(Clone, Copy, Debug, PartialEq, Eq)]
pub enum ConfigValue {
    Int(i64),
    Flag(bool),
    /// A resource that the caller owns and shares, known by its token.
    Resource(u64),
    /// The default value of the slot's type.
    TypeDefault,
    /// The value that the declaration of the component computes.
    Computed,
}

/// Where the value of a configuration slot comes from when the caller
/// supplies none.
#[derive(Clone, Copy, Debug, PartialEq, Eq)]
pub enum DefaultRule {
    /// There is no default: the caller must supply the value.
    Required,
    /// This value.
    Value(ConfigValue),
    /// The default value of the slot's type.
    TypeDefault,
    /// The value that the declaration of the component computes.
    Computed,
}

/// A field of a component that holds another component, named by interface.
#[derive(Clone, Copy, Debug, PartialEq, Eq)]
pub struct DependencySlot {
    pub field: u64,
    pub interface: u64,
    /// The generic parameter that the field's type is, if it is one.
    pub param: Option<usize>,
}

/// A field of a component that holds plain configuration.
#[derive(Clone, Copy, Debug, PartialEq, Eq)]
pub struct ConfigSlot {
    pub field: u64,
    pub default: DefaultRule,
    /// The generic parameter that the field's type is, if it is one.
    pub param: Option<usize>,
}

/// One implementation, bound to one interface.
#[derive(Debug)]
pub struct ComponentDescriptor {
    pub component: u64,
    pub interface: u64,
    pub kind: Lifecycle,
    pub dependencies: Vec<DependencySlot>,
    pub configuration: Vec<ConfigSlot>,
}

/// What a generic parameter of a module promises of every type put in its
/// place.
#[derive(Debug)]
pub struct BoundSet {
    /// The interfaces that the type implements.
    pub implements: Vec<u64>,
    pub default_constructible: bool,
    /// Safe to share across resolution boundaries.
    pub shareable: bool,
}

/// Whether `ids` holds `id`.
pub fn holds_id(ids: &Vec<u64>, id: u64) -> (found: bool)
    ensures
        found == ids@.contains(id),
{
    let mut j: usize = 0;
    while j < ids.len()
        invariant
            j <= ids@.len(),
            forall|i: int| 0 <= i < j ==> ids@[i] != id,
        decreases ids@.len() - j,
    {
        if ids[j] == id {
            return true;
        }
        j = j + 1;
    }
    false
}

/// Some descriptor of `scope` is bound to `interface`.
pub open spec fn bound(scope: Seq<ComponentDescriptor>, interface: u64) -> bool {
    exists|i: int| 0 <= i < scope.len() && (#[trigger] scope[i]).interface == interface
}

/// `scope[i]` is the binding of `interface`: the first descriptor bound to it.
pub open spec fn is_binding(scope: Seq<ComponentDescriptor>, interface: u64, i: int) -> bool {
    &&& 0 <= i < scope.len()
    &&& scope[i].interface == interface
    &&& forall|j: int| 0 <= j < i ==> (#[trigger] scope[j]).interface != interface
}

/// The position of the binding of `interface` in `scope`, where it has one.
pub open spec fn binding_of(scope: Seq<ComponentDescriptor>, interface: u64) -> int {
    choose|i: int| is_binding(scope, interface, i)
}

/// The binding of `interface` in `scope`, if it has one.
pub fn find_binding(scope: &Vec<ComponentDescriptor>, interface: u64) -> (found: Option<usize>)
    ensures
        match found {
            Some(i) => is_binding(scope@, interface, i as int) && i == binding_of(
                scope@,
                interface,
            ),
            None => !bound(scope@, interface),
        },
{
    let mut i: usize = 0;
    while i < scope.len()
        invariant
            i <= scope@.len(),
            forall|j: int| 0 <= j < i ==> (#[trigger] scope@[j]).interface != interface,
        decreases scope@.len() - i,
    {
        if scope[i].interface == interface {
            proof {
                lemma_binding_unique(
                    scope@,
                    interface,
                    i as int,
                    binding_of(scope@, interface),
                );
            }
            return Some(i);
        }
        i = i + 1;
    }
    None
}

/// A bound interface has a binding.
pub proof fn lemma_bound_has_binding(scope: Seq<ComponentDescriptor>, interface: u64)
    requires
        bound(scope, interface),
    ensures
        is_binding(scope, interface, binding_of(scope, interface)),
{
    let i = choose|i: int| 0 <= i < scope.len() && (#[trigger] scope[i]).interface == interface;
    lemma_first_binding(scope, interface, i);
}

proof fn lemma_first_binding(scope: Seq<ComponentDescriptor>, interface: u64, i: int)
    requires
        0 <= i < scope.len(),
        scope[i].interface == interface,
    ensures
        exists|j: int| is_binding(scope, interface, j),
    decreases i,
{
    if exists|j: int| 0 <= j < i && (#[trigger] scope[j]).interface == interface {
        let j = choose|j: int| 0 <= j < i && (#[trigger] scope[j]).interface == interface;
        lemma_first_binding(scope, interface, j);
    } else {
        assert(is_binding(scope, interface, i));
    }
}

/// An interface has at most one binding.
pub proof fn lemma_binding_unique(scope: Seq<ComponentDescriptor>, interface: u64, i: int, j: int)
    requires
        is_binding(scope, interface, i),
        is_binding(scope, interface, j),
    ensures
        i == j,
{
    if i < j {
        assert(scope[i].interface != interface);
    } else if j < i {
        assert(scope[j].interface != interface);
    }
}

} // verus!
