//! Declarations: a component as its author writes it down, by name and
//! with attributes, and the descriptor that the engine makes of it.

use vstd::prelude::*;
use crate::descriptor::{
    BoundSet, ComponentDescriptor, ConfigSlot, ConfigValue, DefaultRule, DependencySlot, Lifecycle,
};
use crate::names::{id_of, name_id};

verus! {

/// What stands behind the `=` of a setting.
#[derive(Debug)]
pub enum SettingValue {
    /// Nothing: the setting is a bare key.
    Absent,
    Int(i64),
    Flag(bool),
    /// Anything else, known by the names that occur in it, in their order.
    Names { names: Vec<Vec<u8>> },
}

/// One `key` or `key = value` of an attribute.
#[derive(Debug)]
pub struct Setting {
    pub key: Vec<u8>,
    pub value: SettingValue,
}

/// One field of a declared component.
#[derive(Debug)]
pub struct FieldDeclaration {
    pub name: Vec<u8>,
    pub settings: Vec<Setting>,
    /// The names that occur in the type of the field, in their order.
    pub type_names: Vec<Vec<u8>>,
}

/// One generic parameter of a declared component.
#[derive(Debug)]
pub struct ParameterDeclaration {
    pub name: Vec<u8>,
    /// The names of the traits that bound the parameter.
    pub bounds: Vec<Vec<u8>>,
}

/// A component as declared.
#[derive(Debug)]
pub struct ComponentDeclaration {
    pub name: Vec<u8>,
    pub settings: Vec<Setting>,
    pub kind: Lifecycle,
    pub parameters: Vec<ParameterDeclaration>,
    pub fields: Vec<FieldDeclaration>,
}

/// Why a declaration makes no descriptor.
#[derive(Debug, PartialEq, Eq)]
pub enum DeclarationError {
    /// No setting names the interface that the component is bound to.
    MissingInterface,
    /// The field with this identity is injected, but its type names nothing.
    UnnamedDependency { field: u64 },
}

/// The name `Default`: a parameter bounded by it is default-constructible.
pub open spec fn default_name() -> Seq<u8> {
    seq![0x44u8, 0x65u8, 0x66u8, 0x61u8, 0x75u8, 0x6cu8, 0x74u8]
}

/// The name `Interface`: a parameter bounded by it is safe to share.
pub open spec fn interface_name() -> Seq<u8> {
    seq![0x49u8, 0x6eu8, 0x74u8, 0x65u8, 0x72u8, 0x66u8, 0x61u8, 0x63u8, 0x65u8]
}

/// The name `unreachable`: a default that begins with it is none.
pub open spec fn unreachable_name() -> Seq<u8> {
    seq![
        0x75u8,
        0x6eu8,
        0x72u8,
        0x65u8,
        0x61u8,
        0x63u8,
        0x68u8,
        0x61u8,
        0x62u8,
        0x6cu8,
        0x65u8,
    ]
}

/// The key `interface`: its setting names the interface of the component.
pub open spec fn interface_key() -> Seq<u8> {
    seq![0x69u8, 0x6eu8, 0x74u8, 0x65u8, 0x72u8, 0x66u8, 0x61u8, 0x63u8, 0x65u8]
}

/// The key `inject`: a field with this setting holds another component.
pub open spec fn inject_key() -> Seq<u8> {
    seq![0x69u8, 0x6eu8, 0x6au8, 0x65u8, 0x63u8, 0x74u8]
}

/// The key `default`: its setting gives the default of a field.
pub open spec fn default_key() -> Seq<u8> {
    seq![0x64u8, 0x65u8, 0x66u8, 0x61u8, 0x75u8, 0x6cu8, 0x74u8]
}

/// The value of the first setting of `settings` with the key `key`.
pub open spec fn first_setting(settings: Seq<Setting>, key: Seq<u8>) -> Option<SettingValue>
    decreases settings.len(),
{
    if settings.len() == 0 {
        None
    } else if settings[0].key@ == key {
        Some(settings[0].value)
    } else {
        first_setting(settings.drop_first(), key)
    }
}

/// The rule that the settings of a field give for its default.
pub open spec fn default_of(settings: Seq<Setting>) -> DefaultRule {
    match first_setting(settings, default_key()) {
        None => DefaultRule::TypeDefault,
        Some(SettingValue::Absent) => DefaultRule::TypeDefault,
        Some(SettingValue::Int(n)) => DefaultRule::Value(ConfigValue::Int(n)),
        Some(SettingValue::Flag(b)) => DefaultRule::Value(ConfigValue::Flag(b)),
        Some(SettingValue::Names { names }) => if names@.len() > 0 && names@[0]@
            == unreachable_name() {
            DefaultRule::Required
        } else {
            DefaultRule::Computed
        },
    }
}

/// The settings mark the field as one that holds another component.
pub open spec fn is_injected(settings: Seq<Setting>) -> bool {
    first_setting(settings, inject_key()) is Some
}

/// The identity of the interface that the settings of a component name:
/// the last name in the value of the setting `interface`.
pub open spec fn interface_of(settings: Seq<Setting>) -> Option<u64> {
    match first_setting(settings, interface_key()) {
        Some(SettingValue::Names { names }) => if names@.len() > 0 {
            Some(id_of(names@.last()@))
        } else {
            None
        },
        _ => None,
    }
}

/// `name` is among `names`.
pub open spec fn mentions(names: Seq<Vec<u8>>, name: Seq<u8>) -> bool {
    exists|k: int| 0 <= k < names.len() && (#[trigger] names[k])@ == name
}

/// The first parameter, from position `from` on, whose name is among
/// `type_names`.
pub open spec fn param_of(
    parameters: Seq<ParameterDeclaration>,
    type_names: Seq<Vec<u8>>,
    from: int,
) -> Option<usize>
    decreases parameters.len() - from,
{
    if from < 0 || from >= parameters.len() {
        None
    } else if mentions(type_names, parameters[from].name@) {
        Some(from as usize)
    } else {
        param_of(parameters, type_names, from + 1)
    }
}

/// The field is injected, but its type names nothing.
pub open spec fn unnamed(field: FieldDeclaration) -> bool {
    is_injected(field.settings@) && field.type_names@.len() == 0
}

/// The dependency slot that `field` declares, if it declares one: an
/// injected field depends on the interface that its type names last.
pub open spec fn dependency_of(
    field: FieldDeclaration,
    parameters: Seq<ParameterDeclaration>,
) -> Option<DependencySlot> {
    if is_injected(field.settings@) && field.type_names@.len() > 0 {
        Some(
            DependencySlot {
                field: id_of(field.name@),
                interface: id_of(field.type_names@.last()@),
                param: param_of(parameters, field.type_names@, 0),
            },
        )
    } else {
        None
    }
}

/// The configuration slot that `field` declares, if it declares one.
pub open spec fn config_of(
    field: FieldDeclaration,
    parameters: Seq<ParameterDeclaration>,
) -> Option<ConfigSlot> {
    if is_injected(field.settings@) {
        None
    } else {
        Some(
            ConfigSlot {
                field: id_of(field.name@),
                default: default_of(field.settings@),
                param: param_of(parameters, field.type_names@, 0),
            },
        )
    }
}

/// The dependency slots that `fields` declare, in the order of the fields.
pub open spec fn declared_dependencies(
    fields: Seq<FieldDeclaration>,
    parameters: Seq<ParameterDeclaration>,
) -> Seq<DependencySlot>
    decreases fields.len(),
{
    if fields.len() == 0 {
        Seq::empty()
    } else {
        let before = declared_dependencies(fields.drop_last(), parameters);
        match dependency_of(fields.last(), parameters) {
            Some(slot) => before.push(slot),
            None => before,
        }
    }
}

/// The configuration slots that `fields` declare, in the order of the fields.
pub open spec fn declared_configuration(
    fields: Seq<FieldDeclaration>,
    parameters: Seq<ParameterDeclaration>,
) -> Seq<ConfigSlot>
    decreases fields.len(),
{
    if fields.len() == 0 {
        Seq::empty()
    } else {
        let before = declared_configuration(fields.drop_last(), parameters);
        match config_of(fields.last(), parameters) {
            Some(slot) => before.push(slot),
            None => before,
        }
    }
}

/// The bound named `name` says that the type implements an interface.
pub open spec fn names_interface(name: Seq<u8>) -> bool {
    name != default_name() && name != interface_name()
}

/// The interfaces that the bounds named `bounds` say a type implements, in
/// their order.
pub open spec fn declared_interfaces(bounds: Seq<Vec<u8>>) -> Seq<u64>
    decreases bounds.len(),
{
    if bounds.len() == 0 {
        Seq::empty()
    } else {
        let before = declared_interfaces(bounds.drop_last());
        if names_interface(bounds.last()@) {
            before.push(id_of(bounds.last()@))
        } else {
            before
        }
    }
}

/// Whether `name` is, byte for byte, the name `known`.
pub fn is_name(name: &[u8], known: &[u8]) -> (same: bool)
    ensures
        same == (name@ == known@),
{
    if name.len() != known.len() {
        return false;
    }
    let mut n: usize = 0;
    while n < name.len()
        invariant
            n <= name@.len(),
            name@.len() == known@.len(),
            forall|j: int| 0 <= j < n ==> name@[j] == known@[j],
        decreases name@.len() - n,
    {
        if name[n] != known[n] {
            return false;
        }
        n = n + 1;
    }
    assert(name@ =~= known@);
    true
}

/// Whether `name` is the name `Default`.
pub fn is_default_name(name: &[u8]) -> (same: bool)
    ensures
        same == (name@ == default_name()),
{
    let known: [u8; 7] = [0x44, 0x65, 0x66, 0x61, 0x75, 0x6c, 0x74];
    assert(known@ =~= default_name());
    is_name(name, known.as_slice())
}

/// Whether `name` is the name `Interface`.
pub fn is_interface_name(name: &[u8]) -> (same: bool)
    ensures
        same == (name@ == interface_name()),
{
    let known: [u8; 9] = [0x49, 0x6e, 0x74, 0x65, 0x72, 0x66, 0x61, 0x63, 0x65];
    assert(known@ =~= interface_name());
    is_name(name, known.as_slice())
}

/// Whether `name` is the name `unreachable`.
pub fn is_unreachable_name(name: &[u8]) -> (same: bool)
    ensures
        same == (name@ == unreachable_name()),
{
    let known: [u8; 11] = [0x75, 0x6e, 0x72, 0x65, 0x61, 0x63, 0x68, 0x61, 0x62, 0x6c, 0x65];
    assert(known@ =~= unreachable_name());
    is_name(name, known.as_slice())
}

/// The value of the first setting with the key `key`, if there is one.
pub fn find_setting<'a>(settings: &'a Vec<Setting>, key: &[u8]) -> (found: Option<
    &'a SettingValue,
>)
    ensures
        match found {
            Some(value) => first_setting(settings@, key@) == Some(*value),
            None => first_setting(settings@, key@) is None,
        },
{
    let mut n: usize = 0;
    assert(settings@.skip(0) =~= settings@);
    while n < settings.len()
        invariant
            n <= settings@.len(),
            first_setting(settings@, key@) == first_setting(settings@.skip(n as int), key@),
        decreases settings@.len() - n,
    {
        assert(settings@.skip(n as int).drop_first() =~= settings@.skip(n + 1));
        if is_name(settings[n].key.as_slice(), key) {
            return Some(&settings[n].value);
        }
        n = n + 1;
    }
    None
}

/// The rule that the settings of a field give for its default.
pub fn default_rule(settings: &Vec<Setting>) -> (rule: DefaultRule)
    ensures
        rule == default_of(settings@),
{
    let key: [u8; 7] = [0x64, 0x65, 0x66, 0x61, 0x75, 0x6c, 0x74];
    assert(key@ =~= default_key());
    match find_setting(settings, key.as_slice()) {
        None => DefaultRule::TypeDefault,
        Some(value) => match value {
            SettingValue::Absent => DefaultRule::TypeDefault,
            SettingValue::Int(n) => DefaultRule::Value(ConfigValue::Int(*n)),
            SettingValue::Flag(b) => DefaultRule::Value(ConfigValue::Flag(*b)),
            SettingValue::Names { names } => {
                if names.len() > 0 && is_unreachable_name(names[0].as_slice()) {
                    DefaultRule::Required
                } else {
                    DefaultRule::Computed
                }
            },
        },
    }
}

/// Whether the settings mark the field as one that holds another component.
pub fn injected(settings: &Vec<Setting>) -> (marked: bool)
    ensures
        marked == is_injected(settings@),
{
    let key: [u8; 6] = [0x69, 0x6e, 0x6a, 0x65, 0x63, 0x74];
    assert(key@ =~= inject_key());
    find_setting(settings, key.as_slice()).is_some()
}

/// The identity of the interface that the settings of a component name.
pub fn declared_interface(settings: &Vec<Setting>) -> (interface: Option<u64>)
    ensures
        interface == interface_of(settings@),
{
    let key: [u8; 9] = [0x69, 0x6e, 0x74, 0x65, 0x72, 0x66, 0x61, 0x63, 0x65];
    assert(key@ =~= interface_key());
    match find_setting(settings, key.as_slice()) {
        Some(SettingValue::Names { names }) => {
            if names.len() > 0 {
                Some(name_id(names[names.len() - 1].as_slice()))
            } else {
                None
            }
        },
        _ => None,
    }
}

/// Whether `name` is among `names`.
pub fn is_mentioned(names: &Vec<Vec<u8>>, name: &[u8]) -> (found: bool)
    ensures
        found == mentions(names@, name@),
{
    let mut k: usize = 0;
    while k < names.len()
        invariant
            k <= names@.len(),
            forall|j: int| 0 <= j < k ==> (#[trigger] names@[j])@ != name@,
        decreases names@.len() - k,
    {
        if is_name(names[k].as_slice(), name) {
            return true;
        }
        k = k + 1;
    }
    false
}

/// The first parameter whose name is among `type_names`, if there is one.
pub fn find_param(parameters: &Vec<ParameterDeclaration>, type_names: &Vec<Vec<u8>>) -> (found:
    Option<usize>)
    ensures
        found == param_of(parameters@, type_names@, 0),
{
    let mut p: usize = 0;
    while p < parameters.len()
        invariant
            p <= parameters@.len(),
            param_of(parameters@, type_names@, 0) == param_of(parameters@, type_names@, p as int),
        decreases parameters@.len() - p,
    {
        if is_mentioned(type_names, parameters[p].name.as_slice()) {
            return Some(p);
        }
        p = p + 1;
    }
    None
}

/// The descriptor of a declared component: identities in place of names,
/// and the fields sorted into dependency slots and configuration slots.
/// Fails where no setting names the interface, and otherwise on the first
/// injected field whose type names nothing.
pub fn describe(declaration: &ComponentDeclaration) -> (r: Result<
    ComponentDescriptor,
    DeclarationError,
>)
    ensures
        match r {
            Ok(d) => {
                &&& interface_of(declaration.settings@) == Some(d.interface)
                &&& forall|n: int|
                    0 <= n < declaration.fields@.len() ==> !unnamed(
                        #[trigger] declaration.fields@[n],
                    )
                &&& d.component == id_of(declaration.name@)
                &&& d.kind == declaration.kind
                &&& d.dependencies@ == declared_dependencies(
                    declaration.fields@,
                    declaration.parameters@,
                )
                &&& d.configuration@ == declared_configuration(
                    declaration.fields@,
                    declaration.parameters@,
                )
            },
            Err(DeclarationError::MissingInterface) => interface_of(declaration.settings@) is None,
            Err(DeclarationError::UnnamedDependency { field }) => {
                &&& interface_of(declaration.settings@) is Some
                &&& exists|n: int|
                    {
                        &&& 0 <= n < declaration.fields@.len()
                        &&& unnamed(#[trigger] declaration.fields@[n])
                        &&& field == id_of(declaration.fields@[n].name@)
                        &&& forall|j: int|
                            0 <= j < n ==> !unnamed(#[trigger] declaration.fields@[j])
                    }
            },
        },
{
    let interface = match declared_interface(&declaration.settings) {
        Some(interface) => interface,
        None => {
            return Err(DeclarationError::MissingInterface);
        },
    };
    let mut dependencies: Vec<DependencySlot> = Vec::new();
    let mut configuration: Vec<ConfigSlot> = Vec::new();
    let mut n: usize = 0;
    while n < declaration.fields.len()
        invariant
            n <= declaration.fields@.len(),
            interface_of(declaration.settings@) == Some(interface),
            forall|j: int| 0 <= j < n ==> !unnamed(#[trigger] declaration.fields@[j]),
            dependencies@ == declared_dependencies(
                declaration.fields@.take(n as int),
                declaration.parameters@,
            ),
            configuration@ == declared_configuration(
                declaration.fields@.take(n as int),
                declaration.parameters@,
            ),
        decreases declaration.fields@.len() - n,
    {
        let field = &declaration.fields[n];
        assert(declaration.fields@.take(n + 1).drop_last() =~= declaration.fields@.take(n as int));
        assert(declaration.fields@.take(n + 1).last() == *field);
        let id = name_id(field.name.as_slice());
        let param = find_param(&declaration.parameters, &field.type_names);
        if injected(&field.settings) {
            if field.type_names.len() == 0 {
                return Err(DeclarationError::UnnamedDependency { field: id });
            }
            let target = &field.type_names[field.type_names.len() - 1];
            dependencies.push(
                DependencySlot { field: id, interface: name_id(target.as_slice()), param },
            );
        } else {
            configuration.push(
                ConfigSlot { field: id, default: default_rule(&field.settings), param },
            );
        }
        n = n + 1;
    }
    assert(declaration.fields@.take(n as int) =~= declaration.fields@);
    Ok(
        ComponentDescriptor {
            component: name_id(declaration.name.as_slice()),
            interface,
            kind: declaration.kind,
            dependencies,
            configuration,
        },
    )
}

/// The bound set that the bounds of one generic parameter make, each given
/// by the name of its trait: `Default` makes the parameter
/// default-constructible, `Interface` makes it safe to share, and any other
/// name is an interface that the type implements.
pub fn bound_set(bounds: &Vec<Vec<u8>>) -> (set: BoundSet)
    ensures
        set.default_constructible == (exists|k: int|
            0 <= k < bounds@.len() && (#[trigger] bounds@[k])@ == default_name()),
        set.shareable == (exists|k: int|
            0 <= k < bounds@.len() && (#[trigger] bounds@[k])@ == interface_name()),
        set.implements@ == declared_interfaces(bounds@),
{
    let mut implements: Vec<u64> = Vec::new();
    let mut default_constructible = false;
    let mut shareable = false;
    let mut n: usize = 0;
    while n < bounds.len()
        invariant
            n <= bounds@.len(),
            implements@ == declared_interfaces(bounds@.take(n as int)),
            default_constructible == (exists|k: int|
                0 <= k < n && (#[trigger] bounds@[k])@ == default_name()),
            shareable == (exists|k: int|
                0 <= k < n && (#[trigger] bounds@[k])@ == interface_name()),
        decreases bounds@.len() - n,
    {
        assert(bounds@.take(n + 1).drop_last() =~= bounds@.take(n as int));
        assert(bounds@.take(n + 1).last() == bounds@[n as int]);
        let name = bounds[n].as_slice();
        if is_default_name(name) {
            default_constructible = true;
        } else if is_interface_name(name) {
            shareable = true;
        } else {
            implements.push(name_id(name));
        }
        n = n + 1;
    }
    assert(bounds@.take(n as int) =~= bounds@);
    BoundSet { implements, default_constructible, shareable }
}

/// The bound sets of the generic parameters of a declared component, in
/// the order of the parameters.
pub fn parameter_bounds(declaration: &ComponentDeclaration) -> (params: Vec<BoundSet>)
    ensures
        params@.len() == declaration.parameters@.len(),
        forall|p: int|
            0 <= p < params@.len() ==> {
                let bounds = declaration.parameters@[p].bounds@;
                &&& (#[trigger] params@[p]).default_constructible == (exists|k: int|
                    0 <= k < bounds.len() && (#[trigger] bounds[k])@ == default_name())
                &&& params@[p].shareable == (exists|k: int|
                    0 <= k < bounds.len() && (#[trigger] bounds[k])@ == interface_name())
                &&& params@[p].implements@ == declared_interfaces(bounds)
            },
{
    let mut params: Vec<BoundSet> = Vec::new();
    let mut p: usize = 0;
    while p < declaration.parameters.len()
        invariant
            p <= declaration.parameters@.len(),
            params@.len() == p,
            forall|q: int|
                0 <= q < p ==> {
                    let bounds = declaration.parameters@[q].bounds@;
                    &&& (#[trigger] params@[q]).default_constructible == (exists|k: int|
                        0 <= k < bounds.len() && (#[trigger] bounds[k])@ == default_name())
                    &&& params@[q].shareable == (exists|k: int|
                        0 <= k < bounds.len() && (#[trigger] bounds[k])@ == interface_name())
                    &&& params@[q].implements@ == declared_interfaces(bounds)
                },
        decreases declaration.parameters@.len() - p,
    {
        params.push(bound_set(&declaration.parameters[p].bounds));
        p = p + 1;
    }
    params
}

} // verus!
