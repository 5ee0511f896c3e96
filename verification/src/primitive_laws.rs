//! What the built-in elements are for: which parameters they take, and how their terminals act on
//! one another.
//!
//! Numbers are told apart by their bit patterns here: a pattern below that of infinity stands for a
//! finite number that is not negative, and the pattern with the sign bit alone for minus zero.

use crate::definition::{
    partition_bound, DeviceDefinition, PrimitiveElementKind, PrimitiveParameterError,
};
use crate::parameter::ParameterConstraintError;
use vstd::prelude::*;

verus! {

/// Whether a pattern stands for a finite number.
pub open spec fn finite_number(bits: u64) -> bool {
    bits < 0x7FF0_0000_0000_0000 || 0x8000_0000_0000_0000 <= bits < 0xFFF0_0000_0000_0000
}

/// Whether a pattern stands for a finite number above zero.
pub open spec fn positive_number(bits: u64) -> bool {
    0 < bits < 0x7FF0_0000_0000_0000
}

/// Whether a pattern stands for a finite number that is not below zero.
pub open spec fn natural_number(bits: u64) -> bool {
    bits < 0x7FF0_0000_0000_0000 || bits == 0x8000_0000_0000_0000
}

/// Whether of two numbers that are not below zero the first is the larger one.
pub open spec fn larger_number(a: u64, b: u64) -> bool {
    a < 0x7FF0_0000_0000_0000 && if b == 0x8000_0000_0000_0000 {
        a > 0
    } else {
        a > b
    }
}

/// A source of any kind and a tick delay take every finite number, of either sign. A resistance, a
/// capacitor and an inductor take what is above zero, a conductance also zero. A switch takes a
/// threshold, a hysteresis that is not negative, and two conductances, of which the first, above
/// zero, is the larger; a controlled conductance a threshold, a transition above zero, and two
/// conductances, of which the second, above zero, is the larger. Nothing else is accepted.
pub proof fn law_primitives_take_exactly_these_parameters(
    kind: PrimitiveElementKind,
    parameters: Seq<u64>,
)
    ensures
        kind.check(parameters) is Ok <==> match kind {
            PrimitiveElementKind::Resistance
            | PrimitiveElementKind::Capacitor
            | PrimitiveElementKind::Inductor => parameters.len() == 1 && positive_number(
                parameters[0],
            ),
            PrimitiveElementKind::Conductance => parameters.len() == 1 && natural_number(
                parameters[0],
            ),
            PrimitiveElementKind::VoltageSource
            | PrimitiveElementKind::CurrentSource
            | PrimitiveElementKind::VoltageControlledCurrentSource
            | PrimitiveElementKind::VoltageControlledVoltageSource
            | PrimitiveElementKind::TickDelay => parameters.len() == 1 && finite_number(
                parameters[0],
            ),
            PrimitiveElementKind::VoltageControlledSwitch => {
                &&& parameters.len() == 4
                &&& finite_number(parameters[0])
                &&& natural_number(parameters[1])
                &&& positive_number(parameters[2])
                &&& natural_number(parameters[3])
                &&& larger_number(parameters[2], parameters[3])
            },
            PrimitiveElementKind::VoltageControlledConductance => {
                &&& parameters.len() == 4
                &&& finite_number(parameters[0])
                &&& positive_number(parameters[1])
                &&& natural_number(parameters[2])
                &&& positive_number(parameters[3])
                &&& larger_number(parameters[3], parameters[2])
            },
        },
{
    reveal_with_fuel(PrimitiveElementKind::check_from, 6);
}

/// Which single numbers the parameters of a built-in element can be given: this is what a device of
/// the kind accepts, whatever its other parameters are.
pub proof fn law_primitive_parameters_are_constrained_one_by_one(
    kind: PrimitiveElementKind,
    index: int,
    value: u64,
)
    requires
        0 <= index < kind.constraints().len(),
    ensures
        kind.constraints()[index].check(value) is Ok <==> match kind {
            PrimitiveElementKind::Resistance
            | PrimitiveElementKind::Capacitor
            | PrimitiveElementKind::Inductor => positive_number(value),
            PrimitiveElementKind::Conductance => natural_number(value),
            PrimitiveElementKind::VoltageSource
            | PrimitiveElementKind::CurrentSource
            | PrimitiveElementKind::VoltageControlledCurrentSource
            | PrimitiveElementKind::VoltageControlledVoltageSource
            | PrimitiveElementKind::TickDelay => finite_number(value),
            PrimitiveElementKind::VoltageControlledSwitch => if index == 0 {
                finite_number(value)
            } else if index == 2 {
                positive_number(value)
            } else {
                natural_number(value)
            },
            PrimitiveElementKind::VoltageControlledConductance => if index == 0 {
                finite_number(value)
            } else if index == 2 {
                natural_number(value)
            } else {
                positive_number(value)
            },
        },
        kind.constraints()[index].check(value) is Err ==> kind.constraints()[index].check(value)
            == Err::<(), ParameterConstraintError>(
            if finite_number(value) {
                ParameterConstraintError::OutOfRange
            } else {
                ParameterConstraintError::NonFinite
            },
        ),
{
}

/// Of several faults in the parameters of a built-in element the first one is told: a wrong number
/// of them, then the first parameter that cannot have its value, then two in the wrong order.
pub proof fn law_the_first_wrong_parameter_is_told(
    kind: PrimitiveElementKind,
    parameters: Seq<u64>,
)
    requires
        parameters.len() <= usize::MAX,
    ensures
        match kind.check(parameters) {
            Ok(_) => parameters.len() == kind.constraints().len() && forall|i: int|
                0 <= i < parameters.len() ==> kind.constraints()[i].check(
                    #[trigger] parameters[i],
                ) is Ok,
            Err(PrimitiveParameterError::WrongParameterCount { expected, actual }) => {
                &&& expected != actual
                &&& actual == parameters.len()
                &&& expected == kind.constraints().len()
            },
            Err(PrimitiveParameterError::InvalidParameter { index, source }) => {
                &&& parameters.len() == kind.constraints().len()
                &&& index < parameters.len()
                &&& kind.constraints()[index as int].check(parameters[index as int]) == Err::<
                    (),
                    ParameterConstraintError,
                >(source)
                &&& forall|i: int|
                    0 <= i < index ==> kind.constraints()[i].check(#[trigger] parameters[i]) is Ok
            },
            Err(PrimitiveParameterError::ParameterMustBeGreater { greater, lesser }) => {
                &&& parameters.len() == 4
                &&& forall|i: int|
                    0 <= i < 4 ==> kind.constraints()[i].check(#[trigger] parameters[i]) is Ok
                &&& kind is VoltageControlledSwitch ==> greater == 2 && lesser == 3
                &&& kind is VoltageControlledConductance ==> greater == 3 && lesser == 2
                &&& !larger_number(parameters[greater as int], parameters[lesser as int])
            },
        },
{
    reveal_with_fuel(PrimitiveElementKind::check_from, 6);
}

/// All terminals of a built-in element act on one another within a tick, but for a tick delay: its
/// two inputs do, and its two outputs do, and the inputs act on the outputs only in the next tick.
pub proof fn law_only_tick_delays_separate_their_terminals(
    kind: PrimitiveElementKind,
    definition: DeviceDefinition,
    a: int,
    b: int,
)
    requires
        definition.is_primitive(kind),
        definition.wf(),
        0 <= a < definition.spec_terminals().len(),
        0 <= b < definition.spec_terminals().len(),
    ensures
        definition.spec_partitions()[a] == definition.spec_partitions()[b] <==> (!(
        kind is TickDelay) || (a < 2 <==> b < 2)),
        definition.spec_partition_count() == if kind is TickDelay {
            2
        } else {
            1int
        },
        definition.spec_partitions()[0] == 0,
        definition.spec_terminals()[a] == a,
        definition.spec_terminals().len() == match kind {
            PrimitiveElementKind::VoltageControlledConductance => 3,
            PrimitiveElementKind::VoltageControlledCurrentSource
            | PrimitiveElementKind::VoltageControlledVoltageSource
            | PrimitiveElementKind::VoltageControlledSwitch
            | PrimitiveElementKind::TickDelay => 4,
            _ => 2int,
        },
{
    reveal_with_fuel(partition_bound, 6);
    let p = definition.spec_partitions();
    assert(p.drop_last().len() == p.len() - 1);
}

/// The kinds are numbered from zero to ten, each by a number of its own, and the first of them are
/// resistance, conductance and the sources.
pub proof fn law_kinds_are_numbered(a: PrimitiveElementKind, b: PrimitiveElementKind)
    ensures
        a.number() < 11,
        a.number() == b.number() <==> a == b,
        PrimitiveElementKind::Resistance.number() == 0,
        PrimitiveElementKind::Conductance.number() == 1,
        PrimitiveElementKind::VoltageSource.number() == 2,
        PrimitiveElementKind::CurrentSource.number() == 3,
        PrimitiveElementKind::VoltageControlledCurrentSource.number() == 4,
        PrimitiveElementKind::VoltageControlledVoltageSource.number() == 5,
        PrimitiveElementKind::Capacitor.number() == 6,
        PrimitiveElementKind::Inductor.number() == 7,
        PrimitiveElementKind::VoltageControlledSwitch.number() == 8,
        PrimitiveElementKind::VoltageControlledConductance.number() == 9,
        PrimitiveElementKind::TickDelay.number() == 10,
{
}

} // verus!
