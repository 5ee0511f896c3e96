//! What filling in the values of an island does, value by value.

use crate::bindings::{
    is_address, DefinitionStateInitializer, InputSlot, IslandRuntimeError, ParameterInputBinding,
    PhysicalStateError, StateInputBinding, StateOutputBinding,
};
use crate::device_arena::assigned_value;
use crate::float_bits::{float_eq, is_finite};
use crate::island_runtime::{
    all_equal, all_finite, filled, latched, loaded, output_failure, states_read, values_at,
    IterationLatch, StaticChanges,
};
use crate::matrix_program::ValueSlot;
use crate::network::Network;
use crate::pattern::UnknownIndex;
use vstd::prelude::*;

verus! {

/// The value that a bound parameter has in a network, where it has one.
pub open spec fn bound_value(network: Network, binding: ParameterInputBinding) -> u64 {
    network.arena().spec_parameter_at(binding.location, binding.parameter)->Some_0->Some_0
}

/// Whether a bound parameter has a value in a network.
pub open spec fn has_value(network: Network, binding: ParameterInputBinding) -> bool {
    &&& network.arena().spec_parameter_at(binding.location, binding.parameter) matches Some(found)
    &&& found is Some
}

/// Whether a bound parameter differs from what its slot holds.
pub open spec fn differs(
    network: Network,
    binding: ParameterInputBinding,
    values: Seq<u64>,
) -> bool {
    !float_eq(values[binding.input.spec_value() as int], bound_value(network, binding))
}

/// Whether each binding fills a slot of its own among the values.
pub open spec fn slots_apart(bindings: Seq<ParameterInputBinding>, count: int) -> bool {
    &&& forall|i: int|
        0 <= i < bindings.len() ==> (#[trigger] bindings[i]).input.spec_value() < count
    &&& forall|i: int, j: int|
        0 <= i < j < bindings.len() ==> (#[trigger] bindings[i]).input.spec_value() != (
        #[trigger] bindings[j]).input.spec_value()
}

proof fn lemma_loaded_from(
    network: Network,
    bindings: Seq<ParameterInputBinding>,
    matrix_inputs: Seq<bool>,
    values: Seq<u64>,
    changes: StaticChanges,
    from: int,
)
    requires
        0 <= from <= bindings.len(),
        slots_apart(bindings, values.len() as int),
    ensures
        ({
            let (after, result) = loaded(
                network,
                bindings,
                matrix_inputs,
                values,
                changes,
                from,
            );
            &&& result is Ok <==> forall|i: int|
                from <= i < bindings.len() ==> has_value(network, #[trigger] bindings[i])
            &&& result matches Ok(now) ==> {
                &&& after.len() == values.len()
                &&& now.values <==> changes.values || exists|i: int|
                    from <= i < bindings.len() && differs(network, #[trigger] bindings[i], values)
                &&& now.matrix <==> changes.matrix || exists|i: int|
                    from <= i < bindings.len() && differs(network, #[trigger] bindings[i], values)
                        && matrix_inputs[bindings[i].input.spec_value() as int]
                &&& forall|i: int|
                    from <= i < bindings.len() ==> after[(
                    #[trigger] bindings[i]).input.spec_value() as int] == if differs(
                        network,
                        bindings[i],
                        values,
                    ) {
                        bound_value(network, bindings[i])
                    } else {
                        values[bindings[i].input.spec_value() as int]
                    }
                &&& forall|s: int|
                   0 <= s < values.len() && (forall|i: int|
                        from <= i < bindings.len() ==> (
                        #[trigger] bindings[i]).input.spec_value() != s) ==> #[trigger] after[s]
                        == values[s]
            }
            &&& result matches Err(error) ==> exists|i: int|
                {
                    &&& from <= i < bindings.len()
                    &&& !has_value(network, #[trigger] bindings[i])
                    &&& forall|j: int|
                        from <= j < i ==> has_value(network, #[trigger] bindings[j])
                    &&& error == missing_error(network, bindings[i])
                }
        }),
    decreases bindings.len() - from,
{
    if from < bindings.len() && has_value(network, bindings[from]) {
        let binding = bindings[from];
        let slot = binding.input.spec_value() as int;
        let value = bound_value(network, binding);
        let changed = differs(network, binding, values);
        let next = if changed {
            values.update(slot, value)
        } else {
            values
        };
        let marks = if changed {
            StaticChanges { values: true, matrix: changes.matrix || matrix_inputs[slot] }
        } else {
            changes
        };
        lemma_loaded_from(network, bindings, matrix_inputs, next, marks, from + 1);
        assert forall|i: int| from < i < bindings.len() implies differs(
            network,
            #[trigger] bindings[i],
            next,
        ) == differs(network, bindings[i], values) by {
            assert(bindings[from].input.spec_value() != bindings[i].input.spec_value());
        }
        let (after, result) = loaded(network, bindings, matrix_inputs, values, changes, from);
        assert(loaded(network, bindings, matrix_inputs, next, marks, from + 1) == (after, result));
        if let Ok(now) = result {
            assert forall|i: int| from <= i < bindings.len() implies after[(
            #[trigger] bindings[i]).input.spec_value() as int] == if differs(
                network,
                bindings[i],
                values,
            ) {
                bound_value(network, bindings[i])
            } else {
                values[bindings[i].input.spec_value() as int]
            } by {
                if i == from {
                    assert forall|k: int| from + 1 <= k < bindings.len() implies (
                    #[trigger] bindings[k]).input.spec_value() != slot by {
                        assert(bindings[from].input.spec_value()
                            != bindings[k].input.spec_value());
                    }
                    assert(after[slot] == next[slot]);
                } else {
                    assert(bindings[from].input.spec_value() != bindings[i].input.spec_value());
                }
            }
            assert forall|s: int|
                0 <= s < values.len() && (forall|i: int|
                    from <= i < bindings.len() ==> (#[trigger] bindings[i]).input.spec_value()
                        != s) implies #[trigger] after[s] == values[s] by {
                assert(bindings[from].input.spec_value() != s);
                assert(after[s] == next[s]);
            }
            assert(changed ==> differs(network, bindings[from], values));
        }
    }
}

/// What is wrong with a parameter that has no value: its device or its value is missing.
pub open spec fn missing_error(
    network: Network,
    binding: ParameterInputBinding,
) -> IslandRuntimeError {
    if network.arena().spec_parameter_at(binding.location, binding.parameter) is None {
        IslandRuntimeError::MissingDevice { device: binding.device }
    } else {
        IslandRuntimeError::MissingParameter {
            device: binding.device,
            parameter: binding.parameter,
        }
    }
}

/// Loading parameters succeeds exactly if all of them have values, and then reports exactly what
/// changed: the values, if any parameter differs from what its slot held; the matrix, if one does
/// that the matrix depends on. Each slot then holds its parameter, and all other values are as they
/// were. Each binding has a slot of its own. Else the first parameter without a value is told.
pub proof fn law_loading_reports_exactly_what_changed(
    network: Network,
    bindings: Seq<ParameterInputBinding>,
    matrix_inputs: Seq<bool>,
    values: Seq<u64>,
)
    requires
        slots_apart(bindings, values.len() as int),
    ensures
        ({
            let (after, result) = loaded(
                network,
                bindings,
                matrix_inputs,
                values,
                StaticChanges { values: false, matrix: false },
                0,
            );
            &&& result is Ok <==> forall|i: int|
                0 <= i < bindings.len() ==> has_value(network, #[trigger] bindings[i])
            &&& result matches Ok(changes) ==> {
                &&& after.len() == values.len()
                &&& changes.matrix <==> exists|i: int|
                    0 <= i < bindings.len() && matrix_inputs[(
                    #[trigger] bindings[i]).input.spec_value() as int] && !float_eq(
                        values[bindings[i].input.spec_value() as int],
                        bound_value(network, bindings[i]),
                    )
                &&& changes.values <==> exists|i: int|
                    0 <= i < bindings.len() && !float_eq(
                        values[(#[trigger] bindings[i]).input.spec_value() as int],
                        bound_value(network, bindings[i]),
                    )
                &&& forall|i: int|
                    0 <= i < bindings.len() ==> {
                        let slot = (#[trigger] bindings[i]).input.spec_value() as int;
                        ||| after[slot] == bound_value(network, bindings[i])
                        ||| after[slot] == values[slot] && float_eq(
                            values[slot],
                            bound_value(network, bindings[i]),
                        )
                    }
                &&& forall|s: int|
                   0 <= s < values.len() && (forall|i: int|
                        0 <= i < bindings.len() ==> (#[trigger] bindings[i]).input.spec_value()
                            != s) ==> #[trigger] after[s] == values[s]
            }
            &&& result matches Err(error) ==> exists|i: int|
                {
                    &&& 0 <= i < bindings.len()
                    &&& !has_value(network, #[trigger] bindings[i])
                    &&& forall|j: int|
                        0 <= j < i ==> has_value(network, #[trigger] bindings[j])
                    &&& error == missing_error(network, bindings[i])
                }
        }),
{
    let none = StaticChanges { values: false, matrix: false };
    lemma_loaded_from(network, bindings, matrix_inputs, values, none, 0);
    let (after, result) = loaded(network, bindings, matrix_inputs, values, none, 0);
    if let Ok(changes) = result {
        if exists|i: int|
            0 <= i < bindings.len() && matrix_inputs[(
            #[trigger] bindings[i]).input.spec_value() as int] && !float_eq(
                values[bindings[i].input.spec_value() as int],
                bound_value(network, bindings[i]),
            ) {
            let i = choose|i: int|
                0 <= i < bindings.len() && matrix_inputs[(
                #[trigger] bindings[i]).input.spec_value() as int] && !float_eq(
                    values[bindings[i].input.spec_value() as int],
                    bound_value(network, bindings[i]),
                );
            assert(differs(network, bindings[i], values));
        }
        if exists|i: int|
            0 <= i < bindings.len() && !float_eq(
                values[(#[trigger] bindings[i]).input.spec_value() as int],
                bound_value(network, bindings[i]),
            ) {
            let i = choose|i: int|
                0 <= i < bindings.len() && !float_eq(
                    values[(#[trigger] bindings[i]).input.spec_value() as int],
                    bound_value(network, bindings[i]),
                );
            assert(differs(network, bindings[i], values));
        }
    }
}

/// Whether each latch has an input of its own, which no latch is updated from.
pub open spec fn latches_apart(latches: Seq<IterationLatch>, count: int) -> bool {
    &&& forall|i: int|
        0 <= i < latches.len() ==> (#[trigger] latches[i]).input.spec_value() < count
            && latches[i].initial.value() < count && latches[i].update.value() < count
    &&& forall|i: int, j: int|
        0 <= i < j < latches.len() ==> (#[trigger] latches[i]).input.spec_value() != (
        #[trigger] latches[j]).input.spec_value()
    &&& forall|i: int, j: int|
        0 <= i < latches.len() && 0 <= j < latches.len() ==> (
        #[trigger] latches[i]).input.spec_value() != (#[trigger] latches[j]).update.value()
            && latches[i].input.spec_value() != latches[j].initial.value()
}

/// Whether no latch has its input in a slot.
pub open spec fn no_latch(latches: Seq<IterationLatch>, slot: int) -> bool {
    forall|i: int| 0 <= i < latches.len() ==> (#[trigger] latches[i]).input.spec_value() != slot
}

proof fn lemma_latched(
    values: Seq<u64>,
    latches: Seq<IterationLatch>,
    count: int,
    first: bool,
)
    requires
        0 <= count <= latches.len(),
        latches_apart(latches, values.len() as int),
    ensures
        ({
            let after = latched(values, latches, count, first);
            &&& after.len() == values.len()
            &&& forall|i: int|
                0 <= i < count ==> after[(#[trigger] latches[i]).input.spec_value() as int]
                    == values[if first {
                    latches[i].initial.value() as int
                } else {
                    latches[i].update.value() as int
                }]
            &&& forall|s: int|
                0 <= s < values.len() && (forall|i: int|
                    0 <= i < count ==> (#[trigger] latches[i]).input.spec_value() != s)
                    ==> #[trigger] after[s] == values[s]
        }),
    decreases count,
{
    if count > 0 {
        lemma_latched(values, latches, count - 1, first);
        let before = latched(values, latches, count - 1, first);
        let latch = latches[count - 1];
        let after = latched(values, latches, count, first);
        let source = if first {
            latch.initial.value() as int
        } else {
            latch.update.value() as int
        };
        assert(before[source] == values[source]) by {
            assert forall|i: int| 0 <= i < count - 1 implies (
            #[trigger] latches[i]).input.spec_value() != source by {
                assert(latches[i].input.spec_value() != latches[count - 1].update.value());
                assert(latches[i].input.spec_value() != latches[count - 1].initial.value());
            }
        }
        assert forall|i: int| 0 <= i < count implies after[(
        #[trigger] latches[i]).input.spec_value() as int] == values[if first {
            latches[i].initial.value() as int
        } else {
            latches[i].update.value() as int
        }] by {
            if i < count - 1 {
                assert(latches[i].input.spec_value() != latches[count - 1].input.spec_value());
            }
        }
        assert forall|s: int|
            0 <= s < values.len() && (forall|i: int|
                0 <= i < count ==> (#[trigger] latches[i]).input.spec_value() != s) implies
            #[trigger] after[s] == values[s] by {
            assert(latches[count - 1].input.spec_value() != s);
            assert(before[s] == values[s]);
        }
    }
}

/// At the beginning of a tick every latch takes its initial value, and later the update that was
/// computed for it. No other value changes.
pub proof fn law_latches_take_what_was_computed_for_them(
    values: Seq<u64>,
    latches: Seq<IterationLatch>,
    first: bool,
)
    requires
        latches_apart(latches, values.len() as int),
    ensures
        ({
            let after = latched(values, latches, latches.len() as int, first);
            &&& after.len() == values.len()
            &&& forall|i: int|
                0 <= i < latches.len() ==> after[(#[trigger] latches[i]).input.spec_value() as int]
                    == if first {
                    values[latches[i].initial.value() as int]
                } else {
                    values[latches[i].update.value() as int]
                }
            &&& forall|s: int|
                0 <= s < values.len() && no_latch(latches, s) ==> #[trigger] after[s] == values[s]
        }),
{
    lemma_latched(values, latches, latches.len() as int, first);
}

/// Whether each input that depends on a solution has a slot of its own.
pub open spec fn inputs_apart(inputs: Seq<(UnknownIndex, InputSlot)>, count: int) -> bool {
    &&& forall|i: int| 0 <= i < inputs.len() ==> (#[trigger] inputs[i]).1.spec_value() < count
    &&& forall|i: int, j: int|
        0 <= i < j < inputs.len() ==> (#[trigger] inputs[i]).1.spec_value() != (
        #[trigger] inputs[j]).1.spec_value()
}

proof fn lemma_filled(
    values: Seq<u64>,
    inputs: Seq<(UnknownIndex, InputSlot)>,
    solution: Seq<u64>,
    count: int,
)
    requires
        0 <= count <= inputs.len(),
        inputs_apart(inputs, values.len() as int),
    ensures
        ({
            let after = filled(values, inputs, solution, count);
            &&& after.len() == values.len()
            &&& forall|i: int|
                0 <= i < count ==> after[(#[trigger] inputs[i]).1.spec_value() as int]
                    == solution[inputs[i].0.value() as int]
            &&& forall|s: int|
                0 <= s < values.len() && (forall|i: int|
                    0 <= i < count ==> (#[trigger] inputs[i]).1.spec_value() != s)
                    ==> #[trigger] after[s] == values[s]
        }),
    decreases count,
{
    if count > 0 {
        lemma_filled(values, inputs, solution, count - 1);
        let before = filled(values, inputs, solution, count - 1);
        let after = filled(values, inputs, solution, count);
        assert forall|i: int| 0 <= i < count implies after[(
        #[trigger] inputs[i]).1.spec_value() as int] == solution[inputs[i].0.value() as int] by {
            if i < count - 1 {
                assert(inputs[i].1.spec_value() != inputs[count - 1].1.spec_value());
            }
        }
        assert forall|s: int|
            0 <= s < values.len() && (forall|i: int|
                0 <= i < count ==> (#[trigger] inputs[i]).1.spec_value() != s) implies
            #[trigger] after[s] == values[s] by {
            assert(inputs[count - 1].1.spec_value() != s);
            assert(before[s] == values[s]);
        }
    }
}

/// An island is evaluated with a solution: each input that depends on it holds its unknown, and no
/// other value changes.
pub proof fn law_inputs_hold_the_solution(
    values: Seq<u64>,
    inputs: Seq<(UnknownIndex, InputSlot)>,
    solution: Seq<u64>,
)
    requires
        inputs_apart(inputs, values.len() as int),
    ensures
        ({
            let after = filled(values, inputs, solution, inputs.len() as int);
            &&& after.len() == values.len()
            &&& forall|i: int|
                0 <= i < inputs.len() ==> after[(#[trigger] inputs[i]).1.spec_value() as int]
                    == solution[inputs[i].0.value() as int]
            &&& forall|s: int|
                0 <= s < values.len() && (forall|i: int|
                    0 <= i < inputs.len() ==> (#[trigger] inputs[i]).1.spec_value() != s)
                    ==> #[trigger] after[s] == values[s]
        }),
{
    lemma_filled(values, inputs, solution, inputs.len() as int);
}

/// Whether each state that is read has a slot of its own.
pub open spec fn states_apart(bindings: Seq<StateInputBinding>, count: int) -> bool {
    &&& forall|i: int|
        0 <= i < bindings.len() ==> (#[trigger] bindings[i]).input.spec_value() < count
    &&& forall|i: int, j: int|
        0 <= i < j < bindings.len() ==> (#[trigger] bindings[i]).input.spec_value() != (
        #[trigger] bindings[j]).input.spec_value()
}

proof fn lemma_states_read(
    network: Network,
    bindings: Seq<StateInputBinding>,
    stored: Seq<Result<Option<u64>, PhysicalStateError>>,
    values: Seq<u64>,
    from: int,
)
    requires
        0 <= from <= bindings.len(),
        states_apart(bindings, values.len() as int),
    ensures
        ({
            let (after, result) = states_read(network, bindings, stored, values, from);
            &&& result is Ok <==> forall|i: int|
                from <= i < bindings.len() ==> (#[trigger] bindings[i]).logical(
                    network,
                    stored[i],
                ) is Ok
            &&& result is Ok ==> {
                &&& after.len() == values.len()
                &&& forall|i: int|
                    from <= i < bindings.len() ==> (#[trigger] bindings[i]).logical(
                        network,
                        stored[i],
                    ) == Ok::<u64, IslandRuntimeError>(
                        after[bindings[i].input.spec_value() as int],
                    )
                &&& forall|s: int|
                   0 <= s < values.len() && (forall|i: int|
                        from <= i < bindings.len() ==> (
                        #[trigger] bindings[i]).input.spec_value() != s) ==> #[trigger] after[s]
                        == values[s]
            }
            &&& result matches Err(error) ==> exists|i: int|
                {
                    &&& from <= i < bindings.len()
                    &&& (#[trigger] bindings[i]).logical(network, stored[i]) == Err::<u64, _>(error)
                    &&& forall|j: int|
                        from <= j < i ==> (#[trigger] bindings[j]).logical(
                            network,
                            stored[j],
                        ) is Ok
                }
        }),
    decreases bindings.len() - from,
{
    if from < bindings.len() {
        let slot = bindings[from].input.spec_value() as int;
        match bindings[from].logical(network, stored[from]) {
            Err(_) => {},
            Ok(value) => {
                let next = values.update(slot, value);
                lemma_states_read(network, bindings, stored, next, from + 1);
                let (after, result) = states_read(network, bindings, stored, values, from);
                if result is Ok {
                    assert(after[slot] == value) by {
                        assert forall|k: int| from + 1 <= k < bindings.len() implies (
                        #[trigger] bindings[k]).input.spec_value() != slot by {
                            assert(bindings[from].input.spec_value()
                                != bindings[k].input.spec_value());
                        }
                        assert(after[slot] == next[slot]);
                    }
                    assert forall|s: int|
                        0 <= s < values.len() && (forall|i: int|
                            from <= i < bindings.len() ==> (
                            #[trigger] bindings[i]).input.spec_value() != s) implies
                        #[trigger] after[s] == values[s] by {
                        assert(bindings[from].input.spec_value() != s);
                        assert(after[s] == next[s]);
                    }
                }
            },
        }
    }
}

/// Reading states fills each slot with its state, and changes no other value. It fails exactly if a
/// state cannot be told, for the first such reason.
pub proof fn law_states_are_read_into_their_slots(
    network: Network,
    bindings: Seq<StateInputBinding>,
    stored: Seq<Result<Option<u64>, PhysicalStateError>>,
    values: Seq<u64>,
)
    requires
        states_apart(bindings, values.len() as int),
    ensures
        ({
            let (after, result) = states_read(network, bindings, stored, values, 0);
            &&& result is Ok <==> forall|i: int|
                0 <= i < bindings.len() ==> (#[trigger] bindings[i]).logical(
                    network,
                    stored[i],
                ) is Ok
            &&& result is Ok ==> {
                &&& after.len() == values.len()
                &&& forall|i: int|
                    0 <= i < bindings.len() ==> (#[trigger] bindings[i]).logical(
                        network,
                        stored[i],
                    ) == Ok::<u64, IslandRuntimeError>(
                        after[bindings[i].input.spec_value() as int],
                    )
                &&& forall|s: int|
                   0 <= s < values.len() && (forall|i: int|
                        0 <= i < bindings.len() ==> (#[trigger] bindings[i]).input.spec_value()
                            != s) ==> #[trigger] after[s] == values[s]
            }
            &&& result matches Err(error) ==> exists|i: int|
                {
                    &&& 0 <= i < bindings.len()
                    &&& (#[trigger] bindings[i]).logical(network, stored[i]) == Err::<u64, _>(error)
                    &&& forall|j: int|
                        0 <= j < i ==> (#[trigger] bindings[j]).logical(network, stored[j]) is Ok
                }
        }),
{
    lemma_states_read(network, bindings, stored, values, 0);
}

/// A state that has been written is what was written. One that has not starts with its constant, or
/// with the value that a parameter of its device has, and cannot be told where that has none.
pub proof fn law_states_start_with_their_initializers(
    network: Network,
    binding: StateInputBinding,
    written: u64,
)
    requires
        network.arena().wf(),
        is_address(network, binding.state, binding.address),
    ensures
        binding.logical(network, Ok(Some(written))) == Ok::<u64, IslandRuntimeError>(written),
        match binding.initializer {
            DefinitionStateInitializer::Constant(value) => binding.logical(network, Ok(None))
                == Ok::<u64, IslandRuntimeError>(value),
            DefinitionStateInitializer::Parameter(parameter) => {
                let device = binding.state.device;
                let parameters = network.device_model(device.value()).parameters;
                let index = parameter.value() as int;
                binding.logical(network, Ok(None)) == if index < parameters.len()
                    && assigned_value(parameters[index]) is Some {
                    Ok(assigned_value(parameters[index])->Some_0)
                } else {
                    Err(IslandRuntimeError::MissingParameter { device, parameter })
                }
            },
        },
{
    if let DefinitionStateInitializer::Parameter(parameter) = binding.initializer {
        network.arena().law_parameters_are_found_by_place(
            binding.address.location,
            binding.state.device.value(),
            parameter,
        );
    }
}

/// Whether a state can be written: its value is finite, and it is there.
pub open spec fn can_write(
    binding: StateOutputBinding,
    values: Seq<u64>,
    address: Result<(), PhysicalStateError>,
) -> bool {
    is_finite(values[binding.source.value() as int]) && address is Ok
}

proof fn lemma_output_failure(
    bindings: Seq<StateOutputBinding>,
    values: Seq<u64>,
    addresses: Seq<Result<(), PhysicalStateError>>,
    from: int,
)
    requires
        0 <= from <= bindings.len(),
    ensures
        match output_failure(bindings, values, addresses, from) {
            None => forall|i: int|
                from <= i < bindings.len() ==> can_write(
                    #[trigger] bindings[i],
                    values,
                    addresses[i],
                ),
            Some(error) => exists|i: int|
                {
                    &&& from <= i < bindings.len()
                    &&& !can_write(#[trigger] bindings[i], values, addresses[i])
                    &&& forall|j: int|
                        from <= j < i ==> can_write(#[trigger] bindings[j], values, addresses[j])
                    &&& !is_finite(values[bindings[i].source.value() as int]) ==> error
                        == IslandRuntimeError::NonFiniteState { state: bindings[i].state }
                },
        },
    decreases bindings.len() - from,
{
    if from < bindings.len() {
        lemma_output_failure(bindings, values, addresses, from + 1);
        if !can_write(bindings[from], values, addresses[from]) {
            assert(!can_write(bindings[from], values, addresses[from]));
        } else if output_failure(bindings, values, addresses, from + 1) is Some {
            let error = output_failure(bindings, values, addresses, from + 1)->Some_0;
            let i = choose|i: int|
                {
                    &&& from + 1 <= i < bindings.len()
                    &&& !can_write(#[trigger] bindings[i], values, addresses[i])
                    &&& forall|j: int|
                        from + 1 <= j < i ==> can_write(
                            #[trigger] bindings[j],
                            values,
                            addresses[j],
                        )
                    &&& !is_finite(values[bindings[i].source.value() as int]) ==> error
                        == IslandRuntimeError::NonFiniteState { state: bindings[i].state }
                };
            assert(!can_write(bindings[i], values, addresses[i]));
        }
    }
}

/// States can be written exactly if all their values are finite and all of them are there. Else the
/// first one that cannot be written is told.
pub proof fn law_only_finite_states_are_written(
    bindings: Seq<StateOutputBinding>,
    values: Seq<u64>,
    addresses: Seq<Result<(), PhysicalStateError>>,
)
    ensures
        match output_failure(bindings, values, addresses, 0) {
            None => forall|i: int|
                0 <= i < bindings.len() ==> can_write(#[trigger] bindings[i], values, addresses[i]),
            Some(error) => exists|i: int|
                {
                    &&& 0 <= i < bindings.len()
                    &&& !can_write(#[trigger] bindings[i], values, addresses[i])
                    &&& forall|j: int|
                        0 <= j < i ==> can_write(#[trigger] bindings[j], values, addresses[j])
                    &&& !is_finite(values[bindings[i].source.value() as int]) ==> error
                        == IslandRuntimeError::NonFiniteState { state: bindings[i].state }
                },
        },
{
    lemma_output_failure(bindings, values, addresses, 0);
}

/// Lists of numbers are equal exactly if they are number by number, and finite exactly if every
/// number is. What is noted of values is what stands in the slots.
pub proof fn law_lists_are_compared_number_by_number(
    a: Seq<u64>,
    b: Seq<u64>,
    slots: Seq<ValueSlot>,
)
    ensures
        all_equal(a, b) <==> a.len() == b.len() && forall|i: int|
            0 <= i < a.len() ==> float_eq(#[trigger] a[i], b[i]),
        all_finite(a) <==> forall|i: int| 0 <= i < a.len() ==> is_finite(#[trigger] a[i]),
        values_at(a, slots).len() == slots.len(),
        forall|i: int|
            0 <= i < slots.len() ==> #[trigger] values_at(a, slots)[i] == a[slots[i].value() as int],
{
}

} // verus!
