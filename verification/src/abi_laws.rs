//! The numbers that callers in other languages are answered with.
//!
//! They are part of the interface: each is fixed here once more, so that a code cannot be given
//! another meaning.

use crate::abi::{
    check_commands, check_subscription, check_unsubscription, check_world_creation, command_code,
    creation_result, destruction_code, hynergy_abi_revision, hynergy_abi_version, not_applied,
    registered, registration_failure,
    registration_gap, subscription_code, tick_admission, tick_call, tick_failure, ticked_without,
    CommandResult, EngineTickError, SubscriptionCode, SubscriptionCreationResult,
    SubscriptionError, TickAction, TickCode, TickResult, WorldCode, WorldCommandError,
    WorldCommandErrorKind, WorldCreationResult, WorldManagementError,
};
use crate::builder::Refusal;
use crate::ids::DeviceId;
use crate::mna_abi;
use crate::protocol::{kind_of, DefinitionRegistrationError, DefinitionRegistrationErrorKind};
use vstd::prelude::*;

verus! {

/// Every error of a definition buffer is answered with a number of its own, where it is, and no
/// identifier.
pub proof fn law_registration_errors_have_fixed_numbers(error: DefinitionRegistrationError)
    ensures
        registration_failure(error).code == match error.kind {
            DefinitionRegistrationErrorKind::InvalidMagic => 5u32,
            DefinitionRegistrationErrorKind::UnsupportedVersion => 6u32,
            DefinitionRegistrationErrorKind::InvalidFlags => 7u32,
            DefinitionRegistrationErrorKind::InvalidReserved => 14u32,
            DefinitionRegistrationErrorKind::TruncatedInput => 8u32,
            DefinitionRegistrationErrorKind::UnknownCommand => 9u32,
            DefinitionRegistrationErrorKind::InvalidCommandLength => 10u32,
            DefinitionRegistrationErrorKind::InvalidCount => 11u32,
            DefinitionRegistrationErrorKind::InvalidDefinitionId => 15u32,
            DefinitionRegistrationErrorKind::UnknownValueKind => 12u32,
            DefinitionRegistrationErrorKind::TrailingBytes => 13u32,
            DefinitionRegistrationErrorKind::UnknownDefinition => 20u32,
            DefinitionRegistrationErrorKind::TerminalCountMismatch => 21u32,
            DefinitionRegistrationErrorKind::ParameterCountMismatch => 22u32,
            DefinitionRegistrationErrorKind::NodeOutOfRange => 23u32,
            DefinitionRegistrationErrorKind::ParameterOutOfRange => 24u32,
            DefinitionRegistrationErrorKind::ParameterConstraintViolation => 25u32,
            DefinitionRegistrationErrorKind::NodeIdExhausted => 26u32,
            DefinitionRegistrationErrorKind::ParameterIdExhausted => 27u32,
            DefinitionRegistrationErrorKind::DefinitionIdExhausted => 28u32,
            DefinitionRegistrationErrorKind::InvalidDefinition => 29u32,
            DefinitionRegistrationErrorKind::InvalidPrimitiveParameters => 30u32,
            DefinitionRegistrationErrorKind::UnusedInternalNode => 31u32,
            DefinitionRegistrationErrorKind::DisconnectedInternalComponent => 32u32,
            DefinitionRegistrationErrorKind::IncompatibleParameterConstraints => 33u32,
            DefinitionRegistrationErrorKind::UnusedParameter => 34u32,
            DefinitionRegistrationErrorKind::DevicePartitionIdExhausted => 35u32,
            DefinitionRegistrationErrorKind::StateCountExhausted => 36u32,
        },
        registration_failure(error).command_index == error.command_index,
        registration_failure(error).byte_offset == error.byte_offset,
        registration_failure(error).definition_id == 0xFFFF_FFFF,
        registration_failure(error).spec_words() == seq![
            registration_failure(error).code,
            error.command_index,
            error.byte_offset,
            0xFFFF_FFFF,
        ],
{
}

/// A definition that was registered is answered with zero and its identifier.
pub proof fn law_registered_definitions_are_answered_with_their_identifier(id: u32)
    ensures
        registered(id).spec_words() == seq![0u32, 0xFFFF_FFFF, 0xFFFF_FFFF, id],
{
}

/// The interface without worlds has fewer numbers: errors that it has none for count as invalid
/// definitions.
pub proof fn law_plain_registration_errors_have_fixed_numbers(
    kind: DefinitionRegistrationErrorKind,
    command_index: u32,
    byte_offset: u32,
)
    ensures
        mna_abi::ended(mna_abi::registration_code(kind), command_index, byte_offset).code
            == match kind {
            DefinitionRegistrationErrorKind::InvalidMagic => 5u32,
            DefinitionRegistrationErrorKind::UnsupportedVersion => 6u32,
            DefinitionRegistrationErrorKind::InvalidFlags => 7u32,
            DefinitionRegistrationErrorKind::InvalidReserved => 29u32,
            DefinitionRegistrationErrorKind::TruncatedInput => 8u32,
            DefinitionRegistrationErrorKind::UnknownCommand => 9u32,
            DefinitionRegistrationErrorKind::InvalidCommandLength => 10u32,
            DefinitionRegistrationErrorKind::InvalidCount => 11u32,
            DefinitionRegistrationErrorKind::InvalidDefinitionId => 29u32,
            DefinitionRegistrationErrorKind::UnknownValueKind => 12u32,
            DefinitionRegistrationErrorKind::TrailingBytes => 13u32,
            DefinitionRegistrationErrorKind::UnknownDefinition => 20u32,
            DefinitionRegistrationErrorKind::TerminalCountMismatch => 21u32,
            DefinitionRegistrationErrorKind::ParameterCountMismatch => 22u32,
            DefinitionRegistrationErrorKind::NodeOutOfRange => 23u32,
            DefinitionRegistrationErrorKind::ParameterOutOfRange => 24u32,
            DefinitionRegistrationErrorKind::ParameterConstraintViolation => 25u32,
            DefinitionRegistrationErrorKind::NodeIdExhausted => 26u32,
            DefinitionRegistrationErrorKind::ParameterIdExhausted => 27u32,
            DefinitionRegistrationErrorKind::DefinitionIdExhausted => 28u32,
            DefinitionRegistrationErrorKind::InvalidDefinition => 29u32,
            DefinitionRegistrationErrorKind::InvalidPrimitiveParameters => 29u32,
            DefinitionRegistrationErrorKind::UnusedInternalNode => 29u32,
            DefinitionRegistrationErrorKind::DisconnectedInternalComponent => 29u32,
            DefinitionRegistrationErrorKind::IncompatibleParameterConstraints => 29u32,
            DefinitionRegistrationErrorKind::UnusedParameter => 29u32,
            DefinitionRegistrationErrorKind::DevicePartitionIdExhausted => 29u32,
            DefinitionRegistrationErrorKind::StateCountExhausted => 29u32,
        },
        mna_abi::ended(mna_abi::registration_code(kind), command_index, byte_offset).spec_words()
            == seq![mna_abi::registration_code(kind).number(), command_index, byte_offset],
{
}

/// Every error of world commands is answered with a number of its own, where it is, and a reserved
/// word that is zero.
pub proof fn law_command_errors_have_fixed_numbers(error: WorldCommandError)
    ensures
        ({
            let answer = not_applied(
                command_code(error.kind),
                error.command_index,
                error.byte_offset,
            );
            &&& answer.code == match error.kind {
                WorldCommandErrorKind::InvalidMagic => 5u32,
                WorldCommandErrorKind::UnsupportedVersion => 6u32,
                WorldCommandErrorKind::InvalidFlags => 7u32,
                WorldCommandErrorKind::InvalidReserved => 8u32,
                WorldCommandErrorKind::TruncatedInput => 9u32,
                WorldCommandErrorKind::UnknownCommand => 10u32,
                WorldCommandErrorKind::InvalidCommandLength => 11u32,
                WorldCommandErrorKind::InvalidId => 12u32,
                WorldCommandErrorKind::TrailingBytes => 13u32,
                WorldCommandErrorKind::UnknownWorld => 14u32,
                WorldCommandErrorKind::IdOutOfBound => 20u32,
                WorldCommandErrorKind::IdExceeds31Bit => 21u32,
                WorldCommandErrorKind::IdAlreadyAssigned => 22u32,
                WorldCommandErrorKind::IdNotAssigned => 23u32,
                WorldCommandErrorKind::WireConnectToSelf => 24u32,
                WorldCommandErrorKind::AlreadyConnected => 25u32,
                WorldCommandErrorKind::NotConnected => 26u32,
                WorldCommandErrorKind::TerminalAlreadyConnected => 27u32,
                WorldCommandErrorKind::InvalidTerminal => 28u32,
                WorldCommandErrorKind::InvalidParameter => 29u32,
                WorldCommandErrorKind::ParameterConstraintViolation => 30u32,
                WorldCommandErrorKind::UnknownDefinition => 31u32,
                WorldCommandErrorKind::ResourceExhausted => 32u32,
            }
            &&& answer.command_index == error.command_index
            &&& answer.byte_offset == error.byte_offset
            &&& answer.reserved == 0
        }),
{
}

/// Every error of a tick is answered with a number of its own and without records. A missing
/// parameter is answered with its device and its number, a tick that did not become stable with how
/// often it was solved; everything else that could be told is left out.
pub proof fn law_tick_errors_have_fixed_numbers(error: EngineTickError, required: u32)
    ensures
        ({
            let answer = tick_failure(error, required);
            &&& answer.record_count == 0
            &&& answer.required_capacity == required
            &&& answer.code == match error {
                EngineTickError::UnknownWorld => 4u32,
                EngineTickError::MissingParameter { .. } => 20u32,
                EngineTickError::Singular => 21u32,
                EngineTickError::NonlinearDidNotConverge { .. } => 22u32,
                EngineTickError::NonFiniteMatrix => 23u32,
                EngineTickError::NonFiniteSolution => 24u32,
                EngineTickError::ResourceExhausted => 25u32,
                EngineTickError::BackendFailure => 26u32,
                EngineTickError::CompilationFailed => 27u32,
                EngineTickError::InternalInvariant => 28u32,
            }
            &&& match error {
                EngineTickError::MissingParameter { device, parameter } => answer.device_id
                    == device.value() && answer.parameter_id == parameter.value()
                    && answer.iterations == 0xFFFF_FFFF,
                EngineTickError::NonlinearDidNotConverge { iterations } => answer.device_id
                    == 0xFFFF_FFFF && answer.parameter_id == 0xFFFF_FFFF && (iterations
                    <= 0xFFFF_FFFF ==> answer.iterations == iterations),
                _ => answer.device_id == 0xFFFF_FFFF && answer.parameter_id == 0xFFFF_FFFF
                    && answer.iterations == 0xFFFF_FFFF,
            }
        }),
{
}

/// A tick is run exactly if its world is known, there is room for a record of every subscription,
/// and a place for them is given where there are any. Else it is told what is missing, and how many
/// records there would be.
pub proof fn law_ticks_run_where_their_records_fit(
    subscriptions: Result<u32, SubscriptionError>,
    capacity: u32,
    missing: bool,
)
    ensures
        ({
            let admission = tick_admission(subscriptions, capacity, missing);
            &&& admission is Ok <==> subscriptions is Ok && subscriptions->Ok_0 <= capacity && (
            subscriptions->Ok_0 == 0 || !missing)
            &&& admission is Ok ==> admission->Ok_0 == subscriptions->Ok_0
            &&& admission is Err ==> admission->Err_0.record_count == 0
            &&& subscriptions is Ok && capacity < subscriptions->Ok_0 ==> admission is Err
                && admission->Err_0.code == 5 && admission->Err_0.required_capacity
                == subscriptions->Ok_0
            &&& subscriptions is Ok && 0 < subscriptions->Ok_0 <= capacity && missing
                ==> admission is Err && admission->Err_0.code == 3
                && admission->Err_0.required_capacity == subscriptions->Ok_0
            &&& subscriptions == Err::<u32, _>(SubscriptionError::UnknownWorld) ==> admission is Err
                && admission->Err_0.code == 4 && admission->Err_0.required_capacity == 0
        }),
        ticked_without(TickCode::Success, capacity).code == 0,
{
}

/// The numbers for what is wrong with a subscription, and for how making a world ended.
pub proof fn law_subscription_and_world_errors_have_fixed_numbers(
    error: SubscriptionError,
    creation: Result<u32, WorldManagementError>,
)
    ensures
        subscription_code(error).number() == match error {
            SubscriptionError::UnknownWorld => 3u32,
            SubscriptionError::UnknownDevice { .. } => 20u32,
            SubscriptionError::UnknownObserver { .. } => 21u32,
            SubscriptionError::IdExhausted => 22u32,
            SubscriptionError::UnknownSubscription { .. } => 23u32,
        },
        creation matches Ok(world_id) ==> creation_result(creation).code == 0 && creation_result(
            creation,
        ).world_id == world_id,
        creation == Err::<u32, _>(WorldManagementError::WorldIdExhausted) ==> creation_result(
            creation,
        ).code == 4,
        creation is Err ==> creation_result(creation).world_id == 0xFFFF_FFFF && creation_result(
            creation,
        ).code != 0,
{
}

/// What a builder refuses is told by the kind of the same meaning.
pub proof fn law_refusals_are_told_by_their_kind(refusal: Refusal)
    ensures
        kind_of(refusal) == match refusal {
            Refusal::UnknownDefinition { .. } => DefinitionRegistrationErrorKind::UnknownDefinition,
            Refusal::TerminalCountMismatch { .. } => DefinitionRegistrationErrorKind::TerminalCountMismatch,
            Refusal::ParameterCountMismatch { .. } => DefinitionRegistrationErrorKind::ParameterCountMismatch,
            Refusal::NodeOutOfRange { .. } => DefinitionRegistrationErrorKind::NodeOutOfRange,
            Refusal::ParameterOutOfRange { .. } => DefinitionRegistrationErrorKind::ParameterOutOfRange,
            Refusal::ParameterConstraint { .. } => DefinitionRegistrationErrorKind::ParameterConstraintViolation,
            Refusal::PrimitiveParameters { .. } => DefinitionRegistrationErrorKind::InvalidPrimitiveParameters,
            Refusal::UnusedInternalNode { .. } => DefinitionRegistrationErrorKind::UnusedInternalNode,
            Refusal::InternalComponentWithoutTerminal { .. } => DefinitionRegistrationErrorKind::DisconnectedInternalComponent,
            Refusal::NodeIdExhausted => DefinitionRegistrationErrorKind::NodeIdExhausted,
            Refusal::ParameterIdExhausted => DefinitionRegistrationErrorKind::ParameterIdExhausted,
            Refusal::ElementIdExhausted => DefinitionRegistrationErrorKind::InvalidDefinition,
            Refusal::DevicePartitionIdExhausted => DefinitionRegistrationErrorKind::DevicePartitionIdExhausted,
        },
{
}

/// What is handed over comes in the order of the fields, the code first.
pub proof fn law_answers_are_handed_over_code_first(
    creation: WorldCreationResult,
    commands: CommandResult,
    tick: TickResult,
    subscription: SubscriptionCreationResult,
)
    ensures
        creation.spec_words() == seq![creation.code, creation.world_id],
        commands.spec_words() == seq![
            commands.code,
            commands.command_index,
            commands.byte_offset,
            commands.reserved,
        ],
        tick.spec_words() == seq![
            tick.code,
            tick.record_count,
            tick.required_capacity,
            tick.device_id,
            tick.parameter_id,
            tick.iterations,
        ],
        subscription.spec_words() == seq![subscription.code, subscription.subscription_id],
{
}

/// A call without an engine is answered with its number for that, whatever else is wrong with it.
/// Only then does a missing input count. A call with both is not answered before it has been tried.
pub proof fn law_missing_engines_come_first(
    engine_missing: bool,
    input_missing: bool,
    commands: Option<CommandResult>,
    first: TickAction,
)
    requires
        call_ensures(check_commands, (engine_missing, input_missing), commands),
        call_ensures(TickAction::first, (engine_missing,), first),
    ensures
        registration_gap(engine_missing, input_missing) is Some <==> engine_missing
            || input_missing,
        engine_missing ==> registration_gap(engine_missing, input_missing)->0.spec_words() == seq![
            1u32,
            0xFFFF_FFFF,
            0xFFFF_FFFF,
            0xFFFF_FFFF,
        ],
        !engine_missing && input_missing ==> registration_gap(
            engine_missing,
            input_missing,
        )->0.spec_words() == seq![2u32, 0xFFFF_FFFF, 0xFFFF_FFFF, 0xFFFF_FFFF],
        commands is Some <==> engine_missing || input_missing,
        engine_missing ==> commands->0.code == 1,
        !engine_missing && input_missing ==> commands->0.code == 2,
        commands is Some ==> commands->0.command_index == 0xFFFF_FFFF && commands->0.byte_offset
            == 0xFFFF_FFFF,
        first is Answer <==> engine_missing,
        engine_missing ==> first->Answer_0.code == 1 && first->Answer_0.record_count == 0,
{
}

/// A world is refused for its frequency exactly if that is zero, else for a missing engine. Whoever
/// subscribes to something on a device without a number, or ends a subscription without one, is
/// told so, unless the engine is missing.
pub proof fn law_calls_with_nothing_to_work_on_are_refused(
    frequency: u32,
    engine_missing: bool,
    number: u32,
    world: Option<WorldCreationResult>,
    subscribed: Result<DeviceId, SubscriptionCreationResult>,
    ended: Option<SubscriptionCode>,
)
    requires
        call_ensures(check_world_creation, (frequency, engine_missing), world),
        call_ensures(check_subscription, (engine_missing, number), subscribed),
        call_ensures(check_unsubscription, (engine_missing, number), ended),
    ensures
        world is Some <==> frequency == 0 || engine_missing,
        world is Some ==> world->0.world_id == 0xFFFF_FFFF,
        frequency == 0 ==> world->0.code == 5,
        frequency != 0 && engine_missing ==> world->0.code == 1,
        subscribed is Ok <==> !engine_missing && number != 0,
        subscribed is Ok ==> subscribed->Ok_0.value() == number,
        subscribed is Err ==> subscribed->Err_0.subscription_id == 0xFFFF_FFFF
            && subscribed->Err_0.code == (if engine_missing {
            1u32
        } else {
            4u32
        }),
        ended is Some <==> engine_missing || number == 0,
        ended is Some ==> ended->0.number() == (if engine_missing {
            1u32
        } else {
            5u32
        }),
{
}

/// The number that unmaking a world is answered with.
pub proof fn law_unmade_worlds_are_answered(
    destruction: Result<(), WorldManagementError>,
    code: WorldCode,
)
    requires
        call_ensures(destruction_code, (destruction,), code),
    ensures
        destruction is Ok <==> code.number() == 0,
        destruction == Err::<(), _>(WorldManagementError::UnknownWorld) ==> code.number() == 3,
{
}

/// The answer to a call for a tick tells what was done. It is a success exactly if the tick was let
/// run and ran; then it counts the records that were written, and else none are. The world advances
/// exactly if the tick was let run, whether or not that succeeds.
pub proof fn law_tick_calls_answer_what_they_did<W, R>(
    count: spec_fn(W) -> Result<u32, SubscriptionError>,
    run: spec_fn(W) -> (W, Result<Seq<R>, EngineTickError>),
    world: W,
    capacity: u32,
    missing: bool,
)
    requires
        count(world) is Ok && run(world).1 is Ok ==> run(world).1->Ok_0.len() <= count(world)->Ok_0,
    ensures
        ({
            let call = tick_call(count, run, world, capacity, missing);
            let let_run = count(world) is Ok && count(world)->Ok_0 <= capacity && (count(
                world,
            )->Ok_0 == 0 || !missing);
            &&& call.answer.code == 0 <==> let_run && run(world).1 is Ok
            &&& call.answer.record_count == call.written.len()
            &&& call.answer.code != 0 ==> call.written.len() == 0
            &&& call.answer.code == 0 ==> call.written == run(world).1->Ok_0
            &&& call.written.len() <= capacity
            &&& let_run ==> call.world == run(world).0 && call.answer.required_capacity == count(
                world,
            )->Ok_0
            &&& !let_run ==> call.world == world
            &&& let_run && run(world).1 is Err ==> call.answer == tick_failure(
                run(world).1->Err_0,
                count(world)->Ok_0,
            )
        }),
{
}

/// The version of the interface and its revision.
pub proof fn law_the_interface_has_one_version(version: u32, revision: u32)
    requires
        call_ensures(hynergy_abi_version, (), version),
        call_ensures(hynergy_abi_revision, (), revision),
    ensures
        version == 1,
        revision == 2,
{
}

/// Without worlds, too, a missing engine comes before a missing input, and this before an input that
/// is too large to count.
pub proof fn law_plain_registrations_check_their_input(
    engine_missing: bool,
    input_missing: bool,
    length: usize,
    result: Option<mna_abi::DefinitionRegistrationResult>,
)
    requires
        call_ensures(
            mna_abi::check_registration,
            (engine_missing, input_missing, length),
            result,
        ),
    ensures
        result is Some <==> engine_missing || input_missing || length > 0xFFFF_FFFF,
        engine_missing ==> result->0.code == 1,
        !engine_missing && input_missing ==> result->0.code == 2,
        !engine_missing && !input_missing && length > 0xFFFF_FFFF ==> result->0.code == 4,
        result is Some ==> result->0.command_index == 0xFFFF_FFFF && result->0.byte_offset
            == 0xFFFF_FFFF,
{
}

} // verus!
