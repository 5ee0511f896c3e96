use hynergy::abi::{
    admit_tick, check_commands, check_registration, check_subscription, check_unsubscription,
    check_world_creation,
    destruction_code, finish_tick, hynergy_abi_revision, hynergy_abi_version, map_registration_error,
    map_subscription_error, map_tick_error, map_world_command_error, register_definition,
    CommandCode, CommandResult, DefinitionRegistrationCode, DefinitionRegistrationResult,
    EngineTickError, SubscriptionCode, SubscriptionCreationResult, SubscriptionError,
    SubscriptionStatusCode, TickAction, TickCode, TickEvent, TickResult, WorldCode, WorldCommandError,
    WorldCommandErrorKind, WorldCreationResult, WorldManagementError, ABI_REVISION, ABI_VERSION,
};
use hynergy::ids::{DefinitionId, DeviceId, ParameterId};
use hynergy::mna_abi;
use hynergy::protocol::decode_definition_buffer;
use hynergy::registry::DefinitionRegistry;
use std::mem::{align_of, size_of};

#[test]
fn subscription_creation_result_layout_is_stable() {
    let result = SubscriptionCreationResult {
        code: 11,
        subscription_id: 14,
    };
    let words = result.words();

    assert_eq!(size_of::<SubscriptionCreationResult>(), 8,);

    assert_eq!(align_of::<SubscriptionCreationResult>(), align_of::<u32>(),);

    assert_eq!(words[0 / 4], result.code);

    assert_eq!(words[4 / 4], result.subscription_id);
}

#[test]
fn tick_result_layout_is_stable() {
    let result = TickResult {
        code: 11,
        record_count: 14,
        required_capacity: 17,
        device_id: 20,
        parameter_id: 23,
        iterations: 26,
    };
    let words = result.words();

    assert_eq!(size_of::<TickResult>(), 24);

    assert_eq!(align_of::<TickResult>(), align_of::<u32>(),);

    assert_eq!(words[0 / 4], result.code);
    assert_eq!(words[4 / 4], result.record_count);

    assert_eq!(words[8 / 4], result.required_capacity);

    assert_eq!(words[12 / 4], result.device_id);

    assert_eq!(words[16 / 4], result.parameter_id);

    assert_eq!(words[20 / 4], result.iterations);
}

#[test]
fn definition_registration_result_layout_is_stable() {
    let result = DefinitionRegistrationResult {
        code: 11,
        command_index: 14,
        byte_offset: 17,
        definition_id: 20,
    };
    let words = result.words();

    assert_eq!(size_of::<DefinitionRegistrationResult>(), 16,);

    assert_eq!(
        align_of::<DefinitionRegistrationResult>(),
        align_of::<u32>(),
    );

    assert_eq!(words[0 / 4], result.code);
    assert_eq!(words[4 / 4], result.command_index);
    assert_eq!(words[8 / 4], result.byte_offset);
    assert_eq!(words[12 / 4], result.definition_id);
}

#[test]
fn world_creation_result_layout_is_stable() {
    let result = WorldCreationResult {
        code: 11,
        world_id: 14,
    };
    let words = result.words();

    assert_eq!(size_of::<WorldCreationResult>(), 8);
    assert_eq!(align_of::<WorldCreationResult>(), align_of::<u32>(),);
    assert_eq!(words[0 / 4], result.code);
    assert_eq!(words[4 / 4], result.world_id);
}

#[test]
fn command_result_layout_is_stable() {
    let result = CommandResult {
        code: 11,
        command_index: 14,
        byte_offset: 17,
        reserved: 20,
    };
    let words = result.words();

    assert_eq!(size_of::<CommandResult>(), 16);
    assert_eq!(align_of::<CommandResult>(), align_of::<u32>(),);
    assert_eq!(words[0 / 4], result.code);
    assert_eq!(words[4 / 4], result.command_index);
    assert_eq!(words[8 / 4], result.byte_offset);
    assert_eq!(words[12 / 4], result.reserved);
}

#[test]
fn abi_code_values_are_stable() {
    assert_eq!(DefinitionRegistrationCode::Success.value(), 0);
    assert_eq!(DefinitionRegistrationCode::NullEngine.value(), 1);
    assert_eq!(DefinitionRegistrationCode::NullInput.value(), 2);
    assert_eq!(DefinitionRegistrationCode::NullResult.value(), 3);
    assert_eq!(DefinitionRegistrationCode::InputTooLarge.value(), 4);
    assert_eq!(DefinitionRegistrationCode::InvalidMagic.value(), 5);
    assert_eq!(DefinitionRegistrationCode::UnsupportedVersion.value(), 6);
    assert_eq!(DefinitionRegistrationCode::InvalidFlags.value(), 7);
    assert_eq!(DefinitionRegistrationCode::TruncatedInput.value(), 8);
    assert_eq!(DefinitionRegistrationCode::UnknownCommand.value(), 9);
    assert_eq!(DefinitionRegistrationCode::InvalidCommandLength.value(), 10);
    assert_eq!(DefinitionRegistrationCode::InvalidCount.value(), 11);
    assert_eq!(DefinitionRegistrationCode::UnknownValueKind.value(), 12);
    assert_eq!(DefinitionRegistrationCode::TrailingBytes.value(), 13);
    assert_eq!(DefinitionRegistrationCode::InvalidReserved.value(), 14);
    assert_eq!(DefinitionRegistrationCode::InvalidDefinitionId.value(), 15);
    assert_eq!(DefinitionRegistrationCode::UnknownDefinition.value(), 20);
    assert_eq!(DefinitionRegistrationCode::TerminalCountMismatch.value(), 21);
    assert_eq!(DefinitionRegistrationCode::ParameterCountMismatch.value(), 22);
    assert_eq!(DefinitionRegistrationCode::NodeOutOfRange.value(), 23);
    assert_eq!(DefinitionRegistrationCode::ParameterOutOfRange.value(), 24);
    assert_eq!(DefinitionRegistrationCode::ParameterConstraintViolation.value(), 25);
    assert_eq!(DefinitionRegistrationCode::NodeIdExhausted.value(), 26);
    assert_eq!(DefinitionRegistrationCode::ParameterIdExhausted.value(), 27);
    assert_eq!(DefinitionRegistrationCode::DefinitionIdExhausted.value(), 28);
    assert_eq!(DefinitionRegistrationCode::InvalidDefinition.value(), 29);
    assert_eq!(DefinitionRegistrationCode::InvalidPrimitiveParameters.value(), 30);
    assert_eq!(DefinitionRegistrationCode::UnusedInternalNode.value(), 31);
    assert_eq!(DefinitionRegistrationCode::DisconnectedInternalComponent.value(), 32);
    assert_eq!(DefinitionRegistrationCode::IncompatibleParameterConstraints.value(), 33);
    assert_eq!(DefinitionRegistrationCode::UnusedParameter.value(), 34);
    assert_eq!(DefinitionRegistrationCode::DevicePartitionIdExhausted.value(), 35);
    assert_eq!(DefinitionRegistrationCode::StateCountExhausted.value(), 36);
    assert_eq!(DefinitionRegistrationCode::InternalPanic.value(), u32::MAX);

    assert_eq!(WorldCode::Success.value(), 0);
    assert_eq!(WorldCode::NullEngine.value(), 1);
    assert_eq!(WorldCode::NullResult.value(), 2);
    assert_eq!(WorldCode::UnknownWorld.value(), 3);
    assert_eq!(WorldCode::WorldIdExhausted.value(), 4);
    assert_eq!(WorldCode::InvalidTickFrequency.value(), 5);
    assert_eq!(WorldCode::InternalPanic.value(), u32::MAX);

    assert_eq!(CommandCode::Success.value(), 0);
    assert_eq!(CommandCode::NullEngine.value(), 1);
    assert_eq!(CommandCode::NullInput.value(), 2);
    assert_eq!(CommandCode::NullResult.value(), 3);
    assert_eq!(CommandCode::InputTooLarge.value(), 4);
    assert_eq!(CommandCode::InvalidMagic.value(), 5);
    assert_eq!(CommandCode::UnsupportedVersion.value(), 6);
    assert_eq!(CommandCode::InvalidFlags.value(), 7);
    assert_eq!(CommandCode::InvalidReserved.value(), 8);
    assert_eq!(CommandCode::TruncatedInput.value(), 9);
    assert_eq!(CommandCode::UnknownCommand.value(), 10);
    assert_eq!(CommandCode::InvalidCommandLength.value(), 11);
    assert_eq!(CommandCode::InvalidId.value(), 12);
    assert_eq!(CommandCode::TrailingBytes.value(), 13);
    assert_eq!(CommandCode::UnknownWorld.value(), 14);
    assert_eq!(CommandCode::IdOutOfBound.value(), 20);
    assert_eq!(CommandCode::IdExceeds31Bit.value(), 21);
    assert_eq!(CommandCode::IdAlreadyAssigned.value(), 22);
    assert_eq!(CommandCode::IdNotAssigned.value(), 23);
    assert_eq!(CommandCode::WireConnectToSelf.value(), 24);
    assert_eq!(CommandCode::AlreadyConnected.value(), 25);
    assert_eq!(CommandCode::NotConnected.value(), 26);
    assert_eq!(CommandCode::TerminalAlreadyConnected.value(), 27);
    assert_eq!(CommandCode::InvalidTerminal.value(), 28);
    assert_eq!(CommandCode::InvalidParameter.value(), 29);
    assert_eq!(CommandCode::ParameterConstraintViolation.value(), 30);
    assert_eq!(CommandCode::UnknownDefinition.value(), 31);
    assert_eq!(CommandCode::InternalPanic.value(), u32::MAX);

    assert_eq!(SubscriptionCode::Success.value(), 0);
    assert_eq!(SubscriptionCode::NullEngine.value(), 1);
    assert_eq!(SubscriptionCode::NullResult.value(), 2);
    assert_eq!(SubscriptionCode::UnknownWorld.value(), 3);
    assert_eq!(SubscriptionCode::InvalidDeviceId.value(), 4);
    assert_eq!(SubscriptionCode::InvalidSubscriptionId.value(), 5);
    assert_eq!(SubscriptionCode::UnknownDevice.value(), 20);
    assert_eq!(SubscriptionCode::UnknownObserver.value(), 21);
    assert_eq!(SubscriptionCode::IdExhausted.value(), 22);
    assert_eq!(SubscriptionCode::UnknownSubscription.value(), 23);
    assert_eq!(SubscriptionCode::InternalPanic.value(), u32::MAX);

    assert_eq!(SubscriptionStatusCode::Available.value(), 0);

    assert_eq!(TickCode::Success.value(), 0);
    assert_eq!(TickCode::NullEngine.value(), 1);
    assert_eq!(TickCode::NullResult.value(), 2);
    assert_eq!(TickCode::NullOutput.value(), 3);
    assert_eq!(TickCode::UnknownWorld.value(), 4);
    assert_eq!(TickCode::BufferTooSmall.value(), 5);
    assert_eq!(TickCode::MissingParameter.value(), 20);
    assert_eq!(TickCode::Singular.value(), 21);
    assert_eq!(TickCode::NonlinearDidNotConverge.value(), 22);
    assert_eq!(TickCode::NonFiniteMatrix.value(), 23);
    assert_eq!(TickCode::NonFiniteSolution.value(), 24);
    assert_eq!(TickCode::ResourceExhausted.value(), 25);
    assert_eq!(TickCode::BackendFailure.value(), 26);
    assert_eq!(TickCode::CompilationFailed.value(), 27);
    assert_eq!(TickCode::InternalInvariant.value(), 28);
    assert_eq!(TickCode::InternalPanic.value(), u32::MAX);
}

#[test]
fn abi_version_and_revision_are_stable() {
    assert_eq!(hynergy_abi_version(), ABI_VERSION);
    assert_eq!(ABI_VERSION, 1);

    assert_eq!(hynergy_abi_revision(), ABI_REVISION);
    assert_eq!(ABI_REVISION, 2);
}

const EMPTY_DEFINITION: [u8; 16] = [b'H', b'Y', b'D', b'F', 1, 0, 0, 0, 0, 0, 0, 0, 0, 0, 0, 0];

fn definition_buffer() -> Vec<u8> {
    EMPTY_DEFINITION.to_vec()
}

fn definition_command(tag: u16, payload: &[u8]) -> Vec<u8> {
    let mut bytes = Vec::with_capacity(6 + payload.len());
    bytes.extend_from_slice(&tag.to_le_bytes());
    bytes.extend_from_slice(&(payload.len() as u32).to_le_bytes());
    bytes.extend_from_slice(payload);
    bytes
}

fn definition_buffer_with_commands(commands: &[Vec<u8>]) -> Vec<u8> {
    let mut bytes = definition_buffer();
    bytes[12..16].copy_from_slice(&(commands.len() as u32).to_le_bytes());
    for command in commands {
        bytes.extend_from_slice(command);
    }
    bytes
}

fn engine_missing() -> DefinitionRegistrationResult {
    DefinitionRegistrationResult {
        code: DefinitionRegistrationCode::NullEngine.value(),
        command_index: u32::MAX,
        byte_offset: u32::MAX,
        definition_id: u32::MAX,
    }
}

#[test]
fn definition_registration_returns_assigned_ids() {
    let mut registry = DefinitionRegistry::new();
    let bytes = definition_buffer();

    let first = register_definition(&mut registry, &bytes);
    let second = register_definition(&mut registry, &bytes);

    assert_eq!(
        first,
        DefinitionRegistrationResult {
            code: DefinitionRegistrationCode::Success.value(),
            command_index: u32::MAX,
            byte_offset: u32::MAX,
            definition_id: DefinitionRegistry::COMPOSITE_DEFINITION_ID_BASE,
        }
    );

    assert_eq!(
        second,
        DefinitionRegistrationResult {
            code: DefinitionRegistrationCode::Success.value(),
            command_index: u32::MAX,
            byte_offset: u32::MAX,
            definition_id: DefinitionRegistry::COMPOSITE_DEFINITION_ID_BASE + 1,
        }
    );
}

#[test]
fn definition_registration_maps_protocol_errors() {
    let mut registry = DefinitionRegistry::new();
    let mut bytes = definition_buffer();
    bytes[0] = b'X';

    assert_eq!(
        register_definition(&mut registry, &bytes),
        DefinitionRegistrationResult {
            code: DefinitionRegistrationCode::InvalidMagic.value(),
            command_index: u32::MAX,
            byte_offset: 0,
            definition_id: u32::MAX
        }
    );
}

#[test]
fn definition_registration_reports_null_engine() {
    assert_eq!(check_registration(true, false), Some(engine_missing()));
    assert_eq!(check_registration(true, true), Some(engine_missing()));
    assert_eq!(check_registration(false, false), None);
}

#[test]
fn definition_registration_reports_null_input() {
    assert_eq!(
        check_registration(false, true),
        Some(DefinitionRegistrationResult {
            code: DefinitionRegistrationCode::NullInput.value(),
            command_index: u32::MAX,
            byte_offset: u32::MAX,
            definition_id: u32::MAX
        })
    );
}

#[test]
fn definition_registration_preserves_build_error_location() {
    const ADD_TERMINAL: u16 = 1;
    const ADD_NODE: u16 = 2;

    let mut registry = DefinitionRegistry::new();

    let commands = vec![
        definition_command(ADD_TERMINAL, &[]),
        definition_command(ADD_NODE, &[]),
    ];

    let bytes = definition_buffer_with_commands(&commands);

    assert_eq!(
        register_definition(&mut registry, &bytes),
        DefinitionRegistrationResult {
            code: DefinitionRegistrationCode::UnusedInternalNode.value(),
            command_index: commands.len() as u32,
            byte_offset: bytes.len() as u32,
            definition_id: u32::MAX,
        }
    );
}

#[test]
fn registration_reports_primitive_parameters_where_they_are() {
    let mut registry = DefinitionRegistry::new();
    let mut commands = vec![
        definition_command(1, &[]),
        definition_command(1, &[]),
        definition_command(1, &[]),
    ];
    let element_offset = 16 + commands.iter().map(Vec::len).sum::<usize>();
    let mut payload = Vec::new();
    for word in [10_u32, 3, 0, 1, 2, 4] {
        payload.extend_from_slice(&word.to_le_bytes());
    }
    for value in [5.0_f64, 2.0, 10.0, 1.0] {
        payload.push(0);
        payload.extend_from_slice(&value.to_le_bytes());
    }
    commands.push(definition_command(4, &payload));

    assert_eq!(
        register_definition(&mut registry, &definition_buffer_with_commands(&commands)),
        DefinitionRegistrationResult {
            code: DefinitionRegistrationCode::InvalidPrimitiveParameters.value(),
            command_index: 3,
            byte_offset: element_offset as u32,
            definition_id: u32::MAX,
        }
    );
}

#[test]
fn create_world_reports_null_engine() {
    assert_eq!(
        check_world_creation(20, true),
        Some(WorldCreationResult {
            code: WorldCode::NullEngine.value(),
            world_id: u32::MAX
        })
    );
    assert_eq!(
        check_world_creation(0, true),
        Some(WorldCreationResult {
            code: WorldCode::InvalidTickFrequency.value(),
            world_id: u32::MAX
        })
    );
    assert_eq!(check_world_creation(20, false), None);
}

#[test]
fn worlds_report_how_they_end() {
    assert_eq!(WorldCreationResult::of(Ok(7)), WorldCreationResult::success(7));
    assert_eq!(
        WorldCreationResult::of(Err(WorldManagementError::WorldIdExhausted)),
        WorldCreationResult::failure(WorldCode::WorldIdExhausted)
    );
    assert_eq!(destruction_code(Ok(())), WorldCode::Success);
    assert_eq!(
        destruction_code(Err(WorldManagementError::UnknownWorld)),
        WorldCode::UnknownWorld
    );
}

#[test]
fn apply_commands_reports_null_engine() {
    let expected = CommandResult {
        code: CommandCode::NullEngine.value(),
        command_index: u32::MAX,
        byte_offset: u32::MAX,
        reserved: 0,
    };
    assert_eq!(check_commands(true, false), Some(expected));
    assert_eq!(check_commands(true, true), Some(expected));
    assert_eq!(check_commands(false, false), None);
    assert_eq!(
        check_commands(false, true),
        Some(CommandResult {
            code: CommandCode::NullInput.value(),
            ..expected
        })
    );
    assert_eq!(CommandResult::success().words(), [0, u32::MAX, u32::MAX, 0]);
}

#[test]
fn command_errors_keep_their_location() {
    let error = WorldCommandError {
        kind: WorldCommandErrorKind::IdAlreadyAssigned,
        command_index: 3,
        byte_offset: 40,
    };
    assert_eq!(map_world_command_error(error).words(), [22, 3, 40, 0]);
}

#[test]
fn tick_errors_name_what_failed() {
    let missing = EngineTickError::MissingParameter {
        device: DeviceId::try_from(5).unwrap(),
        parameter: ParameterId::new(2),
    };
    assert_eq!(
        map_tick_error(missing, 9).words(),
        [20, 0, 9, 5, 2, u32::MAX]
    );
    let diverged = EngineTickError::NonlinearDidNotConverge { iterations: 16 };
    assert_eq!(
        map_tick_error(diverged, 1).words(),
        [22, 0, 1, u32::MAX, u32::MAX, 16]
    );
    assert_eq!(
        map_tick_error(EngineTickError::Singular, 0).words(),
        [21, 0, 0, u32::MAX, u32::MAX, u32::MAX]
    );
}

#[test]
fn ticks_need_room_for_all_records() {
    assert_eq!(admit_tick(Ok(2), 2, false), Ok(2));
    assert_eq!(admit_tick(Ok(0), 0, true), Ok(0));
    assert_eq!(
        admit_tick(Ok(2), 1, false),
        Err(TickResult::failure(TickCode::BufferTooSmall, 2))
    );
    assert_eq!(
        admit_tick(Ok(2), 2, true),
        Err(TickResult::failure(TickCode::NullOutput, 2))
    );
    assert_eq!(
        admit_tick(Err(SubscriptionError::UnknownWorld), 2, false),
        Err(TickResult::failure(TickCode::UnknownWorld, 0))
    );
    assert_eq!(
        admit_tick(Err(SubscriptionError::IdExhausted), 2, false),
        Err(TickResult::failure(TickCode::InternalInvariant, 0))
    );
    assert_eq!(
        finish_tick(Ok(1), 2).words(),
        [0, 1, 2, u32::MAX, u32::MAX, u32::MAX]
    );
    assert_eq!(
        finish_tick(Err(EngineTickError::BackendFailure), 2),
        TickResult::failure(TickCode::BackendFailure, 2)
    );
}

#[test]
fn subscriptions_check_their_device() {
    assert_eq!(
        check_subscription(false, 4).map(|device| device.get()),
        Ok(4)
    );
    assert_eq!(
        check_subscription(false, 0),
        Err(SubscriptionCreationResult::failure(
            SubscriptionCode::InvalidDeviceId
        ))
    );
    assert_eq!(
        check_subscription(true, 0),
        Err(SubscriptionCreationResult::failure(
            SubscriptionCode::NullEngine
        ))
    );
    assert_eq!(
        check_unsubscription(true, 0),
        Some(SubscriptionCode::NullEngine)
    );
    assert_eq!(
        check_unsubscription(false, 0),
        Some(SubscriptionCode::InvalidSubscriptionId)
    );
    assert_eq!(check_unsubscription(false, 1), None);
    assert_eq!(
        map_subscription_error(SubscriptionError::UnknownSubscription { subscription: 3 }),
        SubscriptionCode::UnknownSubscription
    );
}

#[test]
fn registration_errors_carry_over() {
    let error = decode_definition_buffer(&DefinitionRegistry::new(), &[b'H']).unwrap_err();

    assert_eq!(
        map_registration_error(error).words(),
        [8, u32::MAX, 1, u32::MAX]
    );
    assert_eq!(
        mna_abi::map_registration_error(error).words(),
        [8, u32::MAX, 1]
    );
}

#[test]
fn abi_version_is_stable() {
    assert_eq!(hynergy_abi_version(), 1);
}

#[test]
fn registration_result_has_stable_c_layout() {
    assert_eq!(size_of::<mna_abi::DefinitionRegistrationResult>(), 12);
    assert_eq!(
        align_of::<mna_abi::DefinitionRegistrationResult>(),
        align_of::<u32>()
    );
}

#[test]
fn registration_reports_success_through_the_abi() {
    let mut registry = DefinitionRegistry::new();

    assert_eq!(
        mna_abi::register_definition(&mut registry, &EMPTY_DEFINITION),
        mna_abi::DefinitionRegistrationResult {
            code: mna_abi::DefinitionRegistrationCode::Success.value(),
            command_index: u32::MAX,
            byte_offset: u32::MAX,
        }
    );
}

#[test]
fn registration_maps_protocol_errors_to_stable_abi_results() {
    let mut registry = DefinitionRegistry::new();
    let mut bytes = EMPTY_DEFINITION;
    bytes[0] = b'X';

    assert_eq!(
        mna_abi::register_definition(&mut registry, &bytes),
        mna_abi::DefinitionRegistrationResult {
            code: mna_abi::DefinitionRegistrationCode::InvalidMagic.value(),
            command_index: u32::MAX,
            byte_offset: 0,
        }
    );
}

#[test]
fn smaller_interface_checks_what_is_missing_or_too_large() {
    let result = |code: mna_abi::DefinitionRegistrationCode| {
        Some(mna_abi::DefinitionRegistrationResult {
            code: code.value(),
            command_index: u32::MAX,
            byte_offset: u32::MAX,
        })
    };
    assert_eq!(
        mna_abi::check_registration(true, false, 16),
        result(mna_abi::DefinitionRegistrationCode::NullEngine)
    );
    assert_eq!(
        mna_abi::check_registration(false, true, 0),
        result(mna_abi::DefinitionRegistrationCode::NullInput)
    );
    assert_eq!(
        mna_abi::check_registration(false, false, usize::MAX),
        result(mna_abi::DefinitionRegistrationCode::InputTooLarge)
    );
    assert_eq!(mna_abi::check_registration(false, false, 16), None);
}

#[test]
fn results_of_the_smaller_interface_keep_their_order() {
    let solved = mna_abi::SolveResult {
        code: 1,
        publication_count: 2,
        required_capacity: 3,
        dirty_island_count: 4,
        solved_island_count: 5,
        failed_island_count: 6,
    };
    assert_eq!(solved.words(), [1, 2, 3, 4, 5, 6]);
    let applied = mna_abi::CommandResult {
        code: 1,
        command_index: 2,
        byte_offset: 3,
        applied_command_count: 4,
    };
    assert_eq!(applied.words(), [1, 2, 3, 4]);
    let created = mna_abi::WorldCreationResult {
        code: 1,
        world_id: 2,
    };
    assert_eq!(created.words(), [1, 2]);
}

/// Counts up with every tick. All subscriptions are updated.
struct CountingWorld {
    subscriptions: u32,
    ticks: u32,
}

fn tick(world: &mut CountingWorld, capacity: u32, written: &mut Vec<u32>) -> TickResult {
    let mut action = TickAction::first(false);
    loop {
        let event = match action {
            TickAction::Answer(answer) => return answer,
            TickAction::Count => TickEvent::Counted(Ok(world.subscriptions)),
            TickAction::Run { .. } => {
                world.ticks += 1;
                TickEvent::Ran(Ok(world.subscriptions))
            }
            TickAction::Write { updates, .. } => {
                for _ in 0..updates {
                    written.push(world.ticks);
                }
                TickEvent::Written
            }
        };
        action = action.next(event, capacity, false);
    }
}

#[test]
fn refused_ticks_change_nothing() {
    let mut world = CountingWorld {
        subscriptions: 3,
        ticks: 0,
    };
    let mut written = Vec::new();

    assert_eq!(
        tick(&mut world, 2, &mut written).words(),
        [5, 0, 3, u32::MAX, u32::MAX, u32::MAX]
    );
    assert_eq!(world.ticks, 0);
    assert!(written.is_empty());

    assert_eq!(
        tick(&mut world, 3, &mut written).words(),
        [0, 3, 3, u32::MAX, u32::MAX, u32::MAX]
    );
    assert_eq!(written, vec![1, 1, 1]);
}

#[test]
fn ticks_without_an_engine_are_answered_at_once() {
    assert_eq!(
        TickAction::first(true),
        TickAction::Answer(TickResult::failure(TickCode::NullEngine, 0))
    );
    let failed = TickAction::Run { required: 4 }.next(
        TickEvent::Ran(Err(EngineTickError::Singular)),
        4,
        false,
    );
    assert_eq!(
        failed,
        TickAction::Answer(TickResult::failure(TickCode::Singular, 4))
    );
}

#[test]
fn registration_keeps_the_definition_that_the_buffer_describes() {
    let commands = vec![definition_command(1, &[]), definition_command(1, &[])];
    let bytes = definition_buffer_with_commands(&commands);

    let mut registry = DefinitionRegistry::new();
    let result = register_definition(&mut registry, &bytes);
    let id = DefinitionId::try_from(result.definition_id).unwrap();
    let definition = registry.get(id).unwrap();
    assert_eq!(definition.terminals().to_vec(), vec![0, 1]);
    assert_eq!(definition.partition_count(), 2);
    assert_eq!(definition.parameters().to_vec().len(), 0);

    let mut registry = DefinitionRegistry::new();
    let result = mna_abi::register_definition(&mut registry, &bytes);
    assert_eq!(
        result.code,
        mna_abi::DefinitionRegistrationCode::Success.value()
    );
    let id = DefinitionId::try_from(DefinitionRegistry::COMPOSITE_DEFINITION_ID_BASE).unwrap();
    let definition = registry.get(id).unwrap();
    assert_eq!(definition.terminals().to_vec(), vec![0, 1]);
    assert_eq!(definition.partition_count(), 2);
}
