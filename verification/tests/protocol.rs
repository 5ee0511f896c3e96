use hynergy::circuit::ValueRef;
use hynergy::definition::{DeviceBody, DeviceDefinition};
use hynergy::ids::{DefinitionId, ParameterId};
use hynergy::parameter::{Bound, ParameterConstraints};
use hynergy::protocol::{
    decode_definition_buffer, register_definition_buffer, DefinitionRegistrationErrorKind,
    CONSTRAINT_LOWER,
    CONSTRAINT_LOWER_INCLUSIVE,
    CONSTRAINT_NON_ZERO,
    CONSTRAINT_RECIPROCAL_LOWER,
    CONSTRAINT_RECIPROCAL_LOWER_INCLUSIVE,
    CONSTRAINT_RECIPROCAL_RANGE,
    CONSTRAINT_RECIPROCAL_UPPER,
    CONSTRAINT_RECIPROCAL_UPPER_INCLUSIVE,
    CONSTRAINT_UPPER,
    CONSTRAINT_UPPER_INCLUSIVE,
    DEFINITION_BUFFER_MAGIC,
    DEFINITION_BUFFER_VERSION,
    DEFINITION_COMMAND_ADD_ELEMENT,
    DEFINITION_COMMAND_ADD_NODE,
    DEFINITION_COMMAND_ADD_PARAMETER,
    DEFINITION_COMMAND_ADD_TERMINAL,
    DEFINITION_HEADER_LENGTH,
    DEFINITION_VALUE_LITERAL,
    DEFINITION_VALUE_PARAMETER,
};
use hynergy::registry::DefinitionRegistry;

fn bits(value: f64) -> u64 {
    value.to_bits()
}

#[derive(Clone, Copy)]
enum TestValue {
    Literal(f64),
    Parameter(u32),
}

fn command(tag: u16, payload: &[u8]) -> Vec<u8> {
    let mut bytes = Vec::with_capacity(6 + payload.len());
    bytes.extend_from_slice(&tag.to_le_bytes());
    bytes.extend_from_slice(&(payload.len() as u32).to_le_bytes());
    bytes.extend_from_slice(payload);
    bytes
}

fn framed_command(tag: u16, payload_length: u32, payload: &[u8]) -> Vec<u8> {
    let mut bytes = Vec::with_capacity(6 + payload.len());
    bytes.extend_from_slice(&tag.to_le_bytes());
    bytes.extend_from_slice(&payload_length.to_le_bytes());
    bytes.extend_from_slice(payload);
    bytes
}

fn definition_buffer(commands: &[Vec<u8>]) -> Vec<u8> {
    let mut bytes = Vec::new();
    bytes.extend_from_slice(&DEFINITION_BUFFER_MAGIC);
    bytes.extend_from_slice(&DEFINITION_BUFFER_VERSION.to_le_bytes());
    bytes.extend_from_slice(&0_u16.to_le_bytes());
    bytes.extend_from_slice(&0_u32.to_le_bytes()); // reserved
    bytes.extend_from_slice(&(commands.len() as u32).to_le_bytes());

    for command in commands {
        bytes.extend_from_slice(command);
    }

    bytes
}

fn element_payload(device: u32, terminals: &[u32], parameters: &[TestValue]) -> Vec<u8> {
    let mut bytes = Vec::new();
    bytes.extend_from_slice(&device.to_le_bytes());
    bytes.extend_from_slice(&(terminals.len() as u32).to_le_bytes());

    for terminal in terminals {
        bytes.extend_from_slice(&terminal.to_le_bytes());
    }

    bytes.extend_from_slice(&(parameters.len() as u32).to_le_bytes());

    for parameter in parameters {
        match parameter {
            TestValue::Literal(value) => {
                bytes.push(DEFINITION_VALUE_LITERAL);
                bytes.extend_from_slice(&value.to_le_bytes());
            }
            TestValue::Parameter(parameter) => {
                bytes.push(DEFINITION_VALUE_PARAMETER);
                bytes.extend_from_slice(&parameter.to_le_bytes());
            }
        }
    }

    bytes
}

fn constraints_payload(
    lower: Option<Bound>,
    upper: Option<Bound>,
    non_zero: bool,
    reciprocal_range: Option<(Option<Bound>, Option<Bound>)>,
) -> Vec<u8> {
    let mut flags = 0_u16;
    let mut values = Vec::new();

    if let Some(bound) = lower {
        flags |= CONSTRAINT_LOWER;
        if bound.inclusive {
            flags |= CONSTRAINT_LOWER_INCLUSIVE;
        }
        values.extend_from_slice(&bound.value.to_le_bytes());
    }

    if let Some(bound) = upper {
        flags |= CONSTRAINT_UPPER;
        if bound.inclusive {
            flags |= CONSTRAINT_UPPER_INCLUSIVE;
        }
        values.extend_from_slice(&bound.value.to_le_bytes());
    }

    if non_zero {
        flags |= CONSTRAINT_NON_ZERO;
    }

    if let Some((lower, upper)) = reciprocal_range {
        flags |= CONSTRAINT_RECIPROCAL_RANGE;

        if let Some(bound) = lower {
            flags |= CONSTRAINT_RECIPROCAL_LOWER;
            if bound.inclusive {
                flags |= CONSTRAINT_RECIPROCAL_LOWER_INCLUSIVE;
            }
            values.extend_from_slice(&bound.value.to_le_bytes());
        }

        if let Some(bound) = upper {
            flags |= CONSTRAINT_RECIPROCAL_UPPER;
            if bound.inclusive {
                flags |= CONSTRAINT_RECIPROCAL_UPPER_INCLUSIVE;
            }
            values.extend_from_slice(&bound.value.to_le_bytes());
        }
    }

    let mut bytes = Vec::with_capacity(2 + values.len());
    bytes.extend_from_slice(&flags.to_le_bytes());
    bytes.extend_from_slice(&values);
    bytes
}

fn registered_definition(registry: &DefinitionRegistry) -> &DeviceDefinition {
    registry
        .get(DefinitionId::try_from(DefinitionRegistry::COMPOSITE_DEFINITION_ID_BASE).unwrap())
        .unwrap()
}

fn assert_error(
    bytes: &[u8],
    kind: DefinitionRegistrationErrorKind,
    command_index: u32,
    byte_offset: u32,
) {
    let error = register_definition_buffer(&mut DefinitionRegistry::new(), bytes).unwrap_err();

    assert_eq!(error.kind(), kind);
    assert_eq!(error.command_index(), command_index);
    assert_eq!(error.byte_offset(), byte_offset);
}

#[test]
fn empty_definition_registers() {
    let mut registry = DefinitionRegistry::new();

    let definition_id =
        register_definition_buffer(&mut registry, &definition_buffer(&[])).unwrap();

    assert_eq!(definition_id.get(), DefinitionRegistry::COMPOSITE_DEFINITION_ID_BASE);

    let definition = registry.get(definition_id).unwrap();

    assert!(matches!(definition.body(), DeviceBody::Composite(_)));
    assert!(definition.terminals().to_vec().is_empty());
    assert!(definition.parameters().to_vec().is_empty());
}

#[test]
fn truncated_header_reports_input_end() {
    let bytes = definition_buffer(&[]);

    for length in [0, 1, 3, 5, 7, 11, 15] {
        assert_error(
            &bytes[..length],
            DefinitionRegistrationErrorKind::TruncatedInput,
            u32::MAX,
            length as u32,
        );
    }
}

#[test]
fn invalid_header_fields_report_their_offsets() {
    let valid = definition_buffer(&[]);

    let mut invalid_magic = valid.clone();
    invalid_magic[0] = b'X';

    let mut invalid_version = valid.clone();
    invalid_version[4..6].copy_from_slice(&(DEFINITION_BUFFER_VERSION + 1).to_le_bytes());

    let mut invalid_flags = valid.clone();
    invalid_flags[6..8].copy_from_slice(&1_u16.to_le_bytes());

    let mut invalid_reserved = valid;
    invalid_reserved[8..12].copy_from_slice(&1_u32.to_le_bytes());

    for (bytes, kind, offset) in [
        (
            invalid_magic,
            DefinitionRegistrationErrorKind::InvalidMagic,
            0,
        ),
        (
            invalid_version,
            DefinitionRegistrationErrorKind::UnsupportedVersion,
            4,
        ),
        (
            invalid_flags,
            DefinitionRegistrationErrorKind::InvalidFlags,
            6,
        ),
        (
            invalid_reserved,
            DefinitionRegistrationErrorKind::InvalidReserved,
            8,
        ),
    ] {
        assert_error(&bytes, kind, u32::MAX, offset);
    }
}

#[test]
fn truncated_command_frame_reports_command_index() {
    let mut bytes = definition_buffer(&[]);
    bytes[12..16].copy_from_slice(&1_u32.to_le_bytes());

    assert_error(
        &bytes,
        DefinitionRegistrationErrorKind::TruncatedInput,
        0,
        DEFINITION_HEADER_LENGTH as u32,
    );
}

#[test]
fn truncated_command_payload_reports_input_end() {
    let bytes = definition_buffer(&[framed_command(
        DEFINITION_COMMAND_ADD_ELEMENT,
        8,
        &1_u32.to_le_bytes(),
    )]);

    assert_error(
        &bytes,
        DefinitionRegistrationErrorKind::TruncatedInput,
        0,
        26,
    );
}

#[test]
fn unknown_command_reports_command_start() {
    let bytes = definition_buffer(&[command(99, &[])]);

    assert_error(
        &bytes,
        DefinitionRegistrationErrorKind::UnknownCommand,
        0,
        DEFINITION_HEADER_LENGTH as u32,
    );
}

#[test]
fn fixed_empty_payload_commands_reject_nonempty_payloads() {
    for tag in [DEFINITION_COMMAND_ADD_TERMINAL, DEFINITION_COMMAND_ADD_NODE] {
        let bytes = definition_buffer(&[command(tag, &[0])]);

        assert_error(
            &bytes,
            DefinitionRegistrationErrorKind::InvalidCommandLength,
            0,
            DEFINITION_HEADER_LENGTH as u32,
        );
    }
}

#[test]
fn parameter_command_rejects_trailing_payload_bytes() {
    let mut payload = constraints_payload(None, None, false, None);
    payload.push(0);

    let bytes = definition_buffer(&[command(DEFINITION_COMMAND_ADD_PARAMETER, &payload)]);

    assert_error(
        &bytes,
        DefinitionRegistrationErrorKind::InvalidCommandLength,
        0,
        DEFINITION_HEADER_LENGTH as u32,
    );
}

#[test]
fn element_command_rejects_trailing_payload_bytes() {
    let mut payload = element_payload(1, &[], &[]);
    payload.push(0);

    let bytes = definition_buffer(&[command(DEFINITION_COMMAND_ADD_ELEMENT, &payload)]);

    assert_error(
        &bytes,
        DefinitionRegistrationErrorKind::InvalidCommandLength,
        0,
        DEFINITION_HEADER_LENGTH as u32,
    );
}

#[test]
fn parameter_constraints_round_trip() {
    let lower = Bound {
        value: bits(1.0),
        inclusive: false,
    };
    let upper = Bound {
        value: bits(10.0),
        inclusive: true,
    };
    let reciprocal_lower = Bound {
        value: bits(0.1),
        inclusive: true,
    };
    let reciprocal_upper = Bound {
        value: bits(1.0),
        inclusive: false,
    };

    let expected = ParameterConstraints::new(
        Some(lower),
        Some(upper),
        true,
        Some((Some(reciprocal_lower), Some(reciprocal_upper))),
    );

    let commands = [command(
        DEFINITION_COMMAND_ADD_PARAMETER,
        &constraints_payload(
            Some(lower),
            Some(upper),
            true,
            Some((Some(reciprocal_lower), Some(reciprocal_upper))),
        ),
    )];

    let mut registry = DefinitionRegistry::new();

    register_definition_buffer(&mut registry, &definition_buffer(&commands)).unwrap();

    assert_eq!(registered_definition(&registry).parameters().to_vec(), vec![expected]);
}

#[test]
fn invalid_constraint_flags_are_rejected() {
    for flags in [
        1 << 15,
        CONSTRAINT_LOWER_INCLUSIVE,
        CONSTRAINT_UPPER_INCLUSIVE,
        CONSTRAINT_RECIPROCAL_LOWER,
        CONSTRAINT_RECIPROCAL_UPPER,
    ] {
        let bytes = definition_buffer(&[command(
            DEFINITION_COMMAND_ADD_PARAMETER,
            &flags.to_le_bytes(),
        )]);

        assert_error(&bytes, DefinitionRegistrationErrorKind::InvalidFlags, 0, 22);
    }
}

#[test]
fn truncated_constraint_bound_reports_payload_end() {
    let mut payload = Vec::new();
    payload.extend_from_slice(&CONSTRAINT_LOWER.to_le_bytes());
    payload.extend_from_slice(&1_u32.to_le_bytes());

    let bytes = definition_buffer(&[command(DEFINITION_COMMAND_ADD_PARAMETER, &payload)]);

    assert_error(
        &bytes,
        DefinitionRegistrationErrorKind::TruncatedInput,
        0,
        28,
    );
}

#[test]
fn zero_element_definition_id_is_rejected() {
    let bytes = definition_buffer(&[command(
        DEFINITION_COMMAND_ADD_ELEMENT,
        &element_payload(0, &[], &[]),
    )]);

    assert_error(
        &bytes,
        DefinitionRegistrationErrorKind::InvalidDefinitionId,
        0,
        22,
    );
}

#[test]
fn terminal_count_cannot_exceed_command_payload() {
    let mut payload = Vec::new();
    payload.extend_from_slice(&1_u32.to_le_bytes());
    payload.extend_from_slice(&u32::MAX.to_le_bytes());

    let bytes = definition_buffer(&[command(DEFINITION_COMMAND_ADD_ELEMENT, &payload)]);

    assert_error(&bytes, DefinitionRegistrationErrorKind::InvalidCount, 0, 26);
}

#[test]
fn parameter_count_cannot_exceed_command_payload() {
    let mut payload = Vec::new();
    payload.extend_from_slice(&1_u32.to_le_bytes());
    payload.extend_from_slice(&0_u32.to_le_bytes());
    payload.extend_from_slice(&u32::MAX.to_le_bytes());

    let bytes = definition_buffer(&[command(DEFINITION_COMMAND_ADD_ELEMENT, &payload)]);

    assert_error(&bytes, DefinitionRegistrationErrorKind::InvalidCount, 0, 30);
}

#[test]
fn unknown_element_value_kind_is_rejected() {
    let mut payload = Vec::new();
    payload.extend_from_slice(&1_u32.to_le_bytes());
    payload.extend_from_slice(&0_u32.to_le_bytes());
    payload.extend_from_slice(&1_u32.to_le_bytes());
    payload.push(99);
    payload.extend_from_slice(&0_u32.to_le_bytes());

    let bytes = definition_buffer(&[command(DEFINITION_COMMAND_ADD_ELEMENT, &payload)]);

    assert_error(
        &bytes,
        DefinitionRegistrationErrorKind::UnknownValueKind,
        0,
        34,
    );
}

#[test]
fn builder_errors_report_stable_command_locations() {
    let cases = [
        (
            vec![command(
                DEFINITION_COMMAND_ADD_ELEMENT,
                &element_payload(99, &[], &[]),
            )],
            DefinitionRegistrationErrorKind::UnknownDefinition,
        ),
        (
            vec![
                command(DEFINITION_COMMAND_ADD_TERMINAL, &[]),
                command(DEFINITION_COMMAND_ADD_TERMINAL, &[]),
                command(
                    DEFINITION_COMMAND_ADD_ELEMENT,
                    &element_payload(1, &[0], &[TestValue::Literal(1.0)]),
                ),
            ],
            DefinitionRegistrationErrorKind::TerminalCountMismatch,
        ),
        (
            vec![
                command(DEFINITION_COMMAND_ADD_TERMINAL, &[]),
                command(DEFINITION_COMMAND_ADD_TERMINAL, &[]),
                command(
                    DEFINITION_COMMAND_ADD_ELEMENT,
                    &element_payload(1, &[0, 1], &[]),
                ),
            ],
            DefinitionRegistrationErrorKind::ParameterCountMismatch,
        ),
        (
            vec![
                command(DEFINITION_COMMAND_ADD_NODE, &[]),
                command(
                    DEFINITION_COMMAND_ADD_ELEMENT,
                    &element_payload(1, &[0, 1], &[TestValue::Literal(1.0)]),
                ),
            ],
            DefinitionRegistrationErrorKind::NodeOutOfRange,
        ),
        (
            vec![
                command(DEFINITION_COMMAND_ADD_TERMINAL, &[]),
                command(DEFINITION_COMMAND_ADD_TERMINAL, &[]),
                command(
                    DEFINITION_COMMAND_ADD_ELEMENT,
                    &element_payload(1, &[0, 1], &[TestValue::Parameter(0)]),
                ),
            ],
            DefinitionRegistrationErrorKind::ParameterOutOfRange,
        ),
        (
            vec![
                command(DEFINITION_COMMAND_ADD_TERMINAL, &[]),
                command(DEFINITION_COMMAND_ADD_TERMINAL, &[]),
                command(
                    DEFINITION_COMMAND_ADD_ELEMENT,
                    &element_payload(1, &[0, 1], &[TestValue::Literal(f64::NAN)]),
                ),
            ],
            DefinitionRegistrationErrorKind::ParameterConstraintViolation,
        ),
    ];

    for (commands, expected_kind) in cases {
        let command_index = (commands.len() - 1) as u32;
        let byte_offset = DEFINITION_HEADER_LENGTH
            + commands[..commands.len() - 1]
                .iter()
                .map(Vec::len)
                .sum::<usize>();

        let error =
            register_definition_buffer(&mut DefinitionRegistry::new(), &definition_buffer(&commands))
                .unwrap_err();

        assert_eq!(error.kind(), expected_kind);
        assert_eq!(error.command_index(), command_index);
        assert_eq!(error.byte_offset(), byte_offset as u32);
    }
}

#[test]
fn failed_buffer_does_not_register_definition() {
    let mut registry = DefinitionRegistry::new();

    let bytes = definition_buffer(&[
        command(DEFINITION_COMMAND_ADD_TERMINAL, &[]),
        command(99, &[]),
    ]);

    assert_eq!(
        register_definition_buffer(&mut registry, &bytes)
            .unwrap_err()
            .kind(),
        DefinitionRegistrationErrorKind::UnknownCommand
    );

    assert!(
        registry
            .get(DefinitionId::try_from(DefinitionRegistry::COMPOSITE_DEFINITION_ID_BASE).unwrap())
            .is_none()
    );
}

#[test]
fn command_count_larger_than_available_commands_is_rejected() {
    let mut bytes = definition_buffer(&[command(DEFINITION_COMMAND_ADD_NODE, &[])]);
    bytes[12..16].copy_from_slice(&2_u32.to_le_bytes());

    assert_error(
        &bytes,
        DefinitionRegistrationErrorKind::TruncatedInput,
        1,
        22,
    );
}

#[test]
fn bytes_after_declared_commands_are_rejected() {
    let mut bytes = definition_buffer(&[]);
    bytes.extend_from_slice(&command(DEFINITION_COMMAND_ADD_NODE, &[]));

    assert_error(
        &bytes,
        DefinitionRegistrationErrorKind::TrailingBytes,
        0,
        DEFINITION_HEADER_LENGTH as u32,
    );
}

#[test]
fn registration_returns_engine_assigned_definition_ids() {
    let mut registry = DefinitionRegistry::new();

    let first = register_definition_buffer(&mut registry, &definition_buffer(&[])).unwrap();

    let second = register_definition_buffer(&mut registry, &definition_buffer(&[])).unwrap();

    assert_eq!(first.get(), DefinitionRegistry::COMPOSITE_DEFINITION_ID_BASE);

    assert_eq!(second.get(), DefinitionRegistry::COMPOSITE_DEFINITION_ID_BASE + 1);

    assert!(registry.get(first).is_some());
    assert!(registry.get(second).is_some());
}

#[test]
fn decoded_definitions_keep_what_the_commands_say() {
    let mut registry = DefinitionRegistry::new();
    let commands = [
        command(DEFINITION_COMMAND_ADD_TERMINAL, &[]),
        command(DEFINITION_COMMAND_ADD_NODE, &[]),
        command(DEFINITION_COMMAND_ADD_TERMINAL, &[]),
        command(
            DEFINITION_COMMAND_ADD_PARAMETER,
            &constraints_payload(None, None, false, None),
        ),
        command(
            DEFINITION_COMMAND_ADD_ELEMENT,
            &element_payload(1, &[0, 1], &[TestValue::Parameter(0)]),
        ),
        command(
            DEFINITION_COMMAND_ADD_ELEMENT,
            &element_payload(1, &[1, 2], &[TestValue::Literal(2.5)]),
        ),
    ];

    register_definition_buffer(&mut registry, &definition_buffer(&commands)).unwrap();

    let definition = registered_definition(&registry);
    assert_eq!(definition.terminals().to_vec(), vec![0, 2]);
    assert_eq!(
        definition.parameters().to_vec(),
        vec![ParameterConstraints::unrestricted()]
    );
    let DeviceBody::Composite(circuit) = definition.body() else {
        panic!("expected composite definition");
    };
    assert_eq!(circuit.node_count(), 3);
    assert_eq!(circuit.elements().len(), 2);
    assert_eq!(circuit.elements()[0].definition().get(), 1);
    assert_eq!(circuit.elements()[0].terminals().to_vec(), vec![0, 1]);
    assert_eq!(
        circuit.elements()[0].parameters().to_vec(),
        vec![ValueRef::Parameter(ParameterId::new(0))]
    );
    assert_eq!(circuit.elements()[1].terminals().to_vec(), vec![1, 2]);
    assert_eq!(
        circuit.elements()[1].parameters().to_vec(),
        vec![ValueRef::Literal(bits(2.5))]
    );
}

#[test]
fn errors_in_the_whole_definition_are_located_at_the_end() {
    let commands = [
        command(DEFINITION_COMMAND_ADD_TERMINAL, &[]),
        command(DEFINITION_COMMAND_ADD_NODE, &[]),
    ];
    let bytes = definition_buffer(&commands);
    assert_error(
        &bytes,
        DefinitionRegistrationErrorKind::UnusedInternalNode,
        2,
        bytes.len() as u32,
    );

    let commands = [
        command(DEFINITION_COMMAND_ADD_NODE, &[]),
        command(DEFINITION_COMMAND_ADD_NODE, &[]),
        command(
            DEFINITION_COMMAND_ADD_ELEMENT,
            &element_payload(1, &[0, 1], &[TestValue::Literal(1.0)]),
        ),
    ];
    let bytes = definition_buffer(&commands);
    assert_error(
        &bytes,
        DefinitionRegistrationErrorKind::DisconnectedInternalComponent,
        3,
        bytes.len() as u32,
    );
}

#[test]
fn decoding_alone_registers_nothing() {
    let mut registry = DefinitionRegistry::new();
    let bytes = definition_buffer(&[command(DEFINITION_COMMAND_ADD_TERMINAL, &[])]);

    let decoded = decode_definition_buffer(&registry, &bytes).unwrap();
    assert_eq!(decoded.terminals().to_vec(), vec![0]);
    let id = register_definition_buffer(&mut registry, &bytes).unwrap();
    assert_eq!(id.get(), DefinitionRegistry::COMPOSITE_DEFINITION_ID_BASE);
    assert_eq!(registry.get(id), Some(&decoded));
}

#[test]
fn errors_point_at_the_first_fault() {
    let good = command(DEFINITION_COMMAND_ADD_TERMINAL, &[]);
    let bad = command(DEFINITION_COMMAND_ADD_NODE, &[1, 2]);
    let worse = command(99, &[]);
    assert_error(
        &definition_buffer(&[good.clone(), good.clone(), bad, worse]),
        DefinitionRegistrationErrorKind::InvalidCommandLength,
        2,
        28,
    );

    let mut behind = definition_buffer(&[good.clone(), good]);
    behind.push(7);
    assert_error(
        &behind,
        DefinitionRegistrationErrorKind::TrailingBytes,
        2,
        28,
    );
}
