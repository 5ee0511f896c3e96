use hynergy::builder::{DeviceDefinitionBuilder, DeviceDefinitionBuilderError};
use hynergy::circuit::{Circuit, Element, ValueRef};
use hynergy::definition::{
    DeviceBody, DeviceDefinition, PrimitiveElementKind, PrimitiveParameterError,
};
use hynergy::ids::{DefinitionId, NodeId, ParameterId, TerminalPartitionId};
use hynergy::parameter::{Bound, ParameterConstraintError, ParameterConstraints};
use hynergy::registry::{DefinitionRegistry, RegisterDeviceError};

fn bits(value: f64) -> u64 {
    value.to_bits()
}

fn composite_definition() -> DeviceDefinition {
    DeviceDefinition::new_composite(
        Circuit::new(2, Vec::new()),
        vec![NodeId::new(0), NodeId::new(1)],
        Vec::new(),
        vec![TerminalPartitionId::new(0), TerminalPartitionId::new(0)],
    )
}

#[test]
fn voltage_controlled_switch_requires_gmax_above_gmin() {
    let kind = PrimitiveElementKind::VoltageControlledSwitch;

    assert_eq!(
        kind.validate_parameters(&[
            bits(5.0),  // threshold
            bits(1.0),  // hysteresis
            bits(10.0), // G_max
            bits(0.01), // G_min
        ]),
        Ok(())
    );

    assert_eq!(
        kind.validate_parameters(&[bits(5.0), bits(1.0), bits(0.01), bits(0.01),]),
        Err(PrimitiveParameterError::ParameterMustBeGreater {
            greater: 2,
            lesser: 3,
        })
    );
}

#[test]
fn voltage_controlled_conductance_requires_gmax_above_gmin() {
    let kind = PrimitiveElementKind::VoltageControlledConductance;

    assert_eq!(
        kind.validate_parameters(&[
            bits(5.0),  // V_threshold
            bits(2.0),  // V_transition
            bits(0.01), // G_min
            bits(10.0), // G_max
        ]),
        Ok(())
    );

    assert_eq!(
        kind.validate_parameters(&[bits(5.0), bits(2.0), bits(10.0), bits(1.0),]),
        Err(PrimitiveParameterError::ParameterMustBeGreater {
            greater: 3,
            lesser: 2,
        })
    );
}

#[test]
fn primitive_count_matches_last_discriminant() {
    assert_eq!(
        PrimitiveElementKind::COUNT,
        PrimitiveElementKind::TickDelay.discriminant() + 1,
    );
}

#[test]
fn primitive_definitions_are_registered_under_their_kind_ids() {
    let registry = DefinitionRegistry::new();

    for (index, kind) in PrimitiveElementKind::all().into_iter().enumerate() {
        let expected = (index + 1) as u32;
        let id = DefinitionId::from(kind);

        assert_eq!(id.get(), expected);

        assert!(matches!(
            registry.get(id).map(DeviceDefinition::body),
            Some(DeviceBody::Primitive(actual))
                if *actual == kind
        ));
    }
}

#[test]
fn composite_ids_start_after_primitives_and_are_sequential() {
    let mut registry = DefinitionRegistry::new();

    assert_eq!(
        DefinitionRegistry::COMPOSITE_DEFINITION_ID_BASE,
        PrimitiveElementKind::COUNT + 1,
    );

    let first = registry.register(composite_definition()).unwrap();
    let second = registry.register(composite_definition()).unwrap();

    assert_eq!(
        first.get(),
        DefinitionRegistry::COMPOSITE_DEFINITION_ID_BASE
    );
    assert_eq!(second.get(), first.get() + 1);

    assert!(registry.get(first).is_some());
    assert!(registry.get(second).is_some());
}

#[test]
fn rejected_registration_does_not_consume_an_id() {
    let mut registry = DefinitionRegistry::new();

    let primitive = PrimitiveElementKind::Conductance.definition();
    assert_eq!(
        registry.get(DefinitionId::from(PrimitiveElementKind::Conductance)),
        Some(&primitive)
    );

    assert_eq!(
        registry.register(primitive),
        Err(RegisterDeviceError::PrimitiveRegistrationForbidden {
            kind: PrimitiveElementKind::Conductance,
        })
    );

    let first = registry.register(composite_definition()).unwrap();

    assert_eq!(
        first.get(),
        DefinitionRegistry::COMPOSITE_DEFINITION_ID_BASE
    );

    assert!(matches!(
        registry.get(first).map(DeviceDefinition::body),
        Some(DeviceBody::Composite(_))
    ));
}

#[test]
fn derives_single_partition_through_series_elements() {
    let registry = DefinitionRegistry::new();
    let mut builder = DeviceDefinitionBuilder::new(&registry);

    let a = builder.add_terminal().unwrap();
    let b = builder.add_terminal().unwrap();
    let c = builder.add_terminal().unwrap();

    builder
        .add_element(Element::new(
            DefinitionId::from(PrimitiveElementKind::Resistance),
            vec![a, b],
            vec![ValueRef::Literal(bits(1.0))],
        ))
        .unwrap();

    builder
        .add_element(Element::new(
            DefinitionId::from(PrimitiveElementKind::Resistance),
            vec![b, c],
            vec![ValueRef::Literal(bits(1.0))],
        ))
        .unwrap();

    let definition = builder.build_definition().unwrap();

    assert_eq!(
        definition.terminal_partitions().to_vec(),
        vec![0, 0, 0]
    );
}

#[test]
fn tick_delay_produces_two_partitions() {
    let registry = DefinitionRegistry::new();
    let mut builder = DeviceDefinitionBuilder::new(&registry);

    let input_positive = builder.add_terminal().unwrap();
    let input_negative = builder.add_terminal().unwrap();
    let output_positive = builder.add_terminal().unwrap();
    let output_negative = builder.add_terminal().unwrap();

    builder
        .add_element(Element::new(
            DefinitionId::from(PrimitiveElementKind::TickDelay),
            vec![
                input_positive,
                input_negative,
                output_positive,
                output_negative,
            ],
            vec![ValueRef::Literal(bits(0.0))],
        ))
        .unwrap();

    let definition = builder.build_definition().unwrap();

    assert_eq!(
        definition.terminal_partitions().to_vec(),
        vec![0, 0, 1, 1]
    );
}

#[test]
fn rejects_unused_internal_node() {
    let registry = DefinitionRegistry::new();
    let mut builder = DeviceDefinitionBuilder::new(&registry);

    let a = builder.add_terminal().unwrap();
    let b = builder.add_terminal().unwrap();
    let unused = builder.add_node().unwrap();

    builder
        .add_element(Element::new(
            DefinitionId::from(PrimitiveElementKind::Resistance),
            vec![a, b],
            vec![ValueRef::Literal(bits(1.0))],
        ))
        .unwrap();

    assert!(matches!(
        builder.build_definition(),
        Err(DeviceDefinitionBuilderError::UnusedInternalNode { node })
            if node == unused
    ));
}

#[test]
fn rejects_internal_component_without_exposed_terminal() {
    let registry = DefinitionRegistry::new();
    let mut builder = DeviceDefinitionBuilder::new(&registry);

    let a = builder.add_terminal().unwrap();
    let b = builder.add_terminal().unwrap();

    let internal_a = builder.add_node().unwrap();
    let internal_b = builder.add_node().unwrap();

    builder
        .add_element(Element::new(
            DefinitionId::from(PrimitiveElementKind::Resistance),
            vec![a, b],
            vec![ValueRef::Literal(bits(1.0))],
        ))
        .unwrap();

    builder
        .add_element(Element::new(
            DefinitionId::from(PrimitiveElementKind::Resistance),
            vec![internal_a, internal_b],
            vec![ValueRef::Literal(bits(1.0))],
        ))
        .unwrap();

    assert!(matches!(
        builder.build_definition(),
        Err(
            DeviceDefinitionBuilderError::InternalComponentWithoutTerminal {
                node
            }
        ) if node == internal_a
    ));
}

#[test]
fn validates_literal_primitive_parameter_relations() {
    let registry = DefinitionRegistry::new();
    let mut builder = DeviceDefinitionBuilder::new(&registry);

    let control = builder.add_terminal().unwrap();
    let channel_a = builder.add_terminal().unwrap();
    let channel_b = builder.add_terminal().unwrap();

    let result = builder.add_element(Element::new(
        DefinitionId::from(PrimitiveElementKind::VoltageControlledConductance),
        vec![control, channel_a, channel_b],
        vec![
            ValueRef::Literal(bits(5.0)),  // V_threshold
            ValueRef::Literal(bits(2.0)),  // V_transition
            ValueRef::Literal(bits(10.0)), // G_min
            ValueRef::Literal(bits(1.0)),  // G_max -- invalid
        ],
    ));

    assert!(matches!(
        result,
        Err(DeviceDefinitionBuilderError::PrimitiveParameters {
            definition_id,
            ..
        }) if definition_id
            == DefinitionId::from(
                PrimitiveElementKind::VoltageControlledConductance
            )
    ));
}

#[test]
fn nested_definition_uses_child_partition_summary() {
    let mut registry = DefinitionRegistry::new();

    let child = {
        let mut builder = DeviceDefinitionBuilder::new(&registry);

        let input_positive = builder.add_terminal().unwrap();
        let input_negative = builder.add_terminal().unwrap();
        let output_positive = builder.add_terminal().unwrap();
        let output_negative = builder.add_terminal().unwrap();

        builder
            .add_element(Element::new(
                DefinitionId::from(PrimitiveElementKind::TickDelay),
                vec![
                    input_positive,
                    input_negative,
                    output_positive,
                    output_negative,
                ],
                vec![ValueRef::Literal(bits(0.0))],
            ))
            .unwrap();

        builder.build_definition().unwrap()
    };

    let child_id = registry.register(child).unwrap();

    let mut builder = DeviceDefinitionBuilder::new(&registry);

    let input_positive = builder.add_terminal().unwrap();
    let input_negative = builder.add_terminal().unwrap();
    let output_positive = builder.add_terminal().unwrap();
    let output_negative = builder.add_terminal().unwrap();

    builder
        .add_element(Element::new(
            child_id,
            vec![
                input_positive,
                input_negative,
                output_positive,
                output_negative,
            ],
            Vec::<ValueRef>::new(),
        ))
        .unwrap();

    let parent = builder.build_definition().unwrap();

    assert_eq!(
        parent.terminal_partitions().to_vec(),
        vec![0, 0, 1, 1]
    );
}

fn resistance(nodes: Vec<NodeId>, value: ValueRef) -> Element {
    Element::new(
        DefinitionId::from(PrimitiveElementKind::Resistance),
        nodes,
        vec![value],
    )
}

#[test]
fn elements_are_checked_against_their_definition() {
    let registry = DefinitionRegistry::new();
    let mut builder = DeviceDefinitionBuilder::new(&registry);
    let a = builder.add_terminal().unwrap();
    let b = builder.add_terminal().unwrap();
    let one = ValueRef::Literal(bits(1.0));

    let unknown = DefinitionId::try_from(99).unwrap();
    assert_eq!(
        builder.add_element(Element::new(unknown, vec![a, b], vec![one])),
        Err(DeviceDefinitionBuilderError::UnknownDefinition {
            definition_id: unknown
        })
    );
    assert!(matches!(
        builder.add_element(resistance(vec![a], one)),
        Err(DeviceDefinitionBuilderError::TerminalCountMismatch { actual, .. })
            if actual == vec![a]
    ));
    assert!(matches!(
        builder.add_element(Element::new(
            DefinitionId::from(PrimitiveElementKind::Resistance),
            vec![a, b],
            vec![one, one],
        )),
        Err(DeviceDefinitionBuilderError::ParameterCountMismatch {
            expected: 1,
            actual: 2,
            ..
        })
    ));
    assert_eq!(
        builder.add_element(resistance(vec![a, NodeId::new(5)], one)),
        Err(DeviceDefinitionBuilderError::NodeOutOfRange {
            terminal_index: 1,
            node: NodeId::new(5),
            node_count: 2
        })
    );
    assert_eq!(
        builder.add_element(resistance(
            vec![a, b],
            ValueRef::Parameter(ParameterId::new(0))
        )),
        Err(DeviceDefinitionBuilderError::ParameterOutOfRange {
            parameter_index: 0,
            parameter: ParameterId::new(0),
            parameter_count: 0
        })
    );
    assert!(matches!(
        builder.add_element(resistance(vec![a, b], ValueRef::Literal(bits(-1.0)))),
        Err(DeviceDefinitionBuilderError::ParameterConstraint {
            parameter_index: 0,
            source: ParameterConstraintError::OutOfRange,
        })
    ));
    assert!(builder.add_element(resistance(vec![a, b], one)).is_ok());
}

#[test]
fn built_definitions_keep_what_was_added() {
    let registry = DefinitionRegistry::new();
    let mut builder = DeviceDefinitionBuilder::new(&registry);
    let constraints = ParameterConstraints::new(
        Some(Bound {
            value: bits(0.0),
            inclusive: false,
        }),
        None,
        true,
        None,
    );
    let a = builder.add_terminal().unwrap();
    let b = builder.add_terminal().unwrap();
    let middle = builder.add_node().unwrap();
    let parameter = builder.add_parameter(constraints).unwrap();
    builder
        .add_element(resistance(vec![a, middle], ValueRef::Parameter(parameter)))
        .unwrap();
    builder
        .add_element(resistance(vec![middle, b], ValueRef::Literal(bits(2.0))))
        .unwrap();

    let definition = builder.build_definition().unwrap();

    assert_eq!(definition.terminals().to_vec(), vec![0, 1]);
    assert_eq!(definition.parameters().to_vec(), vec![constraints]);
    assert_eq!(definition.terminal_partitions().to_vec(), vec![0, 0]);
    assert_eq!(definition.partition_count(), 1);
    match definition.body() {
        DeviceBody::Composite(circuit) => {
            assert_eq!(circuit.node_count(), 3);
            assert_eq!(circuit.elements().len(), 2);
            assert_eq!(circuit.elements()[0].terminals().to_vec(), vec![0, 2]);
            assert_eq!(
                circuit.elements()[0].parameters().to_vec(),
                vec![ValueRef::Parameter(parameter)]
            );
            assert_eq!(circuit.elements()[1].terminals().to_vec(), vec![2, 1]);
        }
        DeviceBody::Primitive(_) => panic!("built definitions are composite"),
    }
}

#[test]
fn registration_checks_circuits() {
    let mut registry = DefinitionRegistry::new();

    assert_eq!(
        registry.register(DeviceDefinition::new_composite(
            Circuit::new(1, Vec::new()),
            vec![NodeId::new(0), NodeId::new(0)],
            Vec::new(),
            vec![TerminalPartitionId::new(0), TerminalPartitionId::new(0)],
        )),
        Err(RegisterDeviceError::TerminalCountExceedsNodeCount {
            terminal_count: 2,
            node_count: 1
        })
    );
    let unknown = DefinitionId::try_from(50).unwrap();
    assert_eq!(
        registry.register(DeviceDefinition::new_composite(
            Circuit::new(
                2,
                vec![Element::new(unknown, Vec::new(), Vec::new())]
            ),
            vec![NodeId::new(0)],
            Vec::new(),
            vec![TerminalPartitionId::new(0)],
        )),
        Err(RegisterDeviceError::UnknownDefinition {
            definition: unknown
        })
    );
}

#[test]
fn primitive_parameters_are_counted_and_checked() {
    let kind = PrimitiveElementKind::Resistance;

    assert_eq!(
        kind.validate_parameters(&[]),
        Err(PrimitiveParameterError::WrongParameterCount {
            expected: 1,
            actual: 0
        })
    );
    assert_eq!(
        kind.validate_parameters(&[bits(f64::NAN)]),
        Err(PrimitiveParameterError::InvalidParameter {
            index: 0,
            source: ParameterConstraintError::NonFinite
        })
    );
    assert_eq!(kind.validate_parameters(&[bits(3.0)]), Ok(()));
}

#[test]
fn definitions_are_numbered_in_order() {
    let mut registry = DefinitionRegistry::new();
    let base = DefinitionRegistry::COMPOSITE_DEFINITION_ID_BASE;
    for number in 0..3 {
        assert!(registry
            .register(PrimitiveElementKind::Resistance.definition())
            .is_err());
        let id = registry.register(composite_definition()).unwrap();
        assert_eq!(id.get(), base + number);
    }
    for raw in 1..base + 3 {
        assert!(registry.get(DefinitionId::try_from(raw).unwrap()).is_some());
    }
    assert!(registry
        .get(DefinitionId::try_from(base + 3).unwrap())
        .is_none());
}
