//! Device definitions: the built-in primitives and composites made of them.

use crate::circuit::{node_list, Circuit};
use crate::float_bits::{float_le, float_le_bits};
use crate::ids::{DefinitionId, NodeId, TerminalPartitionId};
use crate::parameter::{Bound, ParameterConstraintError, ParameterConstraints};
use crate::small_list::{numbers, IdList};
use smallvec::SmallVec;
use vstd::prelude::*;

verus! {

/// The built-in elements.
#[derive(Debug, Clone, Copy, PartialEq, Eq, Hash, Structural)]
pub enum PrimitiveElementKind {
    Resistance,
    Conductance,
    VoltageSource,
    CurrentSource,
    VoltageControlledCurrentSource,
    VoltageControlledVoltageSource,
    Capacitor,
    Inductor,
    VoltageControlledSwitch,
    VoltageControlledConductance,
    TickDelay,
}

/// Why values cannot be the parameters of a primitive.
#[derive(Debug, Clone, Copy, PartialEq, Eq, Structural)]
pub enum PrimitiveParameterError {
    WrongParameterCount { expected: usize, actual: usize },
    InvalidParameter { index: usize, source: ParameterConstraintError },
    ParameterMustBeGreater { greater: usize, lesser: usize },
}

/// Constraints that positive values meet.
pub open spec fn positive() -> ParameterConstraints {
    ParameterConstraints::of(Some(Bound { value: 0, inclusive: false }), None, false, None)
}

/// Constraints that values from zero up meet.
pub open spec fn non_negative() -> ParameterConstraints {
    ParameterConstraints::of(Some(Bound { value: 0, inclusive: true }), None, false, None)
}

/// Constraints that every finite value meets.
pub open spec fn unrestricted() -> ParameterConstraints {
    ParameterConstraints::of(None, None, false, None)
}

impl PrimitiveElementKind {
    pub const COUNT: u32 = 11;

    /// The position of the kind among all kinds.
    pub open spec fn number(self) -> u32 {
        match self {
            Self::Resistance => 0,
            Self::Conductance => 1,
            Self::VoltageSource => 2,
            Self::CurrentSource => 3,
            Self::VoltageControlledCurrentSource => 4,
            Self::VoltageControlledVoltageSource => 5,
            Self::Capacitor => 6,
            Self::Inductor => 7,
            Self::VoltageControlledSwitch => 8,
            Self::VoltageControlledConductance => 9,
            Self::TickDelay => 10,
        }
    }

    /// The constraints on each parameter.
    pub open spec fn constraints(self) -> Seq<ParameterConstraints> {
        match self {
            Self::Resistance | Self::Capacitor | Self::Inductor => seq![positive()],
            Self::Conductance => seq![non_negative()],
            Self::VoltageSource
            | Self::CurrentSource
            | Self::VoltageControlledCurrentSource
            | Self::VoltageControlledVoltageSource
            | Self::TickDelay => seq![unrestricted()],
            Self::VoltageControlledSwitch => seq![
                unrestricted(),
                non_negative(),
                positive(),
                non_negative(),
            ],
            Self::VoltageControlledConductance => seq![
                unrestricted(),
                positive(),
                non_negative(),
                positive(),
            ],
        }
    }

    /// The partition of each terminal. The terminals stand on nodes zero, one, two and so on.
    pub open spec fn partitions(self) -> Seq<u32> {
        match self {
            Self::Resistance
            | Self::Conductance
            | Self::VoltageSource
            | Self::CurrentSource
            | Self::Capacitor
            | Self::Inductor => seq![0, 0],
            Self::VoltageControlledCurrentSource
            | Self::VoltageControlledVoltageSource
            | Self::VoltageControlledSwitch => seq![0, 0, 0, 0],
            Self::VoltageControlledConductance => seq![0, 0, 0],
            Self::TickDelay => seq![0, 0, 1, 1],
        }
    }

    /// The pair of parameters of which the first has to exceed the second, where there is one.
    pub open spec fn ordered_parameters(self) -> Option<(int, int)> {
        match self {
            Self::VoltageControlledSwitch => Some((2, 3)),
            Self::VoltageControlledConductance => Some((3, 2)),
            _ => None,
        }
    }

    /// The first thing wrong with values as parameters of the kind, from parameter `from` on.
    pub open spec fn check_from(self, parameters: Seq<u64>, from: int) -> Result<
        (),
        PrimitiveParameterError,
    >
        decreases parameters.len() - from,
    {
        if from >= parameters.len() {
            self.check_relations(parameters)
        } else {
            match self.constraints()[from].check(parameters[from]) {
                Ok(_) => self.check_from(parameters, from + 1),
                Err(source) => Err(
                    PrimitiveParameterError::InvalidParameter { index: from as usize, source },
                ),
            }
        }
    }

    /// Whether the two ordered parameters are in order.
    pub open spec fn check_relations(self, parameters: Seq<u64>) -> Result<
        (),
        PrimitiveParameterError,
    > {
        match self.ordered_parameters() {
            Some((greater, lesser)) if float_le(parameters[greater], parameters[lesser]) => Err(
                PrimitiveParameterError::ParameterMustBeGreater {
                    greater: greater as usize,
                    lesser: lesser as usize,
                },
            ),
            _ => Ok(()),
        }
    }

    /// The first thing wrong with values as parameters of the kind.
    pub open spec fn check(self, parameters: Seq<u64>) -> Result<(), PrimitiveParameterError> {
        if parameters.len() != self.constraints().len() {
            Err(
                PrimitiveParameterError::WrongParameterCount {
                    expected: self.constraints().len() as usize,
                    actual: parameters.len() as usize,
                },
            )
        } else {
            self.check_from(parameters, 0)
        }
    }

    /// All kinds, in order.
    pub fn all() -> (result: [Self; 11])
        ensures
            forall|i: int| 0 <= i < 11 ==> (#[trigger] result@[i]).number() == i,
    {
        [
            Self::Resistance,
            Self::Conductance,
            Self::VoltageSource,
            Self::CurrentSource,
            Self::VoltageControlledCurrentSource,
            Self::VoltageControlledVoltageSource,
            Self::Capacitor,
            Self::Inductor,
            Self::VoltageControlledSwitch,
            Self::VoltageControlledConductance,
            Self::TickDelay,
        ]
    }

    /// The position of the kind among all kinds.
    pub fn discriminant(self) -> (result: u32)
        ensures
            result == self.number(),
            result < Self::COUNT,
    {
        match self {
            Self::Resistance => 0,
            Self::Conductance => 1,
            Self::VoltageSource => 2,
            Self::CurrentSource => 3,
            Self::VoltageControlledCurrentSource => 4,
            Self::VoltageControlledVoltageSource => 5,
            Self::Capacitor => 6,
            Self::Inductor => 7,
            Self::VoltageControlledSwitch => 8,
            Self::VoltageControlledConductance => 9,
            Self::TickDelay => 10,
        }
    }

    /// The number of parameters.
    pub fn parameter_count(self) -> (result: usize)
        ensures
            result == self.constraints().len(),
    {
        match self {
            Self::Resistance => 1,
            Self::Conductance => 1,
            Self::VoltageSource => 1,
            Self::CurrentSource => 1,
            Self::VoltageControlledCurrentSource => 1,
            Self::VoltageControlledVoltageSource => 1,
            Self::Capacitor => 1,
            Self::Inductor => 1,
            Self::VoltageControlledSwitch => 4,
            Self::VoltageControlledConductance => 4,
            Self::TickDelay => 1,
        }
    }

    /// The constraints on parameter `index`.
    pub fn parameter_constraint(self, index: usize) -> (result: Option<ParameterConstraints>)
        ensures
            result == if index < self.constraints().len() {
                Some(self.constraints()[index as int])
            } else {
                None
            },
    {
        let unrestricted = ParameterConstraints::unrestricted();
        let positive = ParameterConstraints::new(
            Some(Bound { value: 0, inclusive: false }),
            None,
            false,
            None,
        );
        let non_negative = ParameterConstraints::new(
            Some(Bound { value: 0, inclusive: true }),
            None,
            false,
            None,
        );
        if index >= self.parameter_count() {
            return None;
        }
        match self {
            Self::Resistance => Some(positive),
            Self::Conductance => Some(non_negative),
            Self::VoltageSource => Some(unrestricted),
            Self::CurrentSource => Some(unrestricted),
            // transconductance
            Self::VoltageControlledCurrentSource => Some(unrestricted),
            // voltage gain
            Self::VoltageControlledVoltageSource => Some(unrestricted),
            // capacitance
            Self::Capacitor => Some(positive),
            // inductance
            Self::Inductor => Some(positive),
            // threshold, hysteresis, largest and smallest conductance
            Self::VoltageControlledSwitch => Some(
                if index == 0 {
                    unrestricted
                } else if index == 2 {
                    positive
                } else {
                    non_negative
                },
            ),
            // threshold, transition, smallest and largest conductance
            Self::VoltageControlledConductance => Some(
                if index == 0 {
                    unrestricted
                } else if index == 2 {
                    non_negative
                } else {
                    positive
                },
            ),
            // initial output
            Self::TickDelay => Some(unrestricted),
        }
    }

    /// The partitions of the terminals, by number.
    fn terminal_layout(self) -> (result: Vec<TerminalPartitionId>)
        ensures
            numbers(result@, |p: TerminalPartitionId| p.value() as u32) == self.partitions(),
    {
        let first = TerminalPartitionId::new(0);
        let second = TerminalPartitionId::new(1);
        let result = match self {
            Self::Resistance
            | Self::Conductance
            | Self::VoltageSource
            | Self::CurrentSource
            | Self::Capacitor
            | Self::Inductor => vec![first, first],
            Self::VoltageControlledCurrentSource
            | Self::VoltageControlledVoltageSource
            | Self::VoltageControlledSwitch => vec![first, first, first, first],
            Self::VoltageControlledConductance => vec![first, first, first],
            Self::TickDelay => vec![first, first, second, second],
        };
        assert(numbers(result@, |p: TerminalPartitionId| p.value() as u32) =~= self.partitions());
        result
    }

    /// The definition of the kind.
    pub fn definition(self) -> (result: DeviceDefinition)
        ensures
            result.is_primitive(self),
            result.wf(),
    {
        let partitions = self.terminal_layout();
        let mut nodes: Vec<NodeId> = Vec::new();
        let count: usize = partitions.len();
        assert(count == self.partitions().len());
        let mut index: usize = 0;
        while index < count
            invariant
                index <= count <= 4,
                nodes.len() == index,
                forall|i: int| 0 <= i < index ==> (#[trigger] nodes@[i]).value() == i,
            decreases count - index,
        {
            nodes.push(NodeId::new(index as u32));
            index = index + 1;
        }
        let mut constraints: Vec<ParameterConstraints> = Vec::new();
        let parameter_count: usize = self.parameter_count();
        let mut parameter: usize = 0;
        while parameter < parameter_count
            invariant
                parameter <= parameter_count == self.constraints().len(),
                constraints@ == self.constraints().take(parameter as int),
            decreases parameter_count - parameter,
        {
            match self.parameter_constraint(parameter) {
                Some(constraint) => {
                    constraints.push(constraint);
                },
                None => {},
            }
            parameter = parameter + 1;
            assert(constraints@ =~= self.constraints().take(parameter as int));
        }
        assert(constraints@ =~= self.constraints());
        let result = DeviceDefinition::assemble(
            DeviceBody::Primitive(self),
            nodes,
            constraints,
            partitions,
        );
        assert(result.spec_terminals() =~= Seq::new(self.partitions().len(), |i: int| i as u32));
        result
    }

    /// Holds values against the constraints on the parameters and on their order.
    pub fn validate_parameters(self, parameters: &[u64]) -> (result: Result<
        (),
        PrimitiveParameterError,
    >)
        ensures
            result == self.check(parameters@),
    {
        let expected: usize = self.parameter_count();
        if parameters.len() != expected {
            return Err(
                PrimitiveParameterError::WrongParameterCount { expected, actual: parameters.len() },
            );
        }
        let mut index: usize = 0;
        while index < parameters.len()
            invariant
                index <= parameters.len() == self.constraints().len(),
                self.check(parameters@) == self.check_from(parameters@, index as int),
            decreases parameters.len() - index,
        {
            match self.parameter_constraint(index) {
                Some(constraint) => match constraint.validate(parameters[index]) {
                    Ok(_) => {},
                    Err(source) => {
                        return Err(PrimitiveParameterError::InvalidParameter { index, source });
                    },
                },
                None => {},
            }
            index = index + 1;
        }
        self.validate_parameter_relations_unchecked(parameters)
    }

    /// Holds values against the order that the parameters have to be in.
    pub fn validate_parameter_relations(self, parameters: &[u64]) -> (result: Result<
        (),
        PrimitiveParameterError,
    >)
        ensures
            result == if parameters@.len() != self.constraints().len() {
                Err(
                    PrimitiveParameterError::WrongParameterCount {
                        expected: self.constraints().len() as usize,
                        actual: parameters@.len() as usize,
                    },
                )
            } else {
                self.check_relations(parameters@)
            },
    {
        let expected: usize = self.parameter_count();
        if parameters.len() != expected {
            return Err(
                PrimitiveParameterError::WrongParameterCount { expected, actual: parameters.len() },
            );
        }
        self.validate_parameter_relations_unchecked(parameters)
    }

    fn validate_parameter_relations_unchecked(self, parameters: &[u64]) -> (result: Result<
        (),
        PrimitiveParameterError,
    >)
        requires
            parameters@.len() == self.constraints().len(),
        ensures
            result == self.check_relations(parameters@),
    {
        match self {
            Self::VoltageControlledSwitch => {
                if float_le_bits(parameters[2], parameters[3]) {
                    return Err(
                        PrimitiveParameterError::ParameterMustBeGreater { greater: 2, lesser: 3 },
                    );
                }
            },
            Self::VoltageControlledConductance => {
                if float_le_bits(parameters[3], parameters[2]) {
                    return Err(
                        PrimitiveParameterError::ParameterMustBeGreater { greater: 3, lesser: 2 },
                    );
                }
            },
            _ => {},
        }
        Ok(())
    }
}

impl DefinitionId {
    /// The identifier under which every registry holds a primitive.
    pub fn from(kind: PrimitiveElementKind) -> (result: Self)
        ensures
            result.value() == kind.number() + 1,
    {
        DefinitionId::new(kind.discriminant() + 1)
    }
}

/// What a definition is made of.
#[derive(Debug, PartialEq, Eq)]
pub enum DeviceBody {
    Primitive(PrimitiveElementKind),
    Composite(Circuit),
}

/// The constraints on a definition's parameters; one is kept inline.
#[verifier::external_body]
#[derive(Debug, PartialEq, Eq)]
pub struct ConstraintList {
    inner: SmallVec<[ParameterConstraints; 1]>,
}

/// The items that a `ConstraintList` holds, in order.
pub uninterp spec fn constraint_list_items(list: ConstraintList) -> Seq<ParameterConstraints>;

impl View for ConstraintList {
    type V = Seq<ParameterConstraints>;

    open spec fn view(&self) -> Seq<ParameterConstraints> {
        constraint_list_items(*self)
    }
}

impl ConstraintList {
    /// `SmallVec::from_vec`: a list with the items of a vector.
    #[verifier::external_body]
    pub(crate) fn from_vec(items: Vec<ParameterConstraints>) -> (result: Self)
        ensures
            constraint_list_items(result) == items@,
    {
        ConstraintList { inner: SmallVec::from_vec(items) }
    }

    /// `SmallVec::len`: the number of items.
    #[verifier::external_body]
    pub(crate) fn len(&self) -> (result: usize)
        ensures
            result == constraint_list_items(*self).len(),
    {
        self.inner.len()
    }

    /// Indexing into the slice of a `SmallVec`: the item at `index`.
    #[verifier::external_body]
    pub(crate) fn get(&self, index: usize) -> (result: ParameterConstraints)
        requires
            index < constraint_list_items(*self).len(),
        ensures
            result == constraint_list_items(*self)[index as int],
    {
        self.inner[index]
    }

    /// The items, in order.
    pub fn to_vec(&self) -> (result: Vec<ParameterConstraints>)
        ensures
            result@ == self@,
    {
        let mut items: Vec<ParameterConstraints> = Vec::new();
        while items.len() < self.len()
            invariant
                items@.len() <= self@.len(),
                items@ == self@.take(items@.len() as int),
            decreases self@.len() - items@.len(),
        {
            items.push(self.get(items.len()));
            assert(items@ =~= self@.take(items@.len() as int));
        }
        assert(self@.take(self@.len() as int) =~= self@);
        items
    }
}

/// A kind of device: its body, its terminals and their partitions, its parameters.
///
/// Terminals in one partition act on one another within a tick; terminals in different ones do not.
#[derive(Debug, PartialEq, Eq)]
pub struct DeviceDefinition {
    body: DeviceBody,
    terminals: IdList,
    param_constraints: ConstraintList,
    terminal_partitions: IdList,
    partition_count: usize,
}

/// The smallest number above all of `partitions`.
pub open spec fn partition_bound(partitions: Seq<u32>) -> int
    decreases partitions.len(),
{
    if partitions.len() == 0 {
        0
    } else {
        let rest = partition_bound(partitions.drop_last());
        if partitions.last() + 1 > rest {
            partitions.last() + 1
        } else {
            rest
        }
    }
}

impl DeviceDefinition {
    pub closed spec fn spec_body(self) -> DeviceBody {
        self.body
    }

    /// The numbers of the nodes that the terminals stand on.
    pub closed spec fn spec_terminals(self) -> Seq<u32> {
        self.terminals@
    }

    pub closed spec fn spec_parameters(self) -> Seq<ParameterConstraints> {
        self.param_constraints@
    }

    /// The numbers of the partitions that the terminals belong to.
    pub closed spec fn spec_partitions(self) -> Seq<u32> {
        self.terminal_partitions@
    }

    pub closed spec fn spec_partition_count(self) -> int {
        self.partition_count as int
    }

    /// Every terminal has a partition, and the partitions are numbered below their count.
    pub open spec fn wf(self) -> bool {
        &&& self.spec_partitions().len() == self.spec_terminals().len()
        &&& self.spec_terminals().len() <= usize::MAX
        &&& self.spec_parameters().len() <= usize::MAX
        &&& self.spec_partition_count() == partition_bound(self.spec_partitions())
        &&& 0 <= self.spec_partition_count() <= 0x1_0000
        &&& forall|i: int|
            0 <= i < self.spec_partitions().len() ==> (#[trigger] self.spec_partitions()[i])
                < self.spec_partition_count()
    }

    /// Whether the definition is that of a built-in element.
    pub open spec fn is_primitive(self, kind: PrimitiveElementKind) -> bool {
        &&& self.spec_body() == DeviceBody::Primitive(kind)
        &&& self.spec_parameters() == kind.constraints()
        &&& self.spec_partitions() == kind.partitions()
        &&& self.spec_terminals() == Seq::new(kind.partitions().len(), |i: int| i as u32)
    }

    fn assemble(
        body: DeviceBody,
        terminals: Vec<NodeId>,
        param_constraints: Vec<ParameterConstraints>,
        terminal_partitions: Vec<TerminalPartitionId>,
    ) -> (result: Self)
        requires
            terminals@.len() == terminal_partitions@.len(),
        ensures
            result.wf(),
            result.spec_body() == body,
            result.spec_terminals() == numbers(terminals@, |node: NodeId| node.value()),
            result.spec_parameters() == param_constraints@,
            result.spec_partitions() == numbers(
                terminal_partitions@,
                |p: TerminalPartitionId| p.value() as u32,
            ),
    {
        let ghost all = numbers(terminal_partitions@, |p: TerminalPartitionId| p.value() as u32);
        let mut partitions = IdList::new();
        let mut partition_count: usize = 0;
        let mut index: usize = 0;
        while index < terminal_partitions.len()
            invariant
                index <= terminal_partitions.len(),
                partitions@ == all.take(index as int),
                all.len() == terminal_partitions.len(),
                all == numbers(terminal_partitions@, |p: TerminalPartitionId| p.value() as u32),
                partition_count == partition_bound(partitions@),
                partition_count <= 0x1_0000,
                forall|i: int| 0 <= i < index ==> (#[trigger] partitions@[i]) < partition_count,
            decreases terminal_partitions.len() - index,
        {
            let partition: u32 = terminal_partitions[index].id() as u32;
            if partition as usize + 1 > partition_count {
                partition_count = partition as usize + 1;
            }
            let ghost before = partitions@;
            partitions.push(partition);
            index = index + 1;
            assert(partitions@ =~= all.take(index as int));
            assert(partitions@.drop_last() =~= before);
        }
        assert(partitions@ =~= all);
        let param_constraints = ConstraintList::from_vec(param_constraints);
        let terminals = node_list(&terminals);
        let terminal_count: usize = terminals.len();
        let parameter_count: usize = param_constraints.len();
        DeviceDefinition {
            body,
            terminals,
            param_constraints,
            terminal_partitions: partitions,
            partition_count,
        }
    }

    /// A definition with a circuit inside. Each terminal has a partition.
    pub fn new_composite(
        circuit: Circuit,
        terminals: Vec<NodeId>,
        param_constraints: Vec<ParameterConstraints>,
        terminal_partitions: Vec<TerminalPartitionId>,
    ) -> (result: Self)
        requires
            terminals@.len() == terminal_partitions@.len(),
        ensures
            result.wf(),
            result.spec_body() == DeviceBody::Composite(circuit),
            result.spec_terminals() == numbers(terminals@, |node: NodeId| node.value()),
            result.spec_parameters() == param_constraints@,
            result.spec_partitions() == numbers(
                terminal_partitions@,
                |p: TerminalPartitionId| p.value() as u32,
            ),
    {
        Self::assemble(
            DeviceBody::Composite(circuit),
            terminals,
            param_constraints,
            terminal_partitions,
        )
    }

    pub fn body(&self) -> (result: &DeviceBody)
        ensures
            *result == self.spec_body(),
    {
        &self.body
    }

    /// The numbers of the nodes that the terminals stand on.
    pub fn terminals(&self) -> (result: &IdList)
        ensures
            result@ == self.spec_terminals(),
    {
        &self.terminals
    }

    pub fn parameters(&self) -> (result: &ConstraintList)
        ensures
            result@ == self.spec_parameters(),
    {
        &self.param_constraints
    }

    /// The numbers of the partitions that the terminals belong to.
    pub fn terminal_partitions(&self) -> (result: &IdList)
        ensures
            result@ == self.spec_partitions(),
    {
        &self.terminal_partitions
    }

    /// How many partitions the terminals are in.
    pub fn partition_count(&self) -> (result: usize)
        ensures
            result == self.spec_partition_count(),
    {
        self.partition_count
    }
}

} // verus!
