//! Why an operation on a network is refused.

use crate::connection::ConnectionType;
use crate::ids::{DefinitionId, ParameterId};
use crate::parameter::ParameterConstraintError;
use vstd::prelude::*;

verus! {

/// Why an operation on a network is refused.
#[derive(Debug, Clone, Copy, PartialEq, Eq, Structural)]
pub enum NetworkModelError {
    IdOutOfBound { id: u32, upper_bound: usize },
    IdExceeds31Bit { id: u32 },
    IdAlreadyAssigned { id: u32 },
    IdNotAssigned { ty: ConnectionType, id: u32 },
    WireConnectToSelf,
    AlreadyConnected,
    NotConnected,
    TerminalAlreadyConnected,
    InvalidTerminal,
    InvalidParameter { parameter: ParameterId },
    ParameterConstraintViolation { parameter: ParameterId, source: ParameterConstraintError },
    UnknownDefinition { definition: DefinitionId },
    DeviceArenaExhausted,
}

} // verus!
