//! The errors of the engine.

use crate::handled_vec::HandledVecError;
use vstd::prelude::*;

verus! {

#[derive(Debug, PartialEq, Eq, Clone, Copy)]
pub enum HardeenError {
    NodeSlotDoesNotExist,
    InvalidInputSlotNumber,
    NodeParameterDoesNotExist,
    NodeInputTypeMismatch,
    NodeRunTypeMismatch,
    NodeOutputHandleInvalid,
    NodeInputNotSatisfied,
    InvalidHandle,
    NodeTypeInvalid,
    GraphOutputNotSet,
    ErrorProcessingNode,
    ExposedParameterDoesNotExist,
    /// The edge would close a directed cycle.
    CycleWouldBeIntroduced,
    /// A parameter value does not read as its declared type.
    ParseError,
}

impl From<HandledVecError> for HardeenError {
    fn from(_error: HandledVecError) -> (error: HardeenError) {
        HardeenError::InvalidHandle
    }
}

impl vstd::std_specs::convert::FromSpecImpl<HandledVecError> for HardeenError {
    open spec fn obeys_from_spec() -> bool {
        true
    }

    open spec fn from_spec(_error: HandledVecError) -> HardeenError {
        HardeenError::InvalidHandle
    }
}

} // verus!
