//! End-of-tape filemark models.

use vstd::prelude::*;

use crate::tape::status::TapeError;

verus! {

/// How many filemarks close the tape.
#[derive(Clone, Copy, Debug, PartialEq, Eq)]
pub enum EotModel {
    OneSetmark,
    TwoSetmarks,
    Many(u32),
}

/// The model a register value names: 1 and 2 are the settable models,
/// anything else is carried as it came.
pub open spec fn spec_eot_model(v: u32) -> EotModel {
    if v == 1 {
        EotModel::OneSetmark
    } else if v == 2 {
        EotModel::TwoSetmarks
    } else {
        EotModel::Many(v)
    }
}

/// The model a register value names.
pub fn eot_model_from_code(v: u32) -> (r: EotModel)
    ensures
        r == spec_eot_model(v),
{
    if v == 1 {
        EotModel::OneSetmark
    } else if v == 2 {
        EotModel::TwoSetmarks
    } else {
        EotModel::Many(v)
    }
}

/// The register value a model sets: only one or two filemarks can be
/// chosen; anything else is rejected.
pub fn eot_model_code(model: &EotModel) -> (r: Result<u32, TapeError>)
    ensures
        match model {
            EotModel::OneSetmark => r == Ok::<u32, TapeError>(1u32),
            EotModel::TwoSetmarks => r == Ok::<u32, TapeError>(2u32),
            EotModel::Many(_) => r == Err::<u32, TapeError>(TapeError::InvalidEotModel),
        },
{
    match model {
        EotModel::OneSetmark => Ok(1),
        EotModel::TwoSetmarks => Ok(2),
        EotModel::Many(_) => Err(TapeError::InvalidEotModel),
    }
}

} // verus!
