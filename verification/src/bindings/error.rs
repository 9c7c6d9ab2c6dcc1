//! The result code of an operation that is called from another language.
use crate::error::MstError;
use vstd::prelude::*;
use vstd::std_specs::convert::FromSpecImpl;

verus! {

/// How an operation ended.
#[derive(Clone, Copy, Debug, PartialEq, Eq, Structural)]
pub enum FangFFIResult {
    /// It succeeded.
    Success,
    /// It was handed a null pointer.
    NullPassed,
    /// It panicked.
    Panic,
    /// It failed in another way.
    OtherError,
}

impl FangFFIResult {
    /// The number that stands for the result: 0 for success, then 1, 2 and 3
    /// in the order of the variants.
    pub fn code(&self) -> (code: u32)
        ensures
            code == (match *self {
                FangFFIResult::Success => 0u32,
                FangFFIResult::NullPassed => 1u32,
                FangFFIResult::Panic => 2u32,
                FangFFIResult::OtherError => 3u32,
            }),
    {
        match self {
            FangFFIResult::Success => 0,
            FangFFIResult::NullPassed => 1,
            FangFFIResult::Panic => 2,
            FangFFIResult::OtherError => 3,
        }
    }

    /// The result code of a fallible operation: `Success` for success and
    /// `OtherError` for every error.
    pub fn of(result: &Result<(), MstError>) -> (code: Self)
        ensures
            code == (if result is Ok {
                FangFFIResult::Success
            } else {
                FangFFIResult::OtherError
            }),
    {
        match result {
            Ok(_) => FangFFIResult::Success,
            Err(_) => FangFFIResult::OtherError,
        }
    }
}

impl From<MstError> for FangFFIResult {
    /// Every error of the library is an `OtherError`.
    fn from(_err: MstError) -> (code: Self) {
        FangFFIResult::OtherError
    }
}

impl FromSpecImpl<MstError> for FangFFIResult {
    open spec fn obeys_from_spec() -> bool {
        true
    }

    open spec fn from_spec(_err: MstError) -> Self {
        FangFFIResult::OtherError
    }
}

} // verus!
