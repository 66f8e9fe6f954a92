//! Why a protocol run is given up.

use vstd::prelude::*;

verus! {

/// A check that did not pass.
#[derive(Clone, Copy, Debug, PartialEq, Eq, Structural)]
pub enum EdabitsError {
    /// The bits of an opened edaBit do not denote its opened value.
    InconsistentEdabit,
    /// The third bit of an opened triple is not the product of the others.
    InconsistentTriple,
    /// A triple of this peer that was opened is not a product.
    IncorrectTriple,
    /// The sum of two edaBits of a bucket is inconsistent.
    InconsistentBucket,
    /// The MACs on opened bits are not valid.
    BitMacCheck,
    /// The MACs on opened field values are not valid.
    FieldMacCheck,
    /// The generator of daBits gave no output.
    DabitGeneration,
    /// A proof over the bits was not accepted.
    BitProof,
    /// A proof over the field was not accepted.
    FieldProof,
}

impl EdabitsError {
    /// What went wrong, in words.
    pub fn message(self) -> (r: &'static str)
        ensures
            self is InconsistentEdabit ==> r@ == "opened private edabit is inconsistent"@,
            self is InconsistentTriple ==> r@ == "opened private triple is inconsistent"@,
            self is IncorrectTriple ==> r@ == "opened private triple is not correct"@,
            self is InconsistentBucket ==> r@ == "bucket consistency check failed"@,
            self is BitMacCheck ==> r@ == "SPDZ bit MAC check failed"@,
            self is FieldMacCheck ==> r@ == "SPDZ field MAC check failed"@,
            self is DabitGeneration ==> r@ == "dabit generation failed"@,
            self is BitProof ==> r@ == "QS over F2 verification failed"@,
            self is FieldProof ==> r@ == "QS over Fp verification failed"@,
    {
        match self {
            EdabitsError::InconsistentEdabit => "opened private edabit is inconsistent",
            EdabitsError::InconsistentTriple => "opened private triple is inconsistent",
            EdabitsError::IncorrectTriple => "opened private triple is not correct",
            EdabitsError::InconsistentBucket => "bucket consistency check failed",
            EdabitsError::BitMacCheck => "SPDZ bit MAC check failed",
            EdabitsError::FieldMacCheck => "SPDZ field MAC check failed",
            EdabitsError::DabitGeneration => "dabit generation failed",
            EdabitsError::BitProof => "QS over F2 verification failed",
            EdabitsError::FieldProof => "QS over Fp verification failed",
        }
    }
}

} // verus!
