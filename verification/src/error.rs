//! Why a trace file could not be decoded.

use vstd::prelude::*;

verus! {

/// The reason for which the decoding of one trace file was given up.
#[derive(Debug, Clone, Copy, PartialEq, Eq, Structural)]
pub enum DecodeError {
    /// The file has no version line.
    VersionLineMissing,
    /// The version line does not read `DRCOV VERSION: <n>`.
    VersionLineInvalid,
    /// The file has no flavor line.
    FlavorLineMissing,
    /// The flavor line does not read `DRCOV FLAVOR: <tag>`.
    FlavorLineInvalid,
    /// The file has no module-table header.
    ModuleHeaderMissing,
    /// The module-table header follows neither of its two grammars.
    ModuleHeaderInvalid,
    /// The module table has fewer lines than its header announces.
    ModuleLineMissing,
    /// A module line does not follow the grammar of the table's version.
    ModuleLineInvalid,
    /// A numeric field of a module line does not fit the machine's word, or
    /// a field took no part in the match.
    ModuleFieldInvalid,
    /// A module line ends below its base address.
    ModuleEndBelowBase,
    /// A module of a version 3 table names a containing module that is not
    /// an earlier entry of the table, be it that the file lists none there
    /// or that the filters dropped it, or that starts above it.
    ContainerInvalid,
    /// The file has no basic-block table header.
    BasicBlockHeaderMissing,
    /// The basic-block table header does not read `BB Table: <n> bbs`.
    BasicBlockHeaderInvalid,
    /// The file holds fewer basic-block records than its header announces.
    BasicBlockDataTruncated,
}

/// The three kinds of decoding failure.
#[derive(Debug, Clone, Copy, PartialEq, Eq, Structural)]
pub enum ErrorKind {
    MalformedHeader,
    MalformedModuleLine,
    TruncatedBasicBlockData,
}

impl DecodeError {
    /// The kind of failure that this error is an instance of.
    pub open spec fn spec_kind(self) -> ErrorKind {
        match self {
            DecodeError::VersionLineMissing
            | DecodeError::VersionLineInvalid
            | DecodeError::FlavorLineMissing
            | DecodeError::FlavorLineInvalid
            | DecodeError::ModuleHeaderMissing
            | DecodeError::ModuleHeaderInvalid
            | DecodeError::BasicBlockHeaderMissing
            | DecodeError::BasicBlockHeaderInvalid => ErrorKind::MalformedHeader,
            DecodeError::ModuleLineMissing
            | DecodeError::ModuleLineInvalid
            | DecodeError::ModuleFieldInvalid
            | DecodeError::ModuleEndBelowBase
            | DecodeError::ContainerInvalid => ErrorKind::MalformedModuleLine,
            DecodeError::BasicBlockDataTruncated => ErrorKind::TruncatedBasicBlockData,
        }
    }

    /// The kind of failure that this error is an instance of.
    #[verifier::when_used_as_spec(spec_kind)]
    pub fn kind(self) -> (kind: ErrorKind)
        ensures
            kind == self.spec_kind(),
    {
        match self {
            DecodeError::VersionLineMissing
            | DecodeError::VersionLineInvalid
            | DecodeError::FlavorLineMissing
            | DecodeError::FlavorLineInvalid
            | DecodeError::ModuleHeaderMissing
            | DecodeError::ModuleHeaderInvalid
            | DecodeError::BasicBlockHeaderMissing
            | DecodeError::BasicBlockHeaderInvalid => ErrorKind::MalformedHeader,
            DecodeError::ModuleLineMissing
            | DecodeError::ModuleLineInvalid
            | DecodeError::ModuleFieldInvalid
            | DecodeError::ModuleEndBelowBase
            | DecodeError::ContainerInvalid => ErrorKind::MalformedModuleLine,
            DecodeError::BasicBlockDataTruncated => ErrorKind::TruncatedBasicBlockData,
        }
    }
}

} // verus!
