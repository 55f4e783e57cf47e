//! The errors of the storage engine.

use vstd::prelude::*;

verus! {

/// What went wrong in a storage operation.
#[derive(Debug, Clone, Copy, PartialEq, Eq, Structural)]
pub enum Error {
    /// A WAL chunk failed its checksum or was cut off.
    InvalidWalData,
    /// A record could not be appended to the WAL.
    AppendWalDataFailed,
    /// Block data could not be read.
    BlockDataGetFailed,
    /// Block data could not be written or released.
    BlockDataSetFailed,
    /// A main block record could not be deleted.
    MainDataDelFailed,
    /// A WAL segment could not be removed.
    WalDelFailed,
    /// A WAL segment could not be sealed.
    WalCheckedFailed,
    /// A slot blob is malformed.
    SlotDecodeFailed,
    /// A slot could not be encoded.
    SlotEncodeFailed,
}

} // verus!
