//! A read-only engine for a hierarchical sparse-array database kept in one
//! file: blocks, records, compressed keys, tree descent and integrity checks.

use vstd::prelude::*;
use vstd::std_specs::convert::FromSpecImpl;

pub mod bitmap;
pub mod block;
pub mod busy;
pub mod bytes;
pub mod database;
pub mod integ;
pub mod key;
pub mod lookup;
pub mod rec;
pub mod run;
pub mod scan;
pub mod traverse;

pub use block::{get_block, Blk, BlkHdr, BlkNum, BlkType, RecordCursor};
pub use database::{Database, FileHeader, HeaderLayout};
pub use integ::IntegBlock;
pub use key::State;
pub use rec::{RawRec, Rec, RecHdr};

verus! {

/// The error that a failed read of the database file carries.
#[verifier::external_type_specification]
#[verifier::external_body]
pub struct ExIoError(std::io::Error);

/// How a record's key stands to the key that a scan looks for.
#[derive(Debug, Clone, Copy, PartialEq, Eq, Structural)]
pub enum SortOrder {
    SortsBefore,
    SortsEqual,
    SortsAfter,
}

impl SortOrder {
    /// The order seen from the other side.
    pub open spec fn flipped(self) -> SortOrder {
        match self {
            SortOrder::SortsBefore => SortOrder::SortsAfter,
            SortOrder::SortsEqual => SortOrder::SortsEqual,
            SortOrder::SortsAfter => SortOrder::SortsBefore,
        }
    }
}

/// What a local bitmap says of one block.
#[derive(Debug, Clone, Copy, PartialEq, Eq, Structural)]
pub enum LocalBitmapStatus {
    Busy,
    NeverUsed,
    Invalid,
    Free,
}

/// Why a lookup or an integrity check failed.
#[derive(Debug)]
pub enum ValueError {
    IoError(std::io::Error),
    RecordError(RecordError),
    GlobalNotFound,
    SubscriptNotFound,
    MalformedBlock,
    BlockIncorrectlyMarkedFree,
    BlockIncorrectlyMarkedBusy,
}

/// What is wrong with a record.
#[derive(Debug)]
pub enum RecordError {
    IoError(std::io::Error),
    TooBig,
    TooSmall,
    LengthZero,
    ZeroCompressionCount,
    IncorrectSort,
    NoTerminatingCharacter,
}

impl From<std::io::Error> for ValueError {
    fn from(error: std::io::Error) -> (r: Self) {
        ValueError::IoError(error)
    }
}

impl FromSpecImpl<std::io::Error> for ValueError {
    open spec fn obeys_from_spec() -> bool {
        true
    }

    open spec fn from_spec(error: std::io::Error) -> Self {
        ValueError::IoError(error)
    }
}

impl From<RecordError> for ValueError {
    fn from(error: RecordError) -> (r: Self) {
        match error {
            RecordError::IoError(x) => ValueError::IoError(x),
            x => ValueError::RecordError(x),
        }
    }
}

impl FromSpecImpl<RecordError> for ValueError {
    open spec fn obeys_from_spec() -> bool {
        true
    }

    open spec fn from_spec(error: RecordError) -> Self {
        match error {
            RecordError::IoError(x) => ValueError::IoError(x),
            x => ValueError::RecordError(x),
        }
    }
}

} // verus!
