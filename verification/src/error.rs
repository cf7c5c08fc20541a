//! The errors of the storage layer.

use vstd::prelude::*;
use crate::backend::ColumnFamily;

verus! {

/// What was found wrong in stored data.
#[derive(Debug, PartialEq, Eq)]
pub enum CorruptionError {
    /// A term starts with a byte that is no type id.
    InvalidTypeId,
    /// A record ends before the term that it holds.
    UnexpectedEnd,
    /// Sixteen bytes that should hold an inline string do not.
    BadSmallString,
    /// A value of the string table is not valid UTF-8.
    BadString,
    /// A term refers to a string that the string table lacks.
    MissingString,
    /// The version record is not eight bytes long.
    BadVersionRecord,
    /// The data was written in a layout newer than this library knows.
    TooRecentVersion(u64),
    /// The three indexes of the default graph differ in their number of rows.
    TripleCountMismatch,
    /// The six indexes of the named graphs differ in their number of rows.
    QuadCountMismatch,
    /// A quad of one index is absent from another index of its group: the
    /// key that the index lacks.
    MissingFromIndex { index: ColumnFamily, key: Vec<u8> },
    /// The graph name of a quad is absent from the set of graphs: the key
    /// that the set lacks.
    MissingGraphName { key: Vec<u8> },
}

/// What the key-value engine refuses.
#[derive(Debug, PartialEq, Eq)]
pub enum EngineError {
    /// A key handed to a sorted file is not above the key before it.
    KeysOutOfOrder,
}

/// An error of the storage layer.
#[derive(Debug, PartialEq, Eq)]
pub enum StorageError {
    Corruption(CorruptionError),
    Engine(EngineError),
}

/// An error of a bulk load.
#[derive(Debug, PartialEq, Eq)]
pub enum LoaderError {
    /// The store refused a batch.
    Storage(StorageError),
    /// The taxonomy file does not make a taxonomy that can be labelled.
    Taxonomy(crate::taxonomy::TaxonomyError),
}

impl CorruptionError {
    /// The sentence that says what is wrong.
    pub open spec fn sentence(self) -> Seq<char> {
        match self {
            CorruptionError::InvalidTypeId => "the term buffer has an invalid type id"@,
            CorruptionError::UnexpectedEnd => "the term buffer ends inside a term"@,
            CorruptionError::BadSmallString => "the term buffer holds a malformed inline string"@,
            CorruptionError::BadString => "a string of the string table is not valid UTF-8"@,
            CorruptionError::MissingString => "a term refers to a string that is not stored"@,
            CorruptionError::BadVersionRecord => "the version record is not eight bytes long"@,
            CorruptionError::TooRecentVersion(_) => {
                "the database uses an encoding version that is too recent"@
            },
            CorruptionError::TripleCountMismatch => {
                "not the same number of triples in dspo, dpos and dosp"@
            },
            CorruptionError::QuadCountMismatch => {
                "not the same number of quads in gspo, gpos, gosp, spog, posg and ospg"@
            },
            CorruptionError::MissingFromIndex { .. } => {
                "a quad of one index is missing from another"@
            },
            CorruptionError::MissingGraphName { .. } => {
                "the graph name of a quad is not in graphs"@
            },
        }
    }

    /// A sentence that says what is wrong.
    pub fn message(&self) -> (m: &'static str)
        ensures
            m@ == self.sentence(),
    {
        match self {
            CorruptionError::InvalidTypeId => "the term buffer has an invalid type id",
            CorruptionError::UnexpectedEnd => "the term buffer ends inside a term",
            CorruptionError::BadSmallString => "the term buffer holds a malformed inline string",
            CorruptionError::BadString => "a string of the string table is not valid UTF-8",
            CorruptionError::MissingString => "a term refers to a string that is not stored",
            CorruptionError::BadVersionRecord => "the version record is not eight bytes long",
            CorruptionError::TooRecentVersion(_) => {
                "the database uses an encoding version that is too recent"
            },
            CorruptionError::TripleCountMismatch => {
                "not the same number of triples in dspo, dpos and dosp"
            },
            CorruptionError::QuadCountMismatch => {
                "not the same number of quads in gspo, gpos, gosp, spog, posg and ospg"
            },
            CorruptionError::MissingFromIndex { .. } => {
                "a quad of one index is missing from another"
            },
            CorruptionError::MissingGraphName { .. } => "the graph name of a quad is not in graphs",
        }
    }
}

impl StorageError {
    /// The sentence that says what is wrong.
    pub open spec fn sentence(self) -> Seq<char> {
        match self {
            StorageError::Corruption(e) => e.sentence(),
            StorageError::Engine(EngineError::KeysOutOfOrder) => {
                "the keys of a sorted file have to ascend"@
            },
        }
    }

    /// A sentence that says what is wrong.
    pub fn message(&self) -> (m: &'static str)
        ensures
            m@ == self.sentence(),
    {
        match self {
            StorageError::Corruption(e) => e.message(),
            StorageError::Engine(EngineError::KeysOutOfOrder) => {
                "the keys of a sorted file have to ascend"
            },
        }
    }
}

} // verus!
