use vstd::prelude::*;

verus! {

/// The kind of record that a lookup failed to find.
#[derive(Clone, Copy, Debug, PartialEq, Eq, Structural)]
pub enum Entity {
    Note,
    Card,
    Notetype,
    Deck,
    DeckConfig,
}

/// Why a request was refused as malformed.
#[derive(Clone, Copy, Debug, PartialEq, Eq, Structural)]
pub enum InvalidReason {
    NoNoteProvided,
    FieldCountMismatch,
    NotetypeChanged,
    MixedNotetypes,
    NoNotes,
    NoConfigs,
    DuplicateId,
    TooManyTemplates,
}

/// Which protection a deck-configuration removal ran into.
#[derive(Clone, Copy, Debug, PartialEq, Eq, Structural)]
pub enum Constraint {
    DefaultConfig,
    ConfigInUse,
}

/// Every failure an operation of the collection can report.
#[derive(Clone, Copy, Debug, PartialEq, Eq, Structural)]
pub enum AnkiError {
    NotFound { entity: Entity, id: i64 },
    InvalidInput(InvalidReason),
    ConstraintViolation(Constraint),
    FormatError,
    StorageFailure,
    MediaIoFailure,
}

} // verus!
