use vstd::prelude::*;

verus! {

/// Which classes of records an operation touched.
#[derive(Clone, Copy, Debug, PartialEq, Eq, Structural)]
pub struct OpChanges {
    pub card: bool,
    pub note: bool,
    pub deck: bool,
    pub deck_config: bool,
    pub tag: bool,
    pub notetype: bool,
    pub config: bool,
    pub browser_table: bool,
    pub note_text: bool,
    pub study_queues: bool,
}

/// A change summary together with the number of rows affected.
#[derive(Clone, Copy, Debug, PartialEq, Eq, Structural)]
pub struct OpChangesWithCount {
    pub count: usize,
    pub changes: OpChanges,
}

impl OpChanges {
    /// True when no flag is set.
    pub open spec fn is_empty_spec(self) -> bool {
        !self.card && !self.note && !self.deck && !self.deck_config && !self.tag
            && !self.notetype && !self.config && !self.browser_table && !self.note_text
            && !self.study_queues
    }

    /// A summary with no flag set.
    pub fn none() -> (r: OpChanges)
        ensures
            r.is_empty_spec(),
    {
        OpChanges {
            card: false,
            note: false,
            deck: false,
            deck_config: false,
            tag: false,
            notetype: false,
            config: false,
            browser_table: false,
            note_text: false,
            study_queues: false,
        }
    }

    /// Whether any flag is set.
    pub fn has_changes(&self) -> (r: bool)
        ensures
            r == !self.is_empty_spec(),
    {
        self.card || self.note || self.deck || self.deck_config || self.tag || self.notetype
            || self.config || self.browser_table || self.note_text || self.study_queues
    }

    /// The summary of an operation that changed notes and, when `cards` holds, cards.
    pub open spec fn note_changes(notes: bool, cards: bool) -> OpChanges {
        OpChanges {
            card: cards,
            note: notes,
            deck: false,
            deck_config: false,
            tag: false,
            notetype: false,
            config: false,
            browser_table: notes || cards,
            note_text: notes,
            study_queues: cards,
        }
    }

    /// The summary of an operation that changed notes and, when `cards` holds, cards.
    pub fn for_notes(notes: bool, cards: bool) -> (r: OpChanges)
        ensures
            r == OpChanges::note_changes(notes, cards),
    {
        OpChanges {
            card: cards,
            note: notes,
            deck: false,
            deck_config: false,
            tag: false,
            notetype: false,
            config: false,
            browser_table: notes || cards,
            note_text: notes,
            study_queues: cards,
        }
    }
}

} // verus!
