use vstd::prelude::*;

verus! {

/// Identity of a note.
#[derive(Clone, Copy, Debug, PartialEq, Eq, Structural)]
pub struct NoteId(pub i64);

/// Identity of a card.
#[derive(Clone, Copy, Debug, PartialEq, Eq, Structural)]
pub struct CardId(pub i64);

/// Identity of a deck.
#[derive(Clone, Copy, Debug, PartialEq, Eq, Structural)]
pub struct DeckId(pub i64);

/// Identity of a deck configuration.
#[derive(Clone, Copy, Debug, PartialEq, Eq, Structural)]
pub struct DeckConfigId(pub i64);

/// Identity of a notetype.
#[derive(Clone, Copy, Debug, PartialEq, Eq, Structural)]
pub struct NotetypeId(pub i64);

/// The configuration that every collection has and that cannot be removed.
pub const DEFAULT_DECK_CONFIG_ID: i64 = 1;

/// Converts raw integers into note ids, keeping their order.
pub fn to_note_ids(ids: Vec<i64>) -> (r: Vec<NoteId>)
    ensures
        r@.len() == ids@.len(),
        forall|i: int| 0 <= i < ids@.len() ==> (#[trigger] r@[i]).0 == ids@[i],
{
    let mut r: Vec<NoteId> = Vec::new();
    let mut i: usize = 0;
    while i < ids.len()
        invariant
            i <= ids@.len(),
            r@.len() == i,
            forall|j: int| 0 <= j < i ==> (#[trigger] r@[j]).0 == ids@[j],
        decreases ids@.len() - i,
    {
        r.push(NoteId(ids[i]));
        i = i + 1;
    }
    r
}

/// Converts note ids back into raw integers, keeping their order.
pub fn to_i64s(ids: Vec<NoteId>) -> (r: Vec<i64>)
    ensures
        r@.len() == ids@.len(),
        forall|i: int| 0 <= i < ids@.len() ==> #[trigger] r@[i] == ids@[i].0,
{
    let mut r: Vec<i64> = Vec::new();
    let mut i: usize = 0;
    while i < ids.len()
        invariant
            i <= ids@.len(),
            r@.len() == i,
            forall|j: int| 0 <= j < i ==> #[trigger] r@[j] == ids@[j].0,
        decreases ids@.len() - i,
    {
        r.push(ids[i].0);
        i = i + 1;
    }
    r
}

/// Whether `ids` holds `id`.
pub fn contains_note_id(ids: &Vec<NoteId>, id: NoteId) -> (r: bool)
    ensures
        r == ids@.contains(id),
{
    let mut i: usize = 0;
    while i < ids.len()
        invariant
            i <= ids@.len(),
            forall|j: int| 0 <= j < i ==> ids@[j] != id,
        decreases ids@.len() - i,
    {
        if ids[i] == id {
            return true;
        }
        i = i + 1;
    }
    false
}

} // verus!
