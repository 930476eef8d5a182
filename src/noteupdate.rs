use vstd::prelude::*;

use crate::changes::{OpChanges, OpChangesWithCount};
use crate::collection::{fits_notetype, note_exists, card_ids_unique, one_card_per_template, pushed_journal, texts, Card, Collection, Note, Template, UndoEntry, UndoableOp};
use crate::error::{AnkiError, Entity, InvalidReason};
use crate::ids::{contains_note_id, CardId, DeckId, NoteId};
use crate::notes::{active_ords, template_active};

verus! {

/// Some card of note `nid` has ordinal `o`.
pub open spec fn has_card(cards: Seq<Card>, nid: NoteId, o: u32) -> bool {
    exists|i: int| 0 <= i < cards.len() && (#[trigger] cards[i]).note_id == nid && cards[i].ord == o
}

/// Note `nid` has a card for every ordinal of `ords`.
pub open spec fn cards_complete(cards: Seq<Card>, nid: NoteId, ords: Seq<u32>) -> bool {
    forall|k: int| 0 <= k < ords.len() ==> has_card(cards, nid, #[trigger] ords[k])
}

/// `new` is `old` followed by cards with consecutive ids from `first`.
pub open spec fn cards_appended(old: Seq<Card>, new: Seq<Card>, first: int) -> bool {
    &&& old.len() <= new.len()
    &&& new.take(old.len() as int) == old
    &&& forall|i: int| old.len() <= i < new.len() ==> (#[trigger] new[i]).id.0 == first + (i - old.len())
}

/// Two notes have the same field texts and tag texts.
pub open spec fn content_eq(a: Note, b: Note) -> bool {
    texts(a.fields@) == texts(b.fields@) && texts(a.tags@) == texts(b.tags@)
}

/// Index of the last note of `ups` with id `id`, or -1.
pub open spec fn last_update(ups: Seq<Note>, id: NoteId) -> int
    decreases ups.len(),
{
    if ups.len() == 0 {
        -1
    } else if ups.last().id == id {
        ups.len() - 1
    } else {
        last_update(ups.drop_last(), id)
    }
}

/// `last_update` names a note with that id, or none exists.
pub proof fn lemma_last_update(ups: Seq<Note>, id: NoteId)
    ensures
        -1 <= last_update(ups, id) < ups.len(),
        last_update(ups, id) >= 0 ==> ups[last_update(ups, id)].id == id,
        last_update(ups, id) < 0 ==> forall|q: int| 0 <= q < ups.len() ==> (#[trigger] ups[q]).id != id,
    decreases ups.len(),
{
    if ups.len() > 0 {
        lemma_last_update(ups.drop_last(), id);
        if ups.last().id != id {
            assert forall|q: int| 0 <= q < ups.len() && last_update(ups, id) < 0 implies (#[trigger] ups[q]).id != id by {
                if q < ups.len() - 1 {
                    assert(ups[q] == ups.drop_last()[q]);
                }
            }
        }
    }
}

/// Whether two string lists have the same texts.
pub fn same_texts(a: &Vec<String>, b: &Vec<String>) -> (r: bool)
    ensures
        r == (texts(a@) == texts(b@)),
{
    if a.len() != b.len() {
        assert(texts(a@).len() != texts(b@).len());
        return false;
    }
    let mut i: usize = 0;
    while i < a.len()
        invariant
            i <= a@.len(),
            a@.len() == b@.len(),
            forall|j: int| 0 <= j < i ==> a@[j]@ == b@[j]@,
        decreases a@.len() - i,
    {
        if a[i] != b[i] {
            assert(texts(a@)[i as int] != texts(b@)[i as int]);
            return false;
        }
        i = i + 1;
    }
    assert(texts(a@) =~= texts(b@));
    true
}

/// Whether note `nid` has a card with ordinal `o`.
fn find_card(cards: &Vec<Card>, nid: NoteId, o: u32) -> (r: bool)
    ensures
        r == has_card(cards@, nid, o),
{
    let mut i: usize = 0;
    while i < cards.len()
        invariant
            i <= cards@.len(),
            forall|j: int| 0 <= j < i ==> !((#[trigger] cards@[j]).note_id == nid && cards@[j].ord == o),
        decreases cards@.len() - i,
    {
        if cards[i].note_id == nid && cards[i].ord == o {
            assert(cards@[i as int].note_id == nid);
            return true;
        }
        i = i + 1;
    }
    false
}

/// The deck of the first card of note `nid`, or `fallback` when it has none.
pub fn home_deck(cards: &Vec<Card>, nid: NoteId, fallback: DeckId) -> (r: DeckId)
    ensures
        (forall|i: int| 0 <= i < cards@.len() ==> (#[trigger] cards@[i]).note_id != nid) ==> r == fallback,
        (exists|i: int| 0 <= i < cards@.len() && (#[trigger] cards@[i]).note_id == nid) ==> exists|i: int|
            0 <= i < cards@.len() && (#[trigger] cards@[i]).note_id == nid && r == cards@[i].deck_id
            && forall|j: int| 0 <= j < i ==> (#[trigger] cards@[j]).note_id != nid,
{
    let mut i: usize = 0;
    while i < cards.len()
        invariant
            i <= cards@.len(),
            forall|j: int| 0 <= j < i ==> (#[trigger] cards@[j]).note_id != nid,
        decreases cards@.len() - i,
    {
        if cards[i].note_id == nid {
            return cards[i].deck_id;
        }
        i = i + 1;
    }
    fallback
}

/// Adds, in deck `did`, a card for each template active on `fields` that
/// note `nid` has no card for yet.
pub fn add_missing_cards(
    templates: &Vec<Template>,
    fields: &Vec<String>,
    nid: NoteId,
    did: DeckId,
    cards: &mut Vec<Card>,
    next: &mut i64,
)
    requires
        templates@.len() < u32::MAX,
        0 <= *old(next),
        *old(next) + templates@.len() < i64::MAX,
        forall|i: int| 0 <= i < old(cards)@.len() ==> (#[trigger] old(cards)@[i]).id.0 < *old(next),
        card_ids_unique(old(cards)@),
        one_card_per_template(old(cards)@),
    ensures
        card_ids_unique(final(cards)@),
        one_card_per_template(final(cards)@),
        forall|i: int| 0 <= i < final(cards)@.len() ==> (#[trigger] final(cards)@[i]).id.0 < *final(next),
        cards_appended(old(cards)@, final(cards)@, *old(next) as int),
        *final(next) == *old(next) + (final(cards)@.len() - old(cards)@.len()),
        final(cards)@.len() - old(cards)@.len() <= templates@.len(),
        forall|i: int| old(cards)@.len() <= i < final(cards)@.len() ==> (#[trigger] final(cards)@[i]).note_id == nid
            && final(cards)@[i].deck_id == did && !has_card(old(cards)@, nid, final(cards)@[i].ord)
            && active_ords(templates@, fields@).contains(final(cards)@[i].ord),
        cards_complete(final(cards)@, nid, active_ords(templates@, fields@)),
{
    let ghost start = cards@;
    let ghost first = *next as int;
    let mut t: usize = 0;
    assert(forall|i: int| 0 <= i < cards@.len() ==> (#[trigger] cards@[i]).id.0 < *next);
    assert(cards@.take(start.len() as int) =~= start);
    while t < templates.len()
        invariant
            t <= templates@.len(),
            templates@.len() < u32::MAX,
            0 <= first,
            first + templates@.len() < i64::MAX,
            cards_appended(start, cards@, first),
            *next == first + (cards@.len() - start.len()),
            forall|i: int| 0 <= i < cards@.len() ==> (#[trigger] cards@[i]).id.0 < *next,
            card_ids_unique(cards@),
            one_card_per_template(cards@),
            cards@.len() - start.len() <= t,
            forall|i: int| start.len() <= i < cards@.len() ==> (#[trigger] cards@[i]).note_id == nid
                && cards@[i].deck_id == did && !has_card(start, nid, cards@[i].ord)
                && active_ords(templates@.take(t as int), fields@).contains(cards@[i].ord),
            cards_complete(cards@, nid, active_ords(templates@.take(t as int), fields@)),
        decreases templates@.len() - t,
    {
        let ghost before = active_ords(templates@.take(t as int), fields@);
        let ghost c0 = cards@;
        assert(templates@.take(t + 1).drop_last() =~= templates@.take(t as int));
        let active = match templates[t].required_field {
            None => true,
            Some(f) => f < fields.len() && fields[f].as_str().unicode_len() > 0,
        };
        assert(active == template_active(templates@[t as int], fields@));
        let ghost after = active_ords(templates@.take(t + 1), fields@);
        assert(active ==> after == before.push(t as u32));
        assert(!active ==> after == before);
        if active && !find_card(cards, nid, t as u32) {
            assert(!has_card(start, nid, t as u32)) by {
                if has_card(start, nid, t as u32) {
                    let w = choose|w: int| 0 <= w < start.len() && (#[trigger] start[w]).note_id == nid && start[w].ord == t as u32;
                    assert(cards@.take(start.len() as int)[w] == start[w]);
                    assert(cards@[w] == start[w]);
                }
            }
            cards.push(Card { id: CardId(*next), note_id: nid, deck_id: did, ord: t as u32 });
            *next = *next + 1;
            proof {
                assert forall|a: int, b: int| 0 <= a < b < cards@.len() implies (#[trigger] cards@[a]).id != (#[trigger] cards@[b]).id
                    && !(cards@[a].note_id == cards@[b].note_id && cards@[a].ord == cards@[b].ord) by {
                    if b < c0.len() {
                        assert(cards@[a] == c0[a] && cards@[b] == c0[b]);
                    } else {
                        assert(cards@[a] == c0[a]);
                        assert(c0[a].id.0 < *next - 1);
                        if c0[a].note_id == nid && c0[a].ord == t as u32 {
                            assert(has_card(c0, nid, t as u32));
                        }
                    }
                }
                assert(cards@.take(start.len() as int) =~= start) by {
                    assert(c0.take(start.len() as int) == start);
                }
                assert(cards@[cards@.len() - 1].ord == t as u32);
                assert(after[after.len() - 1] == t as u32);
            }
        }
        proof {
            assert forall|i: int| start.len() <= i < cards@.len() implies after.contains((#[trigger] cards@[i]).ord) by {
                if i < c0.len() {
                    assert(cards@[i] == c0[i]);
                    assert(before.contains(c0[i].ord));
                    let w = choose|w: int| 0 <= w < before.len() && before[w] == c0[i].ord;
                    assert(after[w] == before[w]);
                } else {
                    assert(after[after.len() - 1] == t as u32);
                }
            }
            assert forall|k: int| 0 <= k < after.len() implies has_card(cards@, nid, #[trigger] after[k]) by {
                if k < before.len() {
                    assert(after[k] == before[k]);
                    assert(has_card(c0, nid, before[k]));
                    let w = choose|w: int| 0 <= w < c0.len() && (#[trigger] c0[w]).note_id == nid && c0[w].ord == before[k];
                    assert(cards@[w] == c0[w]);
                } else {
                    assert(after[k] == t as u32);
                    if has_card(c0, nid, t as u32) {
                        let w = choose|w: int| 0 <= w < c0.len() && (#[trigger] c0[w]).note_id == nid && c0[w].ord == t as u32;
                        assert(cards@[w] == c0[w]);
                    } else {
                        assert(cards@[cards@.len() - 1].note_id == nid);
                    }
                }
            }
        }
        t = t + 1;
    }
    assert(templates@.take(t as int) =~= templates@);
}

/// Growing the cards keeps every card a note had.
pub proof fn lemma_has_card_grows(a: Seq<Card>, b: Seq<Card>, first: int, nid: NoteId, o: u32)
    requires
        cards_appended(a, b, first),
        has_card(a, nid, o),
    ensures
        has_card(b, nid, o),
{
    let w = choose|w: int| 0 <= w < a.len() && (#[trigger] a[w]).note_id == nid && a[w].ord == o;
    assert(b.take(a.len() as int)[w] == a[w]);
    assert(b[w] == a[w]);
}

/// The notes of `new` are those of `old` after the updates `ups` in turn:
/// untouched notes stay, touched ones carry the content of their last
/// update, and every note whose content changed was stamped.
pub open spec fn notes_updated(old: Seq<Note>, new: Seq<Note>, ups: Seq<Note>, now: i64, usn: i32) -> bool {
    &&& new.len() == old.len()
    &&& forall|j: int| 0 <= j < old.len() ==> (#[trigger] new[j]).id == old[j].id && new[j].notetype_id
        == old[j].notetype_id
    &&& forall|j: int| 0 <= j < old.len() && last_update(ups, old[j].id) < 0 ==> #[trigger] new[j] == old[j]
    &&& forall|j: int| 0 <= j < old.len() && last_update(ups, old[j].id) >= 0 ==> content_eq(
        #[trigger] new[j],
        ups[last_update(ups, old[j].id)],
    )
    &&& forall|j: int| 0 <= j < old.len() && !content_eq(#[trigger] new[j], old[j]) ==> new[j].mtime == now
        && new[j].usn == usn
    &&& forall|j: int| 0 <= j < old.len() && untouched(old[j], ups) ==> #[trigger] new[j] == old[j]
}

/// Every update naming `n` leaves its content as it is: `n` is kept as it
/// was, time and usn included.
pub open spec fn untouched(n: Note, ups: Seq<Note>) -> bool {
    forall|q: int| 0 <= q < ups.len() && (#[trigger] ups[q]).id == n.id ==> content_eq(ups[q], n)
}

/// Every update leaves each note's content as it was.
pub open spec fn updates_are_noops(old: Seq<Note>, ups: Seq<Note>) -> bool {
    forall|q: int, j: int| 0 <= q < ups.len() && 0 <= j < old.len() && (#[trigger] ups[q]).id == (
    #[trigger] old[j]).id ==> content_eq(ups[q], old[j])
}

impl Collection {
    /// The stored note with id `id`.
    pub open spec fn note_with(&self, id: NoteId) -> Note {
        self.notes@[choose|i: int| 0 <= i < self.notes@.len() && self.notes@[i].id == id]
    }

    /// Every note of `new` whose content differs from `self` has a card for
    /// each template active on its fields.
    pub open spec fn cards_regenerated(&self, new: Seq<Note>, cards: Seq<Card>) -> bool {
        forall|j: int, k: int| 0 <= j < new.len() && j < self.notes@.len() && !content_eq(
            #[trigger] new[j],
            self.notes@[j],
        ) && #[trigger] self.notetype_at(new[j].notetype_id, k) ==> cards_complete(
            cards,
            new[j].id,
            active_ords(self.notetypes@[k].templates@, new[j].fields@),
        )
    }

    /// Why note `u` cannot be written, if it cannot.
    pub open spec fn update_error(&self, u: Note) -> Option<AnkiError> {
        if !self.has_note(u.id) {
            Some(AnkiError::NotFound { entity: Entity::Note, id: u.id.0 })
        } else if self.note_with(u.id).notetype_id != u.notetype_id {
            Some(AnkiError::InvalidInput(InvalidReason::NotetypeChanged))
        } else if !self.has_notetype(u.notetype_id) {
            Some(AnkiError::NotFound { entity: Entity::Notetype, id: u.notetype_id.0 })
        } else if u.fields@.len() != self.notetypes@[choose|k: int| self.notetype_at(u.notetype_id, k)].field_names@.len() {
            Some(AnkiError::InvalidInput(InvalidReason::FieldCountMismatch))
        } else {
            None
        }
    }

    /// Why note `u` cannot be written, as `update_error` says.
    fn check_update(&self, u: &Note) -> (r: Option<AnkiError>)
        requires
            self.wf(),
        ensures
            r == self.update_error(*u),
    {
        let j = match self.find_note(u.id) {
            None => {
                return Some(AnkiError::NotFound { entity: Entity::Note, id: u.id.0 });
            },
            Some(j) => j,
        };
        proof {
            let c = choose|i: int| 0 <= i < self.notes@.len() && self.notes@[i].id == u.id;
            self.lemma_note_index_unique(c as int, j as int);
        }
        if self.notes[j].notetype_id != u.notetype_id {
            return Some(AnkiError::InvalidInput(InvalidReason::NotetypeChanged));
        }
        let k = match self.find_notetype(u.notetype_id) {
            None => {
                return Some(AnkiError::NotFound { entity: Entity::Notetype, id: u.notetype_id.0 });
            },
            Some(k) => k,
        };
        proof {
            let c = choose|q: int| self.notetype_at(u.notetype_id, q);
            self.lemma_notetype_index_unique(c as int, k as int);
        }
        if u.fields.len() != self.notetypes[k].field_names.len() {
            return Some(AnkiError::InvalidInput(InvalidReason::FieldCountMismatch));
        }
        None
    }
}

impl Collection {
    /// Writes each note of `notes` over the stored note with its id, in
    /// order. A note whose field or tag texts differ from what is stored is
    /// stamped with the current time and usn and gets a card for every
    /// active template it lacks one for. Cards of templates that stopped
    /// applying are kept, not pruned. A note whose every update leaves its
    /// content as it is keeps its time and usn. Every note is checked before
    /// any is written; the first that fails decides the error and nothing
    /// changes.
    pub fn update_notes(&mut self, notes: Vec<Note>, undoable: bool) -> (r: Result<OpChanges, AnkiError>)
        requires
            old(self).wf(),
        ensures
            final(self).wf(),
            forall|p: int| 0 <= p < notes@.len() && (#[trigger] old(self).update_error(notes@[p])) is Some && (forall|q: int|
                0 <= q < p ==> (#[trigger] old(self).update_error(notes@[q])) is None) ==> r == Err::<OpChanges, AnkiError>(
                old(self).update_error(notes@[p])->Some_0,
            ),
            (forall|p: int| 0 <= p < notes@.len() ==> (#[trigger] old(self).update_error(notes@[p])) is None) ==> (r
                is Err <==> old(self).next_id + notes@.len() * 4294967295 >= i64::MAX),
            r is Err ==> r == Err::<OpChanges, AnkiError>(AnkiError::StorageFailure) || exists|p: int|
                0 <= p < notes@.len() && (#[trigger] old(self).update_error(notes@[p])) is Some,
            r is Err ==> final(self).notes == old(self).notes && final(self).cards == old(self).cards
                && final(self).undo == old(self).undo && final(self).next_id == old(self).next_id,
            r is Ok ==> {
                &&& notes_updated(old(self).notes@, final(self).notes@, notes@, old(self).now, old(self).usn)
                &&& old(self).cards_regenerated(final(self).notes@, final(self).cards@)
                &&& cards_appended(old(self).cards@, final(self).cards@, old(self).next_id as int)
                &&& r->Ok_0 == OpChanges::note_changes(
                    r->Ok_0.note,
                    final(self).cards@.len() > old(self).cards@.len(),
                )
                &&& !r->Ok_0.note ==> final(self).notes@ == old(self).notes@ && final(self).cards@
                    == old(self).cards@
                &&& updates_are_noops(old(self).notes@, notes@) ==> r->Ok_0.is_empty_spec() && final(self).notes@
                    == old(self).notes@ && final(self).cards@ == old(self).cards@
                &&& undoable ==> final(self).undo@ == pushed_journal(
                    old(self).undo@,
                    UndoEntry { op: UndoableOp::UpdateNote, changes: r->Ok_0, usn: old(self).usn },
                )
                &&& !undoable ==> final(self).undo == old(self).undo
            },
            final(self).notetypes == old(self).notetypes,
            final(self).decks == old(self).decks,
            final(self).deck_configs == old(self).deck_configs,
    {
        let n = notes.len();
        let mut p: usize = 0;
        while p < n
            invariant
                n == notes@.len(),
                p <= n,
                self.wf(),
                forall|q: int| 0 <= q < p ==> (#[trigger] self.update_error(notes@[q])) is None,
            decreases n - p,
        {
            if let Some(e) = self.check_update(&notes[p]) {
                return Err(e);
            }
            p = p + 1;
        }
        let room = (i64::MAX - self.next_id) as u64;
        match (n as u64).checked_mul(4294967295) {
            None => {
                return Err(AnkiError::StorageFailure);
            },
            Some(m) => {
                if m >= room {
                    return Err(AnkiError::StorageFailure);
                }
            },
        }
        let ghost old_notes = self.notes@;
        let ghost old_cards = self.cards@;
        let ghost first = self.next_id as int;
        let mut stored: Vec<Note> = Vec::new();
        std::mem::swap(&mut stored, &mut self.notes);
        let mut cards: Vec<Card> = Vec::new();
        std::mem::swap(&mut cards, &mut self.cards);
        let mut next = self.next_id;
        let mut changed = false;
        let now = self.now;
        let usn = self.usn;
        assert(cards@.take(old_cards.len() as int) =~= old_cards);
        let mut p: usize = 0;
        while p < n
            invariant
                n == notes@.len(),
                p <= n,
                old(self).wf(),
                self.notetypes == old(self).notetypes,
                old_notes == old(self).notes@,
                old_cards == old(self).cards@,
                first == old(self).next_id,
                now == old(self).now,
                usn == old(self).usn,
                forall|q: int| 0 <= q < n ==> (#[trigger] old(self).update_error(notes@[q])) is None,
                first <= next,
                next + (n - p) * 4294967295 < i64::MAX,
                notes_updated(old_notes, stored@, notes@.take(p as int), now, usn),
                forall|i: int| 0 <= i < cards@.len() ==> note_exists(old_notes, (#[trigger] cards@[i]).note_id),
                forall|jj: int| 0 <= jj < stored@.len() ==> fits_notetype(#[trigger] stored@[jj], old(self).notetypes@),
                old(self).cards_regenerated(stored@, cards@),
                cards_appended(old_cards, cards@, first),
                card_ids_unique(cards@),
                one_card_per_template(cards@),
                next == first + (cards@.len() - old_cards.len()),
                forall|i: int| 0 <= i < cards@.len() ==> (#[trigger] cards@[i]).id.0 < next && cards@[i].note_id.0
                    < next,
                !changed ==> stored@ == old_notes && cards@ == old_cards,
                updates_are_noops(old_notes, notes@.take(p as int)) ==> !changed,
            decreases n - p,
        {
            let ghost ups0 = notes@.take(p as int);
            let ghost ups1 = notes@.take(p + 1);
            let ghost s0 = stored@;
            let ghost c0 = cards@;
            assert(ups1.drop_last() =~= ups0);
            let u = &notes[p];
            assert(old(self).update_error(notes@[p as int]) is None);
            let j = match self.find_note_in(&stored, u.id) {
                Some(j) => j,
                None => {
                    proof {
                        let w = choose|i: int| 0 <= i < old_notes.len() && old_notes[i].id == u.id;
                        assert(stored@[w].id == u.id);
                    }
                    return Err(AnkiError::StorageFailure);
                },
            };
            let k = match self.find_notetype(u.notetype_id) {
                Some(k) => k,
                None => {
                    proof {
                        let c = choose|i: int| 0 <= i < old_notes.len() && old_notes[i].id == u.id;
                        assert(old(self).has_notetype(u.notetype_id));
                        let w = choose|q: int| old(self).notetype_at(u.notetype_id, q);
                        assert(self.notetype_at(u.notetype_id, w));
                    }
                    return Err(AnkiError::StorageFailure);
                },
            };
            proof {
                let c = choose|i: int| 0 <= i < old_notes.len() && old_notes[i].id == u.id;
                if c != j {
                    if c < j {
                        assert(old_notes[c].id != old_notes[j as int].id);
                    } else {
                        assert(old_notes[j as int].id != old_notes[c].id);
                    }
                }
                assert(old_notes[j as int].notetype_id == u.notetype_id);
                assert forall|q: int| #[trigger] old(self).notetype_at(u.notetype_id, q) implies q == k by {
                    old(self).lemma_notetype_index_unique(q as int, k as int);
                }
                assert forall|jj: int| 0 <= jj < old_notes.len() && jj != j implies (#[trigger] old_notes[jj]).id != u.id by {
                    if jj < j {
                        assert(old_notes[jj].id != old_notes[j as int].id);
                    } else {
                        assert(old_notes[j as int].id != old_notes[jj].id);
                    }
                }
                lemma_last_update(ups0, u.id);
            }
            let same = same_texts(&stored[j].fields, &u.fields) && same_texts(&stored[j].tags, &u.tags);
            if !same {
                let fields = u.fields.clone();
                let tags = u.tags.clone();
                assert(fields@ =~= u.fields@);
                assert(tags@ =~= u.tags@);
                let nid = u.id;
                let fallback = match self.notetypes[k].default_deck {
                    Some(d) => d,
                    None => DeckId(1),
                };
                let did = home_deck(&cards, nid, fallback);
                assert(old(self).notetypes@[k as int].templates@.len() < u32::MAX);
                add_missing_cards(&self.notetypes[k].templates, &fields, nid, did, &mut cards, &mut next);
                stored.set(j, Note { id: nid, notetype_id: u.notetype_id, fields, tags, mtime: now, usn });
                proof {
                    assert(fits_notetype(stored@[j as int], old(self).notetypes@)) by {
                        assert(old(self).notetype_at(u.notetype_id, k as int));
                    }
                    assert forall|jj: int| 0 <= jj < stored@.len() implies fits_notetype(#[trigger] stored@[jj], old(self).notetypes@) by {
                        if jj != j {
                            assert(stored@[jj] == s0[jj]);
                        }
                    }
                    assert forall|i: int| 0 <= i < cards@.len() implies note_exists(old_notes, (#[trigger] cards@[i]).note_id) by {
                        if i < c0.len() {
                            assert(cards@.take(c0.len() as int)[i] == c0[i]);
                        } else {
                            assert(old_notes[j as int].id == nid);
                        }
                    }
                }
                changed = true;
                proof {
                    assert(u.id.0 < old(self).next_id) by {
                        assert(old_notes[j as int].id.0 < old(self).next_id);
                    }
                    assert forall|i: int| 0 <= i < cards@.len() implies (#[trigger] cards@[i]).id.0 < next
                        && cards@[i].note_id.0 < next by {
                        if i < c0.len() {
                            assert(cards@.take(c0.len() as int)[i] == c0[i]);
                        }
                    }
                    assert(cards_appended(old_cards, cards@, first)) by {
                        assert(cards@.take(c0.len() as int) == c0);
                        assert(cards@.take(old_cards.len() as int) =~= c0.take(old_cards.len() as int));
                        assert forall|i: int| old_cards.len() <= i < cards@.len() implies (#[trigger] cards@[i]).id.0
                            == first + (i - old_cards.len()) by {
                            if i < c0.len() {
                                assert(cards@.take(c0.len() as int)[i] == c0[i]);
                            }
                        }
                    }
                }
            }
            proof {
                assert(ups1[p as int] == notes@[p as int]);
                assert(ups1.last() == *u);
                assert forall|jj: int| 0 <= jj < old_notes.len() implies last_update(ups1, old_notes[jj].id) == if jj == j {
                    p as int
                } else {
                    last_update(ups0, old_notes[jj].id)
                } by {}
                assert forall|jj: int| 0 <= jj < old_notes.len() && jj != j implies #[trigger] stored@[jj] == s0[jj] by {}
                assert(content_eq(stored@[j as int], *u)) by {
                    if same {
                        assert(stored@[j as int] == s0[j as int]);
                    }
                }
                assert(!same ==> stored@[j as int].mtime == now && stored@[j as int].usn == usn);
                assert(same ==> stored@[j as int] == s0[j as int]);
                assert forall|jj: int| 0 <= jj < old_notes.len() && last_update(ups1, old_notes[jj].id) >= 0 implies content_eq(
                    #[trigger] stored@[jj],
                    ups1[last_update(ups1, old_notes[jj].id)],
                ) by {
                    if jj != j {
                        lemma_last_update(ups0, old_notes[jj].id);
                        assert(ups1[last_update(ups0, old_notes[jj].id)] == ups0[last_update(ups0, old_notes[jj].id)]);
                    }
                }
                assert forall|jj: int| 0 <= jj < old_notes.len() && !content_eq(#[trigger] stored@[jj], old_notes[jj]) implies stored@[jj].mtime
                    == now && stored@[jj].usn == usn by {
                    if jj == j && same {
                        assert(stored@[jj] == s0[jj]);
                    }
                }
                assert forall|jj: int| 0 <= jj < old_notes.len() && untouched(old_notes[jj], ups1) implies #[trigger] stored@[jj]
                    == old_notes[jj] by {
                    assert forall|q: int| 0 <= q < ups0.len() && (#[trigger] ups0[q]).id == old_notes[jj].id implies content_eq(
                        ups0[q],
                        old_notes[jj],
                    ) by {
                        assert(ups1[q] == ups0[q]);
                    }
                    if jj == j {
                        assert(ups1[p as int].id == old_notes[jj].id);
                        assert(content_eq(ups1[p as int], old_notes[jj]));
                        assert(s0[jj] == old_notes[jj]);
                        assert(same);
                    }
                }
                assert(notes_updated(old_notes, stored@, ups1, now, usn));
                assert forall|jj: int, kk: int| 0 <= jj < stored@.len() && jj < old_notes.len() && !content_eq(
                    #[trigger] stored@[jj],
                    old_notes[jj],
                ) && #[trigger] old(self).notetype_at(stored@[jj].notetype_id, kk) implies cards_complete(
                    cards@,
                    stored@[jj].id,
                    active_ords(old(self).notetypes@[kk].templates@, stored@[jj].fields@),
                ) by {
                    if jj == j && !same {
                        assert(kk == k);
                    } else {
                        assert(stored@[jj] == s0[jj]);
                        let ords = active_ords(old(self).notetypes@[kk].templates@, stored@[jj].fields@);
                        assert forall|q: int| 0 <= q < ords.len() implies has_card(cards@, stored@[jj].id, #[trigger] ords[q]) by {
                            assert(has_card(c0, stored@[jj].id, ords[q]));
                            if !same {
                                lemma_has_card_grows(c0, cards@, c0.len() as int - old_cards.len() + first, stored@[jj].id, ords[q]);
                            }
                        }
                    }
                }
                if updates_are_noops(old_notes, ups1) {
                    assert forall|q: int, jj: int| 0 <= q < ups0.len() && 0 <= jj < old_notes.len() && (#[trigger] ups0[q]).id
                        == (#[trigger] old_notes[jj]).id implies content_eq(ups0[q], old_notes[jj]) by {
                        assert(ups1[q] == ups0[q]);
                    }
                    assert(ups1[p as int] == notes@[p as int]);
                    assert(content_eq(ups1[p as int], old_notes[j as int]));
                }
            }
            p = p + 1;
        }
        assert(notes@.take(n as int) =~= notes@);
        let changes = OpChanges::for_notes(changed, next > self.next_id);
        self.notes = stored;
        self.cards = cards;
        self.next_id = next;
        proof {
            assert forall|a: int, b: int| 0 <= a < b < self.notes@.len() implies (#[trigger] self.notes@[a]).id != (
            #[trigger] self.notes@[b]).id by {
                assert(old_notes[a].id != old_notes[b].id);
            }
            assert forall|a: int| 0 <= a < self.notes@.len() implies (#[trigger] self.notes@[a]).id.0 < self.next_id by {
                assert(old_notes[a].id.0 < old(self).next_id);
            }
            assert forall|i: int| 0 <= i < self.cards@.len() implies note_exists(self.notes@, (#[trigger] self.cards@[i]).note_id) by {
                let w = choose|w: int| 0 <= w < old_notes.len() && old_notes[w].id == self.cards@[i].note_id;
                assert(self.notes@[w].id == old_notes[w].id);
            }
        }
        if undoable {
            self.record_undo(UndoableOp::UpdateNote, changes);
        }
        Ok(changes)
    }

    /// Index of the note with id `id` in `notes`.
    fn find_note_in(&self, notes: &Vec<Note>, id: NoteId) -> (r: Option<usize>)
        ensures
            match r {
                Some(i) => i < notes@.len() && notes@[i as int].id == id,
                None => forall|i: int| 0 <= i < notes@.len() ==> notes@[i].id != id,
            },
    {
        let mut i: usize = 0;
        while i < notes.len()
            invariant
                i <= notes@.len(),
                forall|j: int| 0 <= j < i ==> notes@[j].id != id,
            decreases notes@.len() - i,
        {
            if notes[i].id == id {
                return Some(i);
            }
            i = i + 1;
        }
        None
    }
}

impl Collection {
    /// Every note of `notes` with its id among `nids` has a card for each
    /// template active on its fields.
    pub open spec fn cards_generated_for(&self, notes: Seq<Note>, nids: Seq<NoteId>, cards: Seq<Card>) -> bool {
        forall|j: int, k: int| 0 <= j < notes.len() && nids.contains((#[trigger] notes[j]).id)
            && #[trigger] self.notetype_at(notes[j].notetype_id, k) ==> cards_complete(
            cards,
            notes[j].id,
            active_ords(self.notetypes@[k].templates@, notes[j].fields@),
        )
    }

    /// Follow-up work after notes `nids` were edited elsewhere: with
    /// `generate_cards`, each gets a card for every active template it lacks
    /// one for; with `mark_modified`, each is stamped with the current time
    /// and usn. The count is the number of ids given.
    pub fn after_note_updates(&mut self, nids: &Vec<NoteId>, generate_cards: bool, mark_modified: bool) -> (r: Result<
        OpChangesWithCount,
        AnkiError,
    >)
        requires
            old(self).wf(),
        ensures
            final(self).wf(),
            forall|p: int| 0 <= p < nids@.len() && !old(self).has_note(#[trigger] nids@[p]) && (forall|q: int|
                0 <= q < p ==> old(self).has_note(#[trigger] nids@[q])) ==> r == Err::<OpChangesWithCount, AnkiError>(
                AnkiError::NotFound { entity: Entity::Note, id: nids@[p].0 },
            ),
            (forall|p: int| 0 <= p < nids@.len() ==> old(self).has_note(#[trigger] nids@[p])) ==> (r is Err
                <==> old(self).next_id + nids@.len() * 4294967295 >= i64::MAX),
            r is Err ==> final(self).notes == old(self).notes && final(self).cards == old(self).cards
                && final(self).undo == old(self).undo && final(self).next_id == old(self).next_id,
            r is Ok ==> {
                &&& r->Ok_0.count == nids@.len()
                &&& final(self).notes@.len() == old(self).notes@.len()
                &&& forall|j: int| 0 <= j < old(self).notes@.len() ==> {
                    let a = old(self).notes@[j];
                    let b = #[trigger] final(self).notes@[j];
                    &&& b.id == a.id && b.notetype_id == a.notetype_id && b.fields == a.fields && b.tags == a.tags
                    &&& if mark_modified && nids@.contains(a.id) {
                        b.mtime == old(self).now && b.usn == old(self).usn
                    } else {
                        b.mtime == a.mtime && b.usn == a.usn
                    }
                }
                &&& cards_appended(old(self).cards@, final(self).cards@, old(self).next_id as int)
                &&& !generate_cards ==> final(self).cards@ == old(self).cards@
                &&& generate_cards ==> old(self).cards_generated_for(final(self).notes@, nids@, final(self).cards@)
                &&& r->Ok_0.changes == OpChanges::note_changes(
                    mark_modified && nids@.len() > 0,
                    final(self).cards@.len() > old(self).cards@.len(),
                )
                &&& final(self).undo@ == pushed_journal(
                    old(self).undo@,
                    UndoEntry { op: UndoableOp::UpdateNote, changes: r->Ok_0.changes, usn: old(self).usn },
                )
            },
            final(self).notetypes == old(self).notetypes,
            final(self).decks == old(self).decks,
            final(self).deck_configs == old(self).deck_configs,
    {
        let n = nids.len();
        let mut p: usize = 0;
        while p < n
            invariant
                n == nids@.len(),
                p <= n,
                self == old(self),
                self.wf(),
                forall|q: int| 0 <= q < p ==> self.has_note(#[trigger] nids@[q]),
            decreases n - p,
        {
            if self.find_note(nids[p]).is_none() {
                return Err(AnkiError::NotFound { entity: Entity::Note, id: nids[p].0 });
            }
            p = p + 1;
        }
        let room = (i64::MAX - self.next_id) as u64;
        match (n as u64).checked_mul(4294967295) {
            None => {
                return Err(AnkiError::StorageFailure);
            },
            Some(m) => {
                if m >= room {
                    return Err(AnkiError::StorageFailure);
                }
            },
        }
        let ghost old_notes = self.notes@;
        let ghost old_cards = self.cards@;
        let ghost first = self.next_id as int;
        let mut cards: Vec<Card> = Vec::new();
        std::mem::swap(&mut cards, &mut self.cards);
        let mut next = self.next_id;
        assert(cards@.take(old_cards.len() as int) =~= old_cards);
        if generate_cards {
            let mut p: usize = 0;
            while p < n
                invariant
                    old(self).wf(),
                    self.notes@ == old_notes,
                    old_notes == old(self).notes@,
                    self.notetypes == old(self).notetypes,
                    old_cards == old(self).cards@,
                    first == old(self).next_id,
                    n == nids@.len(),
                    p <= n,
                    first <= next,
                    next + (n - p) * 4294967295 < i64::MAX,
                    cards_appended(old_cards, cards@, first),
                    card_ids_unique(cards@),
                    one_card_per_template(cards@),
                    next == first + (cards@.len() - old_cards.len()),
                    forall|i: int| 0 <= i < cards@.len() ==> (#[trigger] cards@[i]).id.0 < next
                        && cards@[i].note_id.0 < next,
                    forall|i: int| 0 <= i < cards@.len() ==> note_exists(old_notes, (#[trigger] cards@[i]).note_id),
                    forall|jj: int, k: int| 0 <= jj < old_notes.len() && nids@.take(p as int).contains((#[trigger] old_notes[jj]).id)
                        && #[trigger] old(self).notetype_at(old_notes[jj].notetype_id, k) ==> cards_complete(
                        cards@,
                        old_notes[jj].id,
                        active_ords(old(self).notetypes@[k].templates@, old_notes[jj].fields@),
                    ),
                    forall|q: int| 0 <= q < n ==> old(self).has_note(#[trigger] nids@[q]),
                decreases n - p,
            {
                let ghost c0 = cards@;
                let ghost mut called = false;
                let nid = nids[p];
                assert(old(self).has_note(nids@[p as int]));
                let j = match self.find_note(nid) {
                    Some(j) => j,
                    None => {
                        return Err(AnkiError::StorageFailure);
                    },
                };
                proof {
                    assert forall|jj: int| 0 <= jj < old_notes.len() && jj != j implies (#[trigger] old_notes[jj]).id != nid by {
                        if jj < j {
                            assert(old_notes[jj].id != old_notes[j as int].id);
                        } else {
                            assert(old_notes[j as int].id != old_notes[jj].id);
                        }
                    }
                }
                match self.find_notetype(self.notes[j].notetype_id) {
                    Some(k) => {
                        assert(old(self).notetypes@[k as int].templates@.len() < u32::MAX);
                        let fallback = match self.notetypes[k].default_deck {
                            Some(d) => d,
                            None => DeckId(1),
                        };
                        let did = home_deck(&cards, nid, fallback);
                        add_missing_cards(&self.notetypes[k].templates, &self.notes[j].fields, nid, did, &mut cards, &mut next);
                        proof {
                            called = true;
                            assert forall|i: int| 0 <= i < cards@.len() implies note_exists(old_notes, (#[trigger] cards@[i]).note_id) by {
                                if i < c0.len() {
                                    assert(cards@.take(c0.len() as int)[i] == c0[i]);
                                } else {
                                    assert(old_notes[j as int].id == nid);
                                }
                            }
                            assert(nid.0 < first) by {
                                assert(old_notes[j as int].id.0 < old(self).next_id);
                            }
                            assert forall|i: int| 0 <= i < cards@.len() implies (#[trigger] cards@[i]).id.0 < next
                                && cards@[i].note_id.0 < next by {
                                if i < c0.len() {
                                    assert(cards@.take(c0.len() as int)[i] == c0[i]);
                                }
                            }
                            assert(cards_appended(old_cards, cards@, first)) by {
                                assert(cards@.take(c0.len() as int) == c0);
                                assert(cards@.take(old_cards.len() as int) =~= c0.take(old_cards.len() as int));
                                assert forall|i: int| old_cards.len() <= i < cards@.len() implies (#[trigger] cards@[i]).id.0
                                    == first + (i - old_cards.len()) by {
                                    if i < c0.len() {
                                        assert(cards@.take(c0.len() as int)[i] == c0[i]);
                                    }
                                }
                            }
                            assert forall|q: int| #[trigger] old(self).notetype_at(old_notes[j as int].notetype_id, q) implies q == k by {
                                old(self).lemma_notetype_index_unique(q as int, k as int);
                            }
                        }
                    },
                    None => {},
                }
                proof {
                    assert(nids@.take(p + 1) =~= nids@.take(p as int).push(nid));
                    assert forall|jj: int, k: int| 0 <= jj < old_notes.len() && nids@.take(p + 1).contains((#[trigger] old_notes[jj]).id)
                        && #[trigger] old(self).notetype_at(old_notes[jj].notetype_id, k) implies cards_complete(
                        cards@,
                        old_notes[jj].id,
                        active_ords(old(self).notetypes@[k].templates@, old_notes[jj].fields@),
                    ) by {
                        crate::mediacheck::lemma_push_contains(nids@.take(p as int), nid, old_notes[jj].id);
                        if jj != j || nids@.take(p as int).contains(old_notes[jj].id) {
                            if !nids@.take(p as int).contains(old_notes[jj].id) {
                                assert(old_notes[jj].id != nid);
                            }
                            let ords = active_ords(old(self).notetypes@[k].templates@, old_notes[jj].fields@);
                            assert forall|q: int| 0 <= q < ords.len() implies has_card(cards@, old_notes[jj].id, #[trigger] ords[q]) by {
                                assert(has_card(c0, old_notes[jj].id, ords[q]));
                                if called {
                                    lemma_has_card_grows(c0, cards@, c0.len() as int - old_cards.len() + first, old_notes[jj].id, ords[q]);
                                }
                            }
                        } else {
                            assert(self.notetype_at(old_notes[jj].notetype_id, k));
                            assert(called);
                        }
                    }
                }
                p = p + 1;
            }
            assert(nids@.take(n as int) =~= nids@);
        }
        let grew = next > self.next_id;
        self.cards = cards;
        self.next_id = next;
        if mark_modified {
            let mut notes: Vec<Note> = Vec::new();
            std::mem::swap(&mut notes, &mut self.notes);
            let mut j: usize = 0;
            while j < notes.len()
                invariant
                    notes@.len() == old_notes.len(),
                    j <= notes@.len(),
                    forall|q: int| 0 <= q < notes@.len() ==> {
                        let a = old_notes[q];
                        let b = #[trigger] notes@[q];
                        &&& b.id == a.id && b.notetype_id == a.notetype_id && b.fields == a.fields && b.tags == a.tags
                        &&& if q < j && nids@.contains(a.id) {
                            b.mtime == old(self).now && b.usn == old(self).usn
                        } else {
                            b.mtime == a.mtime && b.usn == a.usn
                        }
                    },
                    self.now == old(self).now,
                    self.usn == old(self).usn,
                decreases notes@.len() - j,
            {
                if contains_note_id(nids, notes[j].id) {
                    let mut note = notes.remove(j);
                    note.mtime = self.now;
                    note.usn = self.usn;
                    notes.insert(j, note);
                }
                j = j + 1;
            }
            self.notes = notes;
        }
        proof {
            assert forall|i: int| 0 <= i < self.cards@.len() implies note_exists(self.notes@, (#[trigger] self.cards@[i]).note_id) by {
                assert(note_exists(old_notes, self.cards@[i].note_id));
                let w = choose|w: int| 0 <= w < old_notes.len() && old_notes[w].id == self.cards@[i].note_id;
                assert(self.notes@[w].id == old_notes[w].id);
            }
            assert forall|j: int| 0 <= j < self.notes@.len() implies fits_notetype(#[trigger] self.notes@[j], self.notetypes@) by {
                assert(fits_notetype(old_notes[j], old(self).notetypes@));
                assert(self.notes@[j].fields == old_notes[j].fields);
            }
        }
        let changes = OpChanges::for_notes(mark_modified && n > 0, grew);
        self.record_undo(UndoableOp::UpdateNote, changes);
        Ok(OpChangesWithCount { count: n, changes })
    }
}

} // verus!
