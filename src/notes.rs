use vstd::prelude::*;

use crate::changes::{OpChanges, OpChangesWithCount};
use crate::collection::{fits_notetype, note_exists, card_ids_unique, one_card_per_template, pushed_journal, Card, Collection, Note, Template, UndoEntry, UndoableOp};
use crate::error::{AnkiError, Entity, InvalidReason};
use crate::ids::{contains_note_id, CardId, DeckId, NoteId, NotetypeId};

verus! {

/// Whether a template makes a card from the given field contents.
pub open spec fn template_active(t: Template, fields: Seq<String>) -> bool {
    match t.required_field {
        None => true,
        Some(f) => f < fields.len() && fields[f as int]@.len() > 0,
    }
}

/// The ordinals of the templates that make a card, in template order.
pub open spec fn active_ords(ts: Seq<Template>, fields: Seq<String>) -> Seq<u32>
    decreases ts.len(),
{
    if ts.len() == 0 {
        Seq::empty()
    } else {
        let before = active_ords(ts.drop_last(), fields);
        if template_active(ts.last(), fields) {
            before.push((ts.len() - 1) as u32)
        } else {
            before
        }
    }
}

/// The cards made for note `nid` in deck `did`, one per ordinal, with ids
/// counting up from `first`.
pub open spec fn generated_cards(ords: Seq<u32>, nid: NoteId, did: DeckId, first: int) -> Seq<Card> {
    Seq::new(
        ords.len(),
        |k: int| Card { id: CardId((first + k) as i64), note_id: nid, deck_id: did, ord: ords[k] },
    )
}

/// The notes that a removal targets: `note_ids` when given, else the owners
/// of the cards named by `card_ids`.
pub open spec fn removal_targets(cards: Seq<Card>, note_ids: Seq<NoteId>, card_ids: Seq<CardId>) -> Seq<NoteId> {
    if note_ids.len() > 0 {
        note_ids
    } else {
        cards.filter(card_named(card_ids)).map_values(card_owner())
    }
}

/// A card is one of `ids`.
pub open spec fn card_named(ids: Seq<CardId>) -> spec_fn(Card) -> bool {
    |c: Card| ids.contains(c.id)
}

/// The note a card belongs to.
pub open spec fn card_owner() -> spec_fn(Card) -> NoteId {
    |c: Card| c.note_id
}

/// A note survives a removal of `t`.
pub open spec fn note_kept(t: Seq<NoteId>) -> spec_fn(Note) -> bool {
    |n: Note| !t.contains(n.id)
}

/// A card survives a removal of the notes `t`.
pub open spec fn card_kept(t: Seq<NoteId>) -> spec_fn(Card) -> bool {
    |c: Card| !t.contains(c.note_id)
}

/// One more element of a prefix either joins the filtered prefix or not.
pub proof fn lemma_filter_take_step<A>(s: Seq<A>, p: spec_fn(A) -> bool, j: int)
    requires
        0 <= j < s.len(),
    ensures
        s.take(j + 1).filter(p) == if p(s[j]) {
            s.take(j).filter(p).push(s[j])
        } else {
            s.take(j).filter(p)
        },
{
    reveal(Seq::filter);
    assert(s.take(j + 1).drop_last() =~= s.take(j));
}

/// No two notes share an id.
pub open spec fn note_ids_unique(s: Seq<Note>) -> bool {
    forall|i: int, j: int| 0 <= i < j < s.len() ==> (#[trigger] s[i]).id != (#[trigger] s[j]).id
}

/// Filtering keeps note ids unique.
pub proof fn lemma_filter_note_ids_unique(s: Seq<Note>, p: spec_fn(Note) -> bool)
    requires
        note_ids_unique(s),
    ensures
        note_ids_unique(s.filter(p)),
    decreases s.len(),
{
    reveal(Seq::filter);
    if s.len() > 0 {
        let d = s.drop_last();
        assert(note_ids_unique(d));
        lemma_filter_note_ids_unique(d, p);
        if p(s.last()) {
            let f = d.filter(p);
            assert forall|i: int| 0 <= i < f.len() implies (#[trigger] f[i]).id != s.last().id by {
                assert(f.contains(f[i]));
                d.lemma_filter_contains_rev(p, f[i]);
                let j = choose|j: int| 0 <= j < d.len() && d[j] == f[i];
                assert(s[j] == d[j]);
                assert(s[j].id != s[s.len() - 1].id);
            }
        }
    }
}

/// Whether `ids` holds `id`.
fn contains_card_id(ids: &Vec<CardId>, id: CardId) -> (r: bool)
    ensures
        r == ids@.contains(id),
{
    let mut i: usize = 0;
    while i < ids.len()
        invariant
            i <= ids@.len(),
            forall|j: int| 0 <= j < i ==> ids@[j] != id,
        decreases ids@.len() - i,
    {
        if ids[i] == id {
            return true;
        }
        i = i + 1;
    }
    false
}

/// The owners of the cards named by `card_ids`, in card order.
fn owners_of_cards(cards: &Vec<Card>, card_ids: &Vec<CardId>) -> (r: Vec<NoteId>)
    ensures
        r@ == cards@.filter(card_named(card_ids@)).map_values(card_owner()),
{
    let mut r: Vec<NoteId> = Vec::new();
    let mut j: usize = 0;
    while j < cards.len()
        invariant
            j <= cards@.len(),
            r@ == cards@.take(j as int).filter(card_named(card_ids@)).map_values(card_owner()),
        decreases cards@.len() - j,
    {
        proof {
            lemma_filter_take_step(cards@, card_named(card_ids@), j as int);
        }
        let c = cards[j];
        assert(card_named(card_ids@)(c) == card_ids@.contains(c.id));
        if contains_card_id(card_ids, c.id) {
            r.push(c.note_id);
            assert(r@ =~= cards@.take(j + 1).filter(card_named(card_ids@)).map_values(card_owner()));
        }
        j = j + 1;
    }
    assert(cards@.take(cards@.len() as int) =~= cards@);
    r
}

/// The notes of `v` that are not in `t`, in order.
fn retain_notes(v: Vec<Note>, t: &Vec<NoteId>) -> (r: Vec<Note>)
    ensures
        r@ == v@.filter(note_kept(t@)),
{
    let ghost orig = v@;
    let mut v = v;
    let mut i: usize = 0;
    let ghost mut j: int = 0;
    while i < v.len()
        invariant
            0 <= j <= orig.len(),
            i == orig.take(j).filter(note_kept(t@)).len(),
            v@ == orig.take(j).filter(note_kept(t@)) + orig.skip(j),
        decreases v@.len() - i,
    {
        proof {
            lemma_filter_take_step(orig, note_kept(t@), j);
            assert(v@[i as int] == orig[j]);
            assert(note_kept(t@)(orig[j]) == !t@.contains(orig[j].id));
            assert(orig.skip(j) =~= seq![orig[j]] + orig.skip(j + 1));
        }
        let ghost prefix = orig.take(j).filter(note_kept(t@));
        if contains_note_id(t, v[i].id) {
            v.remove(i);
            assert(v@ =~= prefix + orig.skip(j + 1));
        } else {
            i = i + 1;
            assert(v@ =~= prefix.push(orig[j]) + orig.skip(j + 1));
        }
        proof {
            j = j + 1;
        }
    }
    assert(orig.take(orig.len() as int) =~= orig);
    assert(v@ =~= orig.take(j).filter(note_kept(t@)));
    v
}

/// The cards of `v` whose note is not in `t`, in order.
fn retain_cards(v: &Vec<Card>, t: &Vec<NoteId>) -> (r: Vec<Card>)
    ensures
        r@ == v@.filter(card_kept(t@)),
{
    let mut r: Vec<Card> = Vec::new();
    let mut j: usize = 0;
    while j < v.len()
        invariant
            j <= v@.len(),
            r@ == v@.take(j as int).filter(card_kept(t@)),
        decreases v@.len() - j,
    {
        proof {
            lemma_filter_take_step(v@, card_kept(t@), j as int);
        }
        let c = v[j];
        assert(card_kept(t@)(c) == !t@.contains(c.note_id));
        if !contains_note_id(t, c.note_id) {
            r.push(c);
        }
        j = j + 1;
    }
    assert(v@.take(v@.len() as int) =~= v@);
    r
}

impl Collection {
    /// Removes the notes `note_ids`, or when that is empty the notes owning
    /// the cards `card_ids`, together with every card of those notes. The
    /// count is the number of notes removed.
    pub fn remove_notes(&mut self, note_ids: Vec<NoteId>, card_ids: Vec<CardId>) -> (r: OpChangesWithCount)
        requires
            old(self).wf(),
        ensures
            final(self).wf(),
            ({
                let t = removal_targets(old(self).cards@, note_ids@, card_ids@);
                &&& final(self).notes@ == old(self).notes@.filter(note_kept(t))
                &&& final(self).cards@ == old(self).cards@.filter(card_kept(t))
                &&& r.count == old(self).notes@.len() - final(self).notes@.len()
                &&& (exists|i: int| 0 <= i < old(self).notes@.len() && t.contains(#[trigger] old(self).notes@[i].id))
                    ==> r.count > 0 && r.changes.note
                &&& r.changes == OpChanges::note_changes(
                    r.count > 0,
                    final(self).cards@.len() < old(self).cards@.len(),
                )
            }),
            final(self).undo@ == pushed_journal(
                old(self).undo@,
                UndoEntry { op: UndoableOp::RemoveNote, changes: r.changes, usn: old(self).usn },
            ),
            final(self).notetypes == old(self).notetypes,
            final(self).decks == old(self).decks,
            final(self).deck_configs == old(self).deck_configs,
            final(self).next_id == old(self).next_id,
    {
        let targets = if note_ids.len() > 0 {
            note_ids
        } else {
            owners_of_cards(&self.cards, &card_ids)
        };
        let ghost t = targets@;
        let mut notes: Vec<Note> = Vec::new();
        std::mem::swap(&mut notes, &mut self.notes);
        let before_notes = notes.len();
        let kept = retain_notes(notes, &targets);
        let kept_cards = retain_cards(&self.cards, &targets);
        proof {
            old(self).notes@.lemma_filter_len(note_kept(t));
            assert(note_ids_unique(old(self).notes@));
            lemma_filter_note_ids_unique(old(self).notes@, note_kept(t));
            lemma_filter_cards_wf(old(self).cards@, card_kept(t));
            assert forall|i: int| 0 <= i < kept_cards@.len() implies note_exists(kept@, (#[trigger] kept_cards@[i]).note_id) by {
                let c = kept_cards@[i];
                old(self).cards@.lemma_filter_contains_rev(card_kept(t), c);
                let w = choose|w: int| 0 <= w < old(self).cards@.len() && old(self).cards@[w] == c;
                assert(note_exists(old(self).notes@, old(self).cards@[w].note_id));
                let j = choose|j: int| 0 <= j < old(self).notes@.len() && old(self).notes@[j].id == c.note_id;
                old(self).cards@.filter_lemma(card_kept(t));
                assert(card_kept(t)(c));
                assert(note_kept(t)(old(self).notes@[j]));
                old(self).notes@.filter_lemma(note_kept(t));
                assert(kept@.contains(old(self).notes@[j]));
                let v = choose|v: int| 0 <= v < kept@.len() && kept@[v] == old(self).notes@[j];
                assert(kept@[v].id == c.note_id);
            }
            assert forall|j: int| 0 <= j < kept@.len() implies fits_notetype(#[trigger] kept@[j], old(self).notetypes@) by {
                old(self).notes@.lemma_filter_contains_rev(note_kept(t), kept@[j]);
                let w = choose|w: int| 0 <= w < old(self).notes@.len() && old(self).notes@[w] == kept@[j];
                assert(fits_notetype(old(self).notes@[w], old(self).notetypes@));
            }
            if exists|i: int| 0 <= i < old(self).notes@.len() && t.contains(#[trigger] old(self).notes@[i].id) {
                let i = choose|i: int| 0 <= i < old(self).notes@.len() && t.contains(#[trigger] old(self).notes@[i].id);
                lemma_filter_shorter(old(self).notes@, note_kept(t), i);
            }
            old(self).cards@.lemma_filter_len(card_kept(t));
            assert forall|i: int| 0 <= i < kept@.len() implies (#[trigger] kept@[i]).id.0 < self.next_id by {
                old(self).notes@.lemma_filter_contains_rev(note_kept(t), kept@[i]);
                old(self).notes@.filter_lemma(note_kept(t));
            }
            old(self).cards@.filter_lemma(card_kept(t));
            assert forall|i: int| 0 <= i < kept_cards@.len() implies (#[trigger] kept_cards@[i]).id.0 < self.next_id
                && kept_cards@[i].note_id.0 < self.next_id by {
                old(self).cards@.lemma_filter_contains_rev(card_kept(t), kept_cards@[i]);
            }
        }
        let count = before_notes - kept.len();
        let cards_changed = kept_cards.len() < self.cards.len();
        self.notes = kept;
        self.cards = kept_cards;
        let changes = OpChanges::for_notes(count > 0, cards_changed);
        self.record_undo(UndoableOp::RemoveNote, changes);
        OpChangesWithCount { count, changes }
    }
}

impl Collection {
    /// The cards that adding `n` to deck `did` makes, with the note taking
    /// id `next_id` and the cards the ids after it.
    pub open spec fn cards_for_new_note(&self, n: Note, did: DeckId, nt_index: int) -> Seq<Card> {
        generated_cards(
            active_ords(self.notetypes@[nt_index].templates@, n.fields@),
            NoteId(self.next_id),
            did,
            self.next_id + 1,
        )
    }

    /// The cards made for `fields` from `templates`, appended to `cards`.
    fn generate_cards(
        templates: &Vec<Template>,
        fields: &Vec<String>,
        nid: NoteId,
        did: DeckId,
        first: i64,
        cards: &mut Vec<Card>,
    )
        requires
            templates@.len() < u32::MAX,
            first + templates@.len() < i64::MAX,
        ensures
            final(cards)@ == old(cards)@ + generated_cards(
                active_ords(templates@, fields@),
                nid,
                did,
                first as int,
            ),
    {
        let ghost start = cards@;
        let mut t: usize = 0;
        let mut next: i64 = first;
        while t < templates.len()
            invariant
                t <= templates@.len(),
                templates@.len() < u32::MAX,
                first + templates@.len() < i64::MAX,
                next == first + active_ords(templates@.take(t as int), fields@).len(),
                active_ords(templates@.take(t as int), fields@).len() <= t,
                cards@ == start + generated_cards(
                    active_ords(templates@.take(t as int), fields@),
                    nid,
                    did,
                    first as int,
                ),
            decreases templates@.len() - t,
        {
            let ghost before = active_ords(templates@.take(t as int), fields@);
            assert(templates@.take(t + 1).drop_last() =~= templates@.take(t as int));
            let active = match templates[t].required_field {
                None => true,
                Some(f) => f < fields.len() && fields[f].as_str().unicode_len() > 0,
            };
            assert(active == template_active(templates@[t as int], fields@));
            if active {
                cards.push(Card { id: CardId(next), note_id: nid, deck_id: did, ord: t as u32 });
                next = next + 1;
                assert(generated_cards(before.push(t as u32), nid, did, first as int) =~= generated_cards(
                    before,
                    nid,
                    did,
                    first as int,
                ).push(Card { id: CardId((next - 1) as i64), note_id: nid, deck_id: did, ord: t as u32 }));
            }
            t = t + 1;
        }
        assert(templates@.take(t as int) =~= templates@);
    }

    /// Adds a note to deck `did` with a fresh id, and one card for each
    /// template that is active on its fields, all in `did`.
    pub fn add_note(&mut self, note: Option<Note>, did: DeckId) -> (r: Result<(NoteId, OpChanges), AnkiError>)
        requires
            old(self).wf(),
        ensures
            final(self).wf(),
            note is None ==> r == Err::<(NoteId, OpChanges), AnkiError>(
                AnkiError::InvalidInput(InvalidReason::NoNoteProvided),
            ),
            note is Some && !old(self).has_notetype(note->Some_0.notetype_id) ==> r == Err::<
                (NoteId, OpChanges),
                AnkiError,
            >(AnkiError::NotFound { entity: Entity::Notetype, id: note->Some_0.notetype_id.0 }),
            forall|k: int| #[trigger]
                old(self).notetype_at(note->Some_0.notetype_id, k) && note is Some ==> {
                    let n = note->Some_0;
                    let nt = old(self).notetypes@[k];
                    let gen = old(self).cards_for_new_note(n, did, k);
                    &&& n.fields@.len() != nt.field_names@.len() ==> r == Err::<
                        (NoteId, OpChanges),
                        AnkiError,
                    >(AnkiError::InvalidInput(InvalidReason::FieldCountMismatch))
                    &&& n.fields@.len() == nt.field_names@.len() && !old(self).has_deck(did) ==> r
                        == Err::<(NoteId, OpChanges), AnkiError>(
                        AnkiError::NotFound { entity: Entity::Deck, id: did.0 },
                    )
                    &&& n.fields@.len() == nt.field_names@.len() && old(self).has_deck(did)
                        && old(self).next_id + 1 + nt.templates@.len() >= i64::MAX ==> r
                        == Err::<(NoteId, OpChanges), AnkiError>(AnkiError::StorageFailure)
                    &&& n.fields@.len() == nt.field_names@.len() && old(self).has_deck(did)
                        && old(self).next_id + 1 + nt.templates@.len() < i64::MAX ==> {
                        &&& r == Ok::<(NoteId, OpChanges), AnkiError>(
                            (NoteId(old(self).next_id), OpChanges::note_changes(true, gen.len() > 0)),
                        )
                        &&& final(self).notes@.drop_last() == old(self).notes@
                        &&& final(self).notes@.len() == old(self).notes@.len() + 1
                        &&& final(self).notes@.last().id == NoteId(old(self).next_id)
                        &&& final(self).notes@.last().notetype_id == n.notetype_id
                        &&& final(self).notes@.last().fields == n.fields
                        &&& final(self).notes@.last().tags == n.tags
                        &&& final(self).notes@.last().mtime == old(self).now
                        &&& final(self).notes@.last().usn == old(self).usn
                        &&& final(self).cards@ == old(self).cards@ + gen
                        &&& final(self).next_id == old(self).next_id + 1 + gen.len()
                        &&& final(self).undo@ == pushed_journal(
                            old(self).undo@,
                            UndoEntry {
                                op: UndoableOp::AddNote,
                                changes: OpChanges::note_changes(true, gen.len() > 0),
                                usn: old(self).usn,
                            },
                        )
                    }
                },
            r is Err ==> final(self).notes@ == old(self).notes@ && final(self).cards@
                == old(self).cards@ && final(self).next_id == old(self).next_id
                && final(self).undo@ == old(self).undo@,
            final(self).notetypes == old(self).notetypes,
            final(self).decks == old(self).decks,
            final(self).deck_configs == old(self).deck_configs,
    {
        let mut n = match note {
            None => {
                return Err(AnkiError::InvalidInput(InvalidReason::NoNoteProvided));
            },
            Some(n) => n,
        };
        let k = match self.find_notetype(n.notetype_id) {
            None => {
                return Err(AnkiError::NotFound { entity: Entity::Notetype, id: n.notetype_id.0 });
            },
            Some(k) => k,
        };
        if n.fields.len() != self.notetypes[k].field_names.len() {
            return Err(AnkiError::InvalidInput(InvalidReason::FieldCountMismatch));
        }
        if self.find_deck(did).is_none() {
            return Err(AnkiError::NotFound { entity: Entity::Deck, id: did.0 });
        }
        let ntemplates = self.notetypes[k].templates.len();
        assert(old(self).notetypes@[k as int].templates@.len() < u32::MAX);
        if self.next_id >= i64::MAX - 1 - ntemplates as i64 {
            return Err(AnkiError::StorageFailure);
        }
        let nid = NoteId(self.next_id);
        let cards_before = self.cards.len();
        let ghost gen = old(self).cards_for_new_note(n, did, k as int);
        proof {
            lemma_active_ords_len(self.notetypes@[k as int].templates@, n.fields@);
        }
        Collection::generate_cards(
            &self.notetypes[k].templates,
            &n.fields,
            nid,
            did,
            self.next_id + 1,
            &mut self.cards,
        );
        let made = self.cards.len() - cards_before;
        assert(made == gen.len());
        n.id = nid;
        n.mtime = self.now;
        n.usn = self.usn;
        self.notes.push(n);
        self.next_id = self.next_id + 1 + made as i64;
        assert(self.notes@.drop_last() =~= old(self).notes@);
        let changes = OpChanges::for_notes(true, made > 0);
        proof {
            assert forall|i: int| 0 <= i < self.cards@.len() implies (#[trigger] self.cards@[i]).id.0 < self.next_id
                && self.cards@[i].note_id.0 < self.next_id by {
                if i >= old(self).cards@.len() {
                    assert(self.cards@[i] == gen[i - old(self).cards@.len()]);
                }
            }
        }
        proof {
            let o = old(self).cards@.len() as int;
            let last = self.notes@.len() - 1;
            assert(self.notes@[last].id == nid);
            assert forall|i: int| 0 <= i < self.cards@.len() implies note_exists(self.notes@, (#[trigger] self.cards@[i]).note_id) by {
                if i < o {
                    assert(self.cards@[i] == old(self).cards@[i]);
                    assert(note_exists(old(self).notes@, old(self).cards@[i].note_id));
                    let j = choose|j: int| 0 <= j < old(self).notes@.len() && old(self).notes@[j].id == old(self).cards@[i].note_id;
                    assert(self.notes@[j] == old(self).notes@[j]);
                } else {
                    assert(self.cards@[i] == gen[i - o]);
                }
            }
            assert forall|j: int| 0 <= j < self.notes@.len() implies fits_notetype(#[trigger] self.notes@[j], self.notetypes@) by {
                if j < last {
                    assert(self.notes@[j] == old(self).notes@[j]);
                } else {
                    assert(self.notetypes@[k as int].id == self.notes@[j].notetype_id);
                }
            }
        }
        proof {
            let ords = active_ords(old(self).notetypes@[k as int].templates@, n.fields@);
            lemma_active_ords_increasing(old(self).notetypes@[k as int].templates@, n.fields@);
            assert forall|a: int, b: int| 0 <= a < b < self.cards@.len() implies (#[trigger] self.cards@[a]).id
                != (#[trigger] self.cards@[b]).id && !(self.cards@[a].note_id == self.cards@[b].note_id
                && self.cards@[a].ord == self.cards@[b].ord) by {
                let o = old(self).cards@.len() as int;
                if b < o {
                    assert(self.cards@[a] == old(self).cards@[a] && self.cards@[b] == old(self).cards@[b]);
                } else if a < o {
                    assert(self.cards@[a] == old(self).cards@[a]);
                    assert(self.cards@[b] == gen[b - o]);
                } else {
                    assert(self.cards@[a] == gen[a - o] && self.cards@[b] == gen[b - o]);
                    assert(ords[a - o] < ords[b - o]);
                }
            }
        }
        self.record_undo(UndoableOp::AddNote, changes);
        proof {
            assert forall|j: int| #[trigger] old(self).notetype_at(n.notetype_id, j) implies j == k by {
                if j != k {
                    assert(old(self).notetypes@[j].id != old(self).notetypes@[k as int].id);
                }
            }
        }
        Ok((nid, changes))
    }
}

/// At most one ordinal per template.
pub proof fn lemma_active_ords_len(ts: Seq<Template>, fields: Seq<String>)
    ensures
        active_ords(ts, fields).len() <= ts.len(),
    decreases ts.len(),
{
    if ts.len() > 0 {
        lemma_active_ords_len(ts.drop_last(), fields);
    }
}

/// Filtering keeps a sequence whose every element passes.
pub proof fn lemma_filter_all<A>(s: Seq<A>, p: spec_fn(A) -> bool)
    requires
        forall|i: int| 0 <= i < s.len() ==> p(#[trigger] s[i]),
    ensures
        s.filter(p) == s,
    decreases s.len(),
{
    reveal(Seq::filter);
    if s.len() > 0 {
        lemma_filter_all(s.drop_last(), p);
        assert(s.drop_last().push(s.last()) =~= s);
    }
}

/// Filtering empties a sequence whose every element fails.
pub proof fn lemma_filter_none<A>(s: Seq<A>, p: spec_fn(A) -> bool)
    requires
        forall|i: int| 0 <= i < s.len() ==> !p(#[trigger] s[i]),
    ensures
        s.filter(p) == Seq::<A>::empty(),
    decreases s.len(),
{
    reveal(Seq::filter);
    if s.len() > 0 {
        lemma_filter_none(s.drop_last(), p);
    }
}

/// Adding a note makes one card per template active on its fields, and
/// removing that note again takes away exactly those cards and no others.
pub proof fn lemma_add_then_remove_note(before: Collection, k: int, n: Note, did: DeckId)
    requires
        before.wf(),
        0 <= k < before.notetypes@.len(),
    ensures
        ({
            let gen = before.cards_for_new_note(n, did, k);
            let t = removal_targets(before.cards@ + gen, seq![NoteId(before.next_id)], seq![]);
            &&& gen.len() == active_ords(before.notetypes@[k].templates@, n.fields@).len()
            &&& (before.cards@ + gen).filter(card_kept(t)) == before.cards@
            &&& (before.cards@ + gen).len() - (before.cards@ + gen).filter(card_kept(t)).len() == gen.len()
        }),
{
    let gen = before.cards_for_new_note(n, did, k);
    let t = seq![NoteId(before.next_id)];
    assert forall|i: int| 0 <= i < before.cards@.len() implies card_kept(t)(#[trigger] before.cards@[i]) by {
        assert(before.cards@[i].note_id.0 < before.next_id);
        assert(!t.contains(before.cards@[i].note_id)) by {
            if t.contains(before.cards@[i].note_id) {
                assert(t[0] == before.cards@[i].note_id);
            }
        }
    }
    lemma_filter_all(before.cards@, card_kept(t));
    assert forall|i: int| 0 <= i < gen.len() implies !card_kept(t)(#[trigger] gen[i]) by {
        assert(t[0] == gen[i].note_id);
    }
    lemma_filter_none(gen, card_kept(t));
    Seq::filter_distributes_over_add(before.cards@, gen, card_kept(t));
    assert(before.cards@ + Seq::<Card>::empty() =~= before.cards@);
}

/// Ordinals come out strictly increasing, each below the template count.
pub proof fn lemma_active_ords_increasing(ts: Seq<Template>, fields: Seq<String>)
    requires
        ts.len() < u32::MAX,
    ensures
        forall|a: int, b: int| 0 <= a < b < active_ords(ts, fields).len() ==> (#[trigger] active_ords(ts, fields)[a])
            < (#[trigger] active_ords(ts, fields)[b]),
        forall|a: int| 0 <= a < active_ords(ts, fields).len() ==> (#[trigger] active_ords(ts, fields)[a]) < ts.len(),
    decreases ts.len(),
{
    if ts.len() > 0 {
        lemma_active_ords_increasing(ts.drop_last(), fields);
        let pre = active_ords(ts.drop_last(), fields);
        let res = active_ords(ts, fields);
        if template_active(ts.last(), fields) {
            assert(res == pre.push((ts.len() - 1) as u32));
            assert forall|a: int| 0 <= a < pre.len() implies res[a] == pre[a] && pre[a] < ts.len() - 1 by {}
            assert(res[pre.len() as int] == ts.len() - 1);
        } else {
            assert(res == pre);
        }
    }
}

/// Filtering keeps card ids unique and at most one card per template.
pub proof fn lemma_filter_cards_wf(s: Seq<Card>, p: spec_fn(Card) -> bool)
    requires
        card_ids_unique(s),
        one_card_per_template(s),
    ensures
        card_ids_unique(s.filter(p)),
        one_card_per_template(s.filter(p)),
    decreases s.len(),
{
    reveal(Seq::filter);
    if s.len() > 0 {
        let d = s.drop_last();
        assert(card_ids_unique(d) && one_card_per_template(d));
        lemma_filter_cards_wf(d, p);
        if p(s.last()) {
            let f = d.filter(p);
            assert forall|i: int| 0 <= i < f.len() implies (#[trigger] f[i]).id != s.last().id && !(f[i].note_id
                == s.last().note_id && f[i].ord == s.last().ord) by {
                assert(f.contains(f[i]));
                d.lemma_filter_contains_rev(p, f[i]);
                let j = choose|j: int| 0 <= j < d.len() && d[j] == f[i];
                assert(s[j] == d[j]);
                assert(s[j].id != s[s.len() - 1].id);
            }
            let g = s.filter(p);
            assert(g == f.push(s.last()));
            assert forall|a: int, b: int| 0 <= a < b < g.len() implies (#[trigger] g[a]).id != (#[trigger] g[b]).id
                && !(g[a].note_id == g[b].note_id && g[a].ord == g[b].ord) by {
                if b < f.len() {
                    assert(g[a] == f[a] && g[b] == f[b]);
                } else {
                    assert(g[a] == f[a] && g[b] == s.last());
                }
            }
        }
    }
}

/// Filtering out at least one element shortens a sequence.
pub proof fn lemma_filter_shorter<A>(s: Seq<A>, p: spec_fn(A) -> bool, i: int)
    requires
        0 <= i < s.len(),
        !p(s[i]),
    ensures
        s.filter(p).len() < s.len(),
    decreases s.len(),
{
    reveal(Seq::filter);
    s.drop_last().lemma_filter_len(p);
    if i < s.len() - 1 {
        assert(s.drop_last()[i] == s[i]);
        lemma_filter_shorter(s.drop_last(), p, i);
    }
}

} // verus!
