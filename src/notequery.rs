use vstd::prelude::*;

use crate::collection::{card_ids_unique, one_card_per_template, texts, Card, Collection, Note};
use crate::error::{AnkiError, Entity, InvalidReason};
use crate::ids::{CardId, DeckId, NoteId, NotetypeId};

verus! {

/// How the first field of a note compares with the rest of the collection.
#[derive(Clone, Copy, Debug, PartialEq, Eq, Structural)]
pub enum NoteFieldsState {
    Normal,
    Empty,
    Duplicate,
}

/// Another note of the same notetype has the same first field.
pub open spec fn has_duplicate(notes: Seq<Note>, note: Note) -> bool {
    exists|i: int| 0 <= i < notes.len() && (#[trigger] notes[i]).id != note.id
        && notes[i].notetype_id == note.notetype_id && notes[i].fields@.len() > 0
        && notes[i].fields@[0]@ == note.fields@[0]@
}

/// The ids of the cards of note `nid` with ordinal below `o`, by ordinal and
/// then in store order.
pub open spec fn ids_by_ord(cards: Seq<Card>, nid: NoteId, o: nat) -> Seq<CardId>
    decreases o,
{
    if o == 0 {
        Seq::empty()
    } else {
        ids_by_ord(cards, nid, (o - 1) as nat) + cards.filter(card_at(nid, (o - 1) as nat)).map_values(
            card_id(),
        )
    }
}

/// A card of note `nid` with ordinal `o`.
pub open spec fn card_at(nid: NoteId, o: nat) -> spec_fn(Card) -> bool {
    |c: Card| c.note_id == nid && c.ord == o
}

/// The id of a card.
pub open spec fn card_id() -> spec_fn(Card) -> CardId {
    |c: Card| c.id
}

/// The ordinal of the card with id `id`.
pub open spec fn ord_of(cards: Seq<Card>, id: CardId) -> u32 {
    cards[choose|i: int| 0 <= i < cards.len() && cards[i].id == id].ord
}

/// Card `id` belongs to note `nid`.
pub open spec fn card_of(cards: Seq<Card>, id: CardId, nid: NoteId) -> bool {
    exists|i: int| 0 <= i < cards.len() && cards[i].id == id && cards[i].note_id == nid
}

/// Card `id` belongs to note `nid` and has an ordinal below `o`.
pub open spec fn card_of_below(cards: Seq<Card>, id: CardId, nid: NoteId, o: nat) -> bool {
    exists|i: int| 0 <= i < cards.len() && cards[i].id == id && cards[i].note_id == nid && cards[i].ord < o
}

/// With unique card ids and one card per template, `ids_by_ord` lists
/// cards of the note in strictly increasing template order.
pub proof fn lemma_ids_by_ord_sorted(cards: Seq<Card>, nid: NoteId, o: nat)
    requires
        card_ids_unique(cards),
        one_card_per_template(cards),
    ensures
        forall|a: int| 0 <= a < ids_by_ord(cards, nid, o).len() ==> card_of_below(
            cards,
            #[trigger] ids_by_ord(cards, nid, o)[a],
            nid,
            o,
        ),
        forall|a: int, b: int| 0 <= a < b < ids_by_ord(cards, nid, o).len() ==> ord_of(
            cards,
            #[trigger] ids_by_ord(cards, nid, o)[a],
        ) < ord_of(cards, #[trigger] ids_by_ord(cards, nid, o)[b]),
    decreases o,
{
    if o > 0 {
        let q = (o - 1) as nat;
        lemma_ids_by_ord_sorted(cards, nid, q);
        let r0 = ids_by_ord(cards, nid, q);
        let f = cards.filter(card_at(nid, q));
        let m = f.map_values(card_id());
        let r = ids_by_ord(cards, nid, o);
        assert(r == r0 + m);
        crate::notes::lemma_filter_cards_wf(cards, card_at(nid, q));
        cards.filter_lemma(card_at(nid, q));
        assert(f.len() <= 1) by {
            if f.len() > 1 {
                assert(card_at(nid, q)(f[0]) && card_at(nid, q)(f[1]));
            }
        }
        assert forall|c: Card| #[trigger] f.contains(c) implies exists|i: int| 0 <= i < cards.len() && cards[i] == c by {
            cards.lemma_filter_contains_rev(card_at(nid, q), c);
        }
        assert forall|x: int| 0 <= x < cards.len() implies ord_of(cards, #[trigger] cards[x].id) == cards[x].ord by {
            let c = choose|i: int| 0 <= i < cards.len() && cards[i].id == cards[x].id;
            if c != x {
                if c < x {
                    assert(cards[c].id != cards[x].id);
                } else {
                    assert(cards[x].id != cards[c].id);
                }
            }
        }
        assert forall|a: int| 0 <= a < r.len() implies card_of_below(cards, #[trigger] r[a], nid, o) && ord_of(cards, r[a]) <= q
            && (a >= r0.len() ==> ord_of(cards, r[a]) == q) by {
            if a < r0.len() {
                assert(r[a] == r0[a]);
                assert(card_of_below(cards, r0[a], nid, q));
                let i = choose|i: int| 0 <= i < cards.len() && cards[i].id == r0[a] && cards[i].note_id == nid && cards[i].ord < q;
                assert(ord_of(cards, cards[i].id) == cards[i].ord);
            } else {
                assert(r[a] == f[a - r0.len()].id);
                assert(f.contains(f[a - r0.len()]));
                let i = choose|i: int| 0 <= i < cards.len() && cards[i] == f[a - r0.len()];
                assert(card_at(nid, q)(f[a - r0.len()]));
                assert(ord_of(cards, cards[i].id) == cards[i].ord);
            }
        }
        assert forall|a: int, b: int| 0 <= a < b < r.len() implies ord_of(cards, #[trigger] r[a]) < ord_of(cards, #[trigger] r[b]) by {
            if b < r0.len() {
                assert(r[a] == r0[a] && r[b] == r0[b]);
            } else {
                assert(a < r0.len());
                assert(r[a] == r0[a]);
                let i = choose|i: int| 0 <= i < cards.len() && cards[i].id == r0[a] && cards[i].note_id == nid && cards[i].ord < q;
                assert(ord_of(cards, cards[i].id) == cards[i].ord);
            }
        }
    }
}

impl Note {
    /// A copy of this note.
    pub fn copy(&self) -> (r: Note)
        ensures
            r.id == self.id,
            r.notetype_id == self.notetype_id,
            r.fields@ == self.fields@,
            r.tags@ == self.tags@,
            r.mtime == self.mtime,
            r.usn == self.usn,
    {
        let fields = self.fields.clone();
        let tags = self.tags.clone();
        assert(fields@ =~= self.fields@);
        assert(tags@ =~= self.tags@);
        Note { id: self.id, notetype_id: self.notetype_id, fields, tags, mtime: self.mtime, usn: self.usn }
    }
}

impl Collection {
    /// Some note has id `id`.
    pub open spec fn has_note(&self, id: NoteId) -> bool {
        exists|i: int| 0 <= i < self.notes@.len() && self.notes@[i].id == id
    }

    /// Index of the note with id `id`, if there is one.
    pub fn find_note(&self, id: NoteId) -> (r: Option<usize>)
        ensures
            match r {
                Some(i) => i < self.notes@.len() && self.notes@[i as int].id == id,
                None => !self.has_note(id),
            },
    {
        let mut i: usize = 0;
        while i < self.notes.len()
            invariant
                i <= self.notes@.len(),
                forall|j: int| 0 <= j < i ==> self.notes@[j].id != id,
            decreases self.notes@.len() - i,
        {
            if self.notes[i].id == id {
                return Some(i);
            }
            i = i + 1;
        }
        None
    }

    /// An empty note of notetype `ntid`: one empty field per field of the
    /// notetype, no tags, and no id yet.
    pub fn new_note(&self, ntid: NotetypeId) -> (r: Result<Note, AnkiError>)
        requires
            self.wf(),
        ensures
            !self.has_notetype(ntid) ==> r == Err::<Note, AnkiError>(
                AnkiError::NotFound { entity: Entity::Notetype, id: ntid.0 },
            ),
            forall|k: int| #[trigger] self.notetype_at(ntid, k) ==> r is Ok && ({
                let n = r->Ok_0;
                &&& n.id == NoteId(0)
                &&& n.notetype_id == ntid
                &&& n.fields@.len() == self.notetypes@[k].field_names@.len()
                &&& forall|j: int| 0 <= j < n.fields@.len() ==> (#[trigger] n.fields@[j])@.len() == 0
                &&& n.tags@.len() == 0
            }),
    {
        let k = match self.find_notetype(ntid) {
            None => {
                return Err(AnkiError::NotFound { entity: Entity::Notetype, id: ntid.0 });
            },
            Some(k) => k,
        };
        let count = self.notetypes[k].field_names.len();
        let mut fields: Vec<String> = Vec::new();
        let mut j: usize = 0;
        while j < count
            invariant
                j <= count,
                fields@.len() == j,
                forall|q: int| 0 <= q < j ==> (#[trigger] fields@[q])@.len() == 0,
            decreases count - j,
        {
            fields.push(String::new());
            j = j + 1;
        }
        proof {
            assert forall|q: int| #[trigger] self.notetype_at(ntid, q) implies q == k by {
                self.lemma_notetype_index_unique(q as int, k as int);
            }
        }
        Ok(Note { id: NoteId(0), notetype_id: ntid, fields, tags: Vec::new(), mtime: 0, usn: 0 })
    }

    /// A copy of note `nid`.
    pub fn get_note(&self, nid: NoteId) -> (r: Result<Note, AnkiError>)
        ensures
            !self.has_note(nid) ==> r == Err::<Note, AnkiError>(AnkiError::NotFound { entity: Entity::Note, id: nid.0 }),
            self.has_note(nid) ==> r is Ok && exists|i: int| 0 <= i < self.notes@.len() && ({
                let n = #[trigger] self.notes@[i];
                let c = r->Ok_0;
                &&& n.id == nid
                &&& c.id == n.id && c.notetype_id == n.notetype_id && c.fields@ == n.fields@
                &&& c.tags@ == n.tags@ && c.mtime == n.mtime && c.usn == n.usn
            }),
    {
        match self.find_note(nid) {
            None => Err(AnkiError::NotFound { entity: Entity::Note, id: nid.0 }),
            Some(i) => Ok(self.notes[i].copy()),
        }
    }

    /// The ids of the cards of note `nid`, ordered by template ordinal.
    pub fn cards_of_note(&self, nid: NoteId) -> (r: Vec<CardId>)
        requires
            self.wf(),
        ensures
            exists|b: nat| (forall|i: int| 0 <= i < self.cards@.len() && (#[trigger] self.cards@[i]).note_id == nid
                ==> self.cards@[i].ord < b) && r@ == ids_by_ord(self.cards@, nid, b),
            forall|a: int| 0 <= a < r@.len() ==> card_of(self.cards@, #[trigger] r@[a], nid),
            forall|a: int, b: int| 0 <= a < b < r@.len() ==> ord_of(self.cards@, #[trigger] r@[a]) < ord_of(
                self.cards@,
                #[trigger] r@[b],
            ),
    {
        let cards = &self.cards;
        let mut bound: u64 = 0;
        let mut i: usize = 0;
        while i < cards.len()
            invariant
                i <= cards@.len(),
                bound <= u32::MAX as u64 + 1,
                forall|j: int| 0 <= j < i && (#[trigger] cards@[j]).note_id == nid ==> cards@[j].ord < bound,
            decreases cards@.len() - i,
        {
            if cards[i].note_id == nid && cards[i].ord as u64 >= bound {
                bound = cards[i].ord as u64 + 1;
            }
            i = i + 1;
        }
        let mut out: Vec<CardId> = Vec::new();
        let mut o: u64 = 0;
        while o < bound
            invariant
                o <= bound,
                bound <= u32::MAX as u64 + 1,
                out@ == ids_by_ord(cards@, nid, o as nat),
            decreases bound - o,
        {
            let ghost before = out@;
            let mut j: usize = 0;
            while j < cards.len()
                invariant
                    j <= cards@.len(),
                    o < bound,
                    bound <= u32::MAX as u64 + 1,
                    out@ == before + cards@.take(j as int).filter(card_at(nid, o as nat)).map_values(card_id()),
                decreases cards@.len() - j,
            {
                proof {
                    crate::notes::lemma_filter_take_step(cards@, card_at(nid, o as nat), j as int);
                }
                let c = cards[j];
                assert(card_at(nid, o as nat)(c) == (c.note_id == nid && c.ord == o as nat));
                if c.note_id == nid && c.ord as u64 == o {
                    out.push(c.id);
                    assert(out@ =~= before + cards@.take(j + 1).filter(card_at(nid, o as nat)).map_values(card_id()));
                }
                j = j + 1;
            }
            assert(cards@.take(cards@.len() as int) =~= cards@);
            o = o + 1;
            assert(out@ =~= ids_by_ord(cards@, nid, o as nat));
        }
        proof {
            lemma_ids_by_ord_sorted(cards@, nid, bound as nat);
            assert forall|a: int| 0 <= a < out@.len() implies card_of(self.cards@, #[trigger] out@[a], nid) by {
                assert(card_of_below(cards@, out@[a], nid, bound as nat));
            }
        }
        out
    }

    /// The notetype shared by all notes `nids`.
    pub fn get_single_notetype_of_notes(&self, nids: &Vec<NoteId>) -> (r: Result<NotetypeId, AnkiError>)
        ensures
            nids@.len() == 0 ==> r == Err::<NotetypeId, AnkiError>(AnkiError::InvalidInput(InvalidReason::NoNotes)),
            (exists|p: int| 0 <= p < nids@.len() && !self.has_note(#[trigger] nids@[p])) ==> r is Err,
            r is Ok ==> nids@.len() > 0 && forall|p: int| 0 <= p < nids@.len() ==> exists|i: int| 0 <= i < self.notes@.len()
                && self.notes@[i].id == #[trigger] nids@[p] && self.notes@[i].notetype_id == r->Ok_0,
            nids@.len() > 0 && (forall|p: int| 0 <= p < nids@.len() ==> self.has_note(#[trigger] nids@[p])) && r is Err
                ==> r == Err::<NotetypeId, AnkiError>(AnkiError::InvalidInput(InvalidReason::MixedNotetypes))
                && exists|p: int, q: int, i: int, j: int| 0 <= p < nids@.len() && 0 <= q < nids@.len()
                && 0 <= i < self.notes@.len() && 0 <= j < self.notes@.len() && self.notes@[i].id == nids@[p]
                && self.notes@[j].id == nids@[q] && self.notes@[i].notetype_id != self.notes@[j].notetype_id,
    {
        if nids.len() == 0 {
            return Err(AnkiError::InvalidInput(InvalidReason::NoNotes));
        }
        let first = match self.find_note(nids[0]) {
            None => {
                return Err(AnkiError::NotFound { entity: Entity::Note, id: nids[0].0 });
            },
            Some(i) => i,
        };
        let ntid = self.notes[first].notetype_id;
        let mut p: usize = 1;
        let mut mixed = false;
        let ghost mut wit: (int, int) = (0, 0);
        while p < nids.len()
            invariant
                1 <= p <= nids@.len(),
                first < self.notes@.len(),
                self.notes@[first as int].id == nids@[0],
                self.notes@[first as int].notetype_id == ntid,
                forall|q: int| 0 <= q < p ==> exists|i: int| 0 <= i < self.notes@.len()
                    && self.notes@[i].id == #[trigger] nids@[q] && (mixed || self.notes@[i].notetype_id == ntid),
                mixed ==> 0 <= wit.0 < p && 0 <= wit.1 < self.notes@.len() && self.notes@[wit.1].id == nids@[wit.0]
                    && self.notes@[wit.1].notetype_id != ntid,
            decreases nids@.len() - p,
        {
            match self.find_note(nids[p]) {
                None => {
                    return Err(AnkiError::NotFound { entity: Entity::Note, id: nids[p].0 });
                },
                Some(i) => {
                    if self.notes[i].notetype_id != ntid && !mixed {
                        mixed = true;
                        proof {
                            wit = (p as int, i as int);
                        }
                    }
                },
            }
            p = p + 1;
        }
        if mixed {
            assert(0 <= 0 < nids@.len());
            return Err(AnkiError::InvalidInput(InvalidReason::MixedNotetypes));
        }
        Ok(ntid)
    }

    /// The deck that new notes of notetype `ntid` go to by default, or deck
    /// 0 when it names none or a deck that no longer exists.
    pub fn default_deck_for_notetype(&self, ntid: NotetypeId) -> (r: Result<DeckId, AnkiError>)
        requires
            self.wf(),
        ensures
            !self.has_notetype(ntid) ==> r == Err::<DeckId, AnkiError>(
                AnkiError::NotFound { entity: Entity::Notetype, id: ntid.0 },
            ),
            forall|k: int| #[trigger] self.notetype_at(ntid, k) ==> r == Ok::<DeckId, AnkiError>(
                match self.notetypes@[k].default_deck {
                    Some(d) => if self.has_deck(d) {
                        d
                    } else {
                        DeckId(0)
                    },
                    None => DeckId(0),
                },
            ),
    {
        let k = match self.find_notetype(ntid) {
            None => {
                return Err(AnkiError::NotFound { entity: Entity::Notetype, id: ntid.0 });
            },
            Some(k) => k,
        };
        proof {
            assert forall|q: int| #[trigger] self.notetype_at(ntid, q) implies q == k by {
                self.lemma_notetype_index_unique(q as int, k as int);
            }
        }
        match self.notetypes[k].default_deck {
            Some(d) => if self.find_deck(d).is_some() {
                Ok(d)
            } else {
                Ok(DeckId(0))
            },
            None => Ok(DeckId(0)),
        }
    }

    /// Whether the first field of `note` is empty, repeats the first field
    /// of another note of its notetype, or neither.
    pub fn note_fields_check(&self, note: &Note) -> (r: Result<NoteFieldsState, AnkiError>)
        ensures
            !self.has_notetype(note.notetype_id) ==> r == Err::<NoteFieldsState, AnkiError>(
                AnkiError::NotFound { entity: Entity::Notetype, id: note.notetype_id.0 },
            ),
            self.has_notetype(note.notetype_id) ==> r == Ok::<NoteFieldsState, AnkiError>(
                if note.fields@.len() == 0 || note.fields@[0]@.len() == 0 {
                    NoteFieldsState::Empty
                } else if has_duplicate(self.notes@, *note) {
                    NoteFieldsState::Duplicate
                } else {
                    NoteFieldsState::Normal
                },
            ),
    {
        if self.find_notetype(note.notetype_id).is_none() {
            return Err(AnkiError::NotFound { entity: Entity::Notetype, id: note.notetype_id.0 });
        }
        if note.fields.len() == 0 || note.fields[0].as_str().unicode_len() == 0 {
            return Ok(NoteFieldsState::Empty);
        }
        let mut i: usize = 0;
        while i < self.notes.len()
            invariant
                i <= self.notes@.len(),
                self.has_notetype(note.notetype_id),
                note.fields@.len() > 0,
                note.fields@[0]@.len() > 0,
                forall|j: int| 0 <= j < i ==> !({
                    let m = #[trigger] self.notes@[j];
                    m.id != note.id && m.notetype_id == note.notetype_id && m.fields@.len() > 0
                        && m.fields@[0]@ == note.fields@[0]@
                }),
            decreases self.notes@.len() - i,
        {
            let m = &self.notes[i];
            if m.id != note.id && m.notetype_id == note.notetype_id && m.fields.len() > 0
                && m.fields[0] == note.fields[0] {
                assert(self.notes@[i as int].fields@[0]@ == note.fields@[0]@);
                assert(has_duplicate(self.notes@, *note));
                return Ok(NoteFieldsState::Duplicate);
            }
            i = i + 1;
        }
        Ok(NoteFieldsState::Normal)
    }
}

/// Some note named by `nids` has a notetype with a field called `n`.
pub open spec fn field_of_notes(c: &Collection, nids: Seq<NoteId>, n: Seq<char>, upto: int) -> bool {
    exists|p: int, i: int, k: int| 0 <= p < upto && 0 <= i < c.notes@.len() && c.notes@[i].id == #[trigger] nids[p]
        && #[trigger] c.notetype_at(c.notes@[i].notetype_id, k) && texts(c.notetypes@[k].field_names@).contains(n)
}

impl Collection {
    /// The field names of the notetypes of notes `nids`, each once, in order
    /// of first appearance. Ids of absent notes are passed over.
    pub fn field_names_for_notes(&self, nids: &Vec<NoteId>) -> (r: Vec<String>)
        requires
            self.wf(),
        ensures
            forall|a: int, b: int| 0 <= a < b < r@.len() ==> (#[trigger] r@[a])@ != (#[trigger] r@[b])@,
            forall|n: Seq<char>| #[trigger] texts(r@).contains(n) <==> field_of_notes(self, nids@, n, nids@.len() as int),
    {
        let mut out: Vec<String> = Vec::new();
        let mut p: usize = 0;
        while p < nids.len()
            invariant
                self.wf(),
                p <= nids@.len(),
                forall|a: int, b: int| 0 <= a < b < out@.len() ==> (#[trigger] out@[a])@ != (#[trigger] out@[b])@,
                forall|n: Seq<char>| #[trigger] texts(out@).contains(n) <==> field_of_notes(self, nids@, n, p as int),
            decreases nids@.len() - p,
        {
            let ghost o0 = texts(out@);
            if let Some(i) = self.find_note(nids[p]) {
                if let Some(k) = self.find_notetype(self.notes[i].notetype_id) {
                    let names = &self.notetypes[k].field_names;
                    let mut q: usize = 0;
                    while q < names.len()
                        invariant
                            q <= names@.len(),
                            forall|a: int, b: int| 0 <= a < b < out@.len() ==> (#[trigger] out@[a])@ != (#[trigger] out@[b])@,
                            forall|n: Seq<char>| #[trigger] texts(out@).contains(n) <==> o0.contains(n) || texts(names@).take(q as int).contains(n),
                        decreases names@.len() - q,
                    {
                        let ghost ob = out@;
                        proof {
                            assert(texts(names@).take(q + 1) =~= texts(names@).take(q as int).push(names@[q as int]@));
                            crate::mediacheck::lemma_named_texts(out@, names@[q as int]@);
                        }
                        if !crate::media::is_named(&out, &names[q]) {
                            out.push(names[q].clone());
                            proof {
                                assert(texts(out@) =~= texts(ob).push(names@[q as int]@));
                                assert forall|a: int, b: int| 0 <= a < b < out@.len() implies (#[trigger] out@[a])@ != (#[trigger] out@[b])@ by {
                                    if b == ob.len() {
                                        assert(texts(ob)[a] == ob[a]@);
                                    } else {
                                        assert(out@[a] == ob[a] && out@[b] == ob[b]);
                                    }
                                }
                            }
                        }
                        proof {
                            assert forall|n: Seq<char>| #[trigger] texts(out@).contains(n) <==> o0.contains(n) || texts(names@).take(q + 1).contains(n) by {
                                crate::mediacheck::lemma_push_contains(texts(names@).take(q as int), names@[q as int]@, n);
                                if texts(out@) != texts(ob) {
                                    crate::mediacheck::lemma_push_contains(texts(ob), names@[q as int]@, n);
                                }
                            }
                        }
                        q = q + 1;
                    }
                    assert(texts(names@).take(q as int) =~= texts(names@));
                    proof {
                        assert forall|n: Seq<char>| #[trigger] texts(out@).contains(n) <==> field_of_notes(self, nids@, n, p + 1) by {
                            if texts(names@).contains(n) {
                                assert(self.notetype_at(self.notes@[i as int].notetype_id, k as int));
                                assert(field_of_notes(self, nids@, n, p + 1));
                            }
                            if field_of_notes(self, nids@, n, p + 1) {
                                let (pp, ii, kk) = choose|pp: int, ii: int, kk: int| 0 <= pp < p + 1 && 0 <= ii < self.notes@.len()
                                    && self.notes@[ii].id == #[trigger] nids@[pp] && #[trigger] self.notetype_at(self.notes@[ii].notetype_id, kk)
                                    && texts(self.notetypes@[kk].field_names@).contains(n);
                                if pp == p {
                                    self.lemma_note_index_unique(ii as int, i as int);
                                    self.lemma_notetype_index_unique(kk as int, k as int);
                                } else {
                                    assert(field_of_notes(self, nids@, n, p as int));
                                }
                            }
                            if o0.contains(n) {
                                assert(field_of_notes(self, nids@, n, p as int));
                                let (pp, ii, kk) = choose|pp: int, ii: int, kk: int| 0 <= pp < p && 0 <= ii < self.notes@.len()
                                    && self.notes@[ii].id == #[trigger] nids@[pp] && #[trigger] self.notetype_at(self.notes@[ii].notetype_id, kk)
                                    && texts(self.notetypes@[kk].field_names@).contains(n);
                                assert(0 <= pp < p + 1);
                            }
                        }
                    }
                } else {
                    proof {
                        assert forall|n: Seq<char>| #[trigger] texts(out@).contains(n) <==> field_of_notes(self, nids@, n, p + 1) by {
                            if field_of_notes(self, nids@, n, p + 1) {
                                let (pp, ii, kk) = choose|pp: int, ii: int, kk: int| 0 <= pp < p + 1 && 0 <= ii < self.notes@.len()
                                    && self.notes@[ii].id == #[trigger] nids@[pp] && #[trigger] self.notetype_at(self.notes@[ii].notetype_id, kk)
                                    && texts(self.notetypes@[kk].field_names@).contains(n);
                                if pp == p {
                                    self.lemma_note_index_unique(ii as int, i as int);
                                    assert(self.has_notetype(self.notes@[i as int].notetype_id));
                                } else {
                                    assert(field_of_notes(self, nids@, n, p as int));
                                }
                            }
                            if o0.contains(n) {
                                let (pp, ii, kk) = choose|pp: int, ii: int, kk: int| 0 <= pp < p && 0 <= ii < self.notes@.len()
                                    && self.notes@[ii].id == #[trigger] nids@[pp] && #[trigger] self.notetype_at(self.notes@[ii].notetype_id, kk)
                                    && texts(self.notetypes@[kk].field_names@).contains(n);
                                assert(0 <= pp < p + 1);
                            }
                        }
                    }
                }
            } else {
                proof {
                    assert forall|n: Seq<char>| #[trigger] texts(out@).contains(n) <==> field_of_notes(self, nids@, n, p + 1) by {
                        if field_of_notes(self, nids@, n, p + 1) {
                            let (pp, ii, kk) = choose|pp: int, ii: int, kk: int| 0 <= pp < p + 1 && 0 <= ii < self.notes@.len()
                                && self.notes@[ii].id == #[trigger] nids@[pp] && #[trigger] self.notetype_at(self.notes@[ii].notetype_id, kk)
                                && texts(self.notetypes@[kk].field_names@).contains(n);
                            if pp == p {
                                assert(self.has_note(nids@[p as int]));
                            } else {
                                assert(field_of_notes(self, nids@, n, p as int));
                            }
                        }
                        if o0.contains(n) {
                            let (pp, ii, kk) = choose|pp: int, ii: int, kk: int| 0 <= pp < p && 0 <= ii < self.notes@.len()
                                && self.notes@[ii].id == #[trigger] nids@[pp] && #[trigger] self.notetype_at(self.notes@[ii].notetype_id, kk)
                                && texts(self.notetypes@[kk].field_names@).contains(n);
                            assert(0 <= pp < p + 1);
                        }
                    }
                }
            }
            p = p + 1;
        }
        out
    }
}

impl Collection {
    /// The deck and notetype offered for a new note: the first notetype, and
    /// the deck `home_deck` when it exists, else that notetype's default
    /// deck when it exists, else deck 1.
    pub fn defaults_for_adding(&self, home_deck: DeckId) -> (r: Result<(DeckId, NotetypeId), AnkiError>)
        requires
            self.wf(),
        ensures
            self.notetypes@.len() == 0 ==> r == Err::<(DeckId, NotetypeId), AnkiError>(
                AnkiError::NotFound { entity: Entity::Notetype, id: 0 },
            ),
            self.notetypes@.len() > 0 ==> r is Ok && ({
                let nt = self.notetypes@[0];
                let (did, ntid) = r->Ok_0;
                &&& ntid == nt.id
                &&& did == if self.has_deck(home_deck) {
                    home_deck
                } else {
                    match nt.default_deck {
                        Some(d) => if self.has_deck(d) {
                            d
                        } else {
                            DeckId(1)
                        },
                        None => DeckId(1),
                    }
                }
            }),
    {
        if self.notetypes.len() == 0 {
            return Err(AnkiError::NotFound { entity: Entity::Notetype, id: 0 });
        }
        let ntid = self.notetypes[0].id;
        if self.find_deck(home_deck).is_some() {
            return Ok((home_deck, ntid));
        }
        let did = match self.notetypes[0].default_deck {
            Some(d) => if self.find_deck(d).is_some() {
                d
            } else {
                DeckId(1)
            },
            None => DeckId(1),
        };
        Ok((did, ntid))
    }
}

} // verus!
