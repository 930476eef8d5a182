use vstd::prelude::*;

use crate::changes::OpChanges;
use crate::error::{AnkiError, Entity, InvalidReason};
use crate::ids::{CardId, DeckConfigId, DeckId, NoteId, NotetypeId, DEFAULT_DECK_CONFIG_ID};
use crate::media::MediaStore;

verus! {

/// A card template; when `required_field` names a field, cards are only
/// generated from it while that field is non-empty.
#[derive(Debug)]
pub struct Template {
    pub name: String,
    pub required_field: Option<usize>,
}

/// The schema of a note: its field names and the templates that make cards.
#[derive(Debug)]
pub struct Notetype {
    pub id: NotetypeId,
    pub name: String,
    pub field_names: Vec<String>,
    pub templates: Vec<Template>,
    pub default_deck: Option<DeckId>,
}

/// A note: field contents and tags of a given notetype.
#[derive(Debug)]
pub struct Note {
    pub id: NoteId,
    pub notetype_id: NotetypeId,
    pub fields: Vec<String>,
    pub tags: Vec<String>,
    pub mtime: i64,
    pub usn: i32,
}

/// A card generated from one template of a note.
#[derive(Clone, Copy, Debug, PartialEq, Eq, Structural)]
pub struct Card {
    pub id: CardId,
    pub note_id: NoteId,
    pub deck_id: DeckId,
    pub ord: u32,
}

/// A deck; `ancestors` lists every deck above it, outermost first.
#[derive(Debug)]
pub struct Deck {
    pub id: DeckId,
    pub name: String,
    pub ancestors: Vec<DeckId>,
    pub config_id: DeckConfigId,
}

/// The review policy carried by a deck configuration.
#[derive(Clone, Copy, Debug, PartialEq, Eq, Structural)]
pub struct DeckConfigInner {
    pub new_per_day: u32,
    pub reviews_per_day: u32,
    pub bury_new: bool,
    pub bury_reviews: bool,
}

/// A review-policy profile shared by any number of decks.
#[derive(Debug)]
pub struct DeckConfig {
    pub id: DeckConfigId,
    pub name: String,
    pub mtime: i64,
    pub usn: i32,
    pub inner: DeckConfigInner,
}

/// Review limits that apply across decks.
#[derive(Clone, Copy, Debug, PartialEq, Eq, Structural)]
pub struct Limits {
    pub review: Option<u32>,
    pub new: Option<u32>,
    pub review_today: Option<u32>,
    pub new_today: Option<u32>,
}

/// Collection-wide settings written by deck-configuration updates.
#[derive(Debug)]
pub struct Settings {
    pub limits: Limits,
    pub new_cards_ignore_review_limit: bool,
    pub card_state_customizer: String,
}

/// The operations that leave a step in the undo journal.
#[derive(Clone, Copy, Debug, PartialEq, Eq, Structural)]
pub enum UndoableOp {
    AddNote,
    UpdateNote,
    RemoveNote,
    UpdateDeckConfig,
}

/// One step of the undo journal.
#[derive(Clone, Copy, Debug, PartialEq, Eq, Structural)]
pub struct UndoEntry {
    pub op: UndoableOp,
    pub changes: OpChanges,
    pub usn: i32,
}

/// How many steps the undo journal keeps; the oldest is dropped beyond it.
pub const UNDO_LIMIT: usize = 30;

/// A collection session: every record, the media store and the undo journal.
#[derive(Debug)]
pub struct Collection {
    pub notetypes: Vec<Notetype>,
    pub notes: Vec<Note>,
    pub cards: Vec<Card>,
    pub decks: Vec<Deck>,
    pub deck_configs: Vec<DeckConfig>,
    pub settings: Settings,
    pub media: MediaStore,
    pub undo: Vec<UndoEntry>,
    pub next_id: i64,
    pub usn: i32,
    pub now: i64,
}

/// The texts of some strings.
pub open spec fn texts(v: Seq<String>) -> Seq<Seq<char>> {
    v.map_values(|s: String| s@)
}

/// No two cards share an id.
pub open spec fn card_ids_unique(cs: Seq<Card>) -> bool {
    forall|i: int, j: int| 0 <= i < j < cs.len() ==> (#[trigger] cs[i]).id != (#[trigger] cs[j]).id
}

/// No note has two cards from the same template.
pub open spec fn one_card_per_template(cs: Seq<Card>) -> bool {
    forall|i: int, j: int| 0 <= i < j < cs.len() ==> !((#[trigger] cs[i]).note_id == (#[trigger] cs[j]).note_id
        && cs[i].ord == cs[j].ord)
}

/// Some note of `ns` has id `id`.
pub open spec fn note_exists(ns: Seq<Note>, id: NoteId) -> bool {
    exists|j: int| 0 <= j < ns.len() && ns[j].id == id
}

/// Note `n` has a notetype in `nts` whose field count it matches.
pub open spec fn fits_notetype(n: Note, nts: Seq<Notetype>) -> bool {
    exists|k: int| 0 <= k < nts.len() && nts[k].id == n.notetype_id && n.fields@.len()
        == nts[k].field_names@.len()
}

/// Some configuration of `cs` has id `id`.
pub open spec fn has_config_id(cs: Seq<DeckConfig>, id: DeckConfigId) -> bool {
    exists|i: int| 0 <= i < cs.len() && cs[i].id == id
}

/// The journal after one more step, keeping at most `UNDO_LIMIT` entries.
pub open spec fn pushed_journal(j: Seq<UndoEntry>, e: UndoEntry) -> Seq<UndoEntry> {
    if j.len() < UNDO_LIMIT {
        j.push(e)
    } else {
        j.drop_first().push(e)
    }
}

impl Collection {
    /// The invariant every operation keeps: ids below the allocator, ids of
    /// notetypes, decks and configurations unique, the journal bounded.
    pub open spec fn wf(&self) -> bool {
        &&& 1 < self.next_id
        &&& forall|i: int| 0 <= i < self.notes@.len() ==> (#[trigger] self.notes@[i]).id.0 < self.next_id
        &&& forall|i: int| 0 <= i < self.cards@.len() ==> (#[trigger] self.cards@[i]).id.0 < self.next_id
            && self.cards@[i].note_id.0 < self.next_id
        &&& forall|i: int| 0 <= i < self.deck_configs@.len() ==> (#[trigger] self.deck_configs@[i]).id.0 < self.next_id
        &&& forall|i: int, j: int| 0 <= i < j < self.notes@.len()
            ==> (#[trigger] self.notes@[i]).id != (#[trigger] self.notes@[j]).id
        &&& forall|i: int, j: int| 0 <= i < j < self.notetypes@.len()
            ==> (#[trigger] self.notetypes@[i]).id != (#[trigger] self.notetypes@[j]).id
        &&& forall|i: int| 0 <= i < self.notetypes@.len() ==> (#[trigger] self.notetypes@[i]).templates@.len() < u32::MAX
        &&& forall|i: int, j: int| 0 <= i < j < self.decks@.len()
            ==> (#[trigger] self.decks@[i]).id != (#[trigger] self.decks@[j]).id
        &&& forall|i: int, j: int| 0 <= i < j < self.deck_configs@.len()
            ==> (#[trigger] self.deck_configs@[i]).id != (#[trigger] self.deck_configs@[j]).id
        &&& self.undo@.len() <= UNDO_LIMIT
        &&& card_ids_unique(self.cards@)
        &&& forall|i: int| 0 <= i < self.cards@.len() ==> note_exists(self.notes@, (#[trigger] self.cards@[i]).note_id)
        &&& forall|j: int| 0 <= j < self.notes@.len() ==> fits_notetype(#[trigger] self.notes@[j], self.notetypes@)
        &&& one_card_per_template(self.cards@)
        &&& has_config_id(self.deck_configs@, DeckConfigId(DEFAULT_DECK_CONFIG_ID))
        &&& forall|i: int| 0 <= i < self.decks@.len() ==> has_config_id(self.deck_configs@, #[trigger] self.decks@[i].config_id)
    }

    /// Notetype `i` has id `id`.
    pub open spec fn notetype_at(&self, id: NotetypeId, i: int) -> bool {
        0 <= i < self.notetypes@.len() && self.notetypes@[i].id == id
    }

    /// Some notetype has id `id`.
    pub open spec fn has_notetype(&self, id: NotetypeId) -> bool {
        exists|i: int| self.notetype_at(id, i)
    }

    /// Some deck has id `id`.
    pub open spec fn has_deck(&self, id: DeckId) -> bool {
        exists|i: int| 0 <= i < self.decks@.len() && self.decks@[i].id == id
    }

    /// Some configuration has id `id`.
    pub open spec fn has_config(&self, id: DeckConfigId) -> bool {
        exists|i: int| 0 <= i < self.deck_configs@.len() && self.deck_configs@[i].id == id
    }

    /// A new collection at time `now`, holding the default configuration and
    /// a default deck that uses it.
    pub fn new(now: i64) -> (r: Collection)
        ensures
            r.wf(),
            r.now == now,
            r.notetypes@.len() == 0,
            r.notes@.len() == 0,
            r.cards@.len() == 0,
            r.undo@.len() == 0,
            r.decks@.len() == 1,
            r.decks@[0].id == DeckId(1),
            r.decks@[0].config_id == DeckConfigId(DEFAULT_DECK_CONFIG_ID),
            r.deck_configs@.len() == 1,
            r.deck_configs@[0].id == DeckConfigId(DEFAULT_DECK_CONFIG_ID),
    {
        let mut decks: Vec<Deck> = Vec::new();
        decks.push(
            Deck {
                id: DeckId(1),
                name: String::from_str("Default"),
                ancestors: Vec::new(),
                config_id: DeckConfigId(DEFAULT_DECK_CONFIG_ID),
            },
        );
        let mut deck_configs: Vec<DeckConfig> = Vec::new();
        deck_configs.push(
            DeckConfig {
                id: DeckConfigId(DEFAULT_DECK_CONFIG_ID),
                name: String::from_str("Default"),
                mtime: now,
                usn: 0,
                inner: DeckConfigInner {
                    new_per_day: 20,
                    reviews_per_day: 200,
                    bury_new: false,
                    bury_reviews: false,
                },
            },
        );
        assert(deck_configs@[0].id == DeckConfigId(DEFAULT_DECK_CONFIG_ID));
        assert(has_config_id(deck_configs@, DeckConfigId(DEFAULT_DECK_CONFIG_ID)));
        assert(decks@[0].config_id == DeckConfigId(DEFAULT_DECK_CONFIG_ID));
        Collection {
            notetypes: Vec::new(),
            notes: Vec::new(),
            cards: Vec::new(),
            decks,
            deck_configs,
            settings: Settings {
                limits: Limits { review: None, new: None, review_today: None, new_today: None },
                new_cards_ignore_review_limit: false,
                card_state_customizer: String::new(),
            },
            media: MediaStore::new(),
            undo: Vec::new(),
            next_id: 2,
            usn: 0,
            now,
        }
    }

    /// Notetype ids are unique, so two indices with one id are one index.
    pub proof fn lemma_notetype_index_unique(&self, a: int, b: int)
        requires
            self.wf(),
            0 <= a < self.notetypes@.len(),
            0 <= b < self.notetypes@.len(),
            self.notetypes@[a].id == self.notetypes@[b].id,
        ensures
            a == b,
    {
        if a < b {
            assert(self.notetypes@[a].id != self.notetypes@[b].id);
        } else if b < a {
            assert(self.notetypes@[b].id != self.notetypes@[a].id);
        }
    }

    /// Note ids are unique, so two indices with one id are one index.
    pub proof fn lemma_note_index_unique(&self, a: int, b: int)
        requires
            self.wf(),
            0 <= a < self.notes@.len(),
            0 <= b < self.notes@.len(),
            self.notes@[a].id == self.notes@[b].id,
        ensures
            a == b,
    {
        if a < b {
            assert(self.notes@[a].id != self.notes@[b].id);
        } else if b < a {
            assert(self.notes@[b].id != self.notes@[a].id);
        }
    }

    /// Index of the notetype with id `id`, if there is one.
    pub fn find_notetype(&self, id: NotetypeId) -> (r: Option<usize>)
        ensures
            match r {
                Some(i) => self.notetype_at(id, i as int),
                None => !self.has_notetype(id),
            },
    {
        let mut i: usize = 0;
        while i < self.notetypes.len()
            invariant
                i <= self.notetypes@.len(),
                forall|j: int| 0 <= j < i ==> self.notetypes@[j].id != id,
            decreases self.notetypes@.len() - i,
        {
            if self.notetypes[i].id == id {
                return Some(i);
            }
            i = i + 1;
        }
        None
    }

    /// Index of the deck with id `id`, if there is one.
    pub fn find_deck(&self, id: DeckId) -> (r: Option<usize>)
        ensures
            match r {
                Some(i) => i < self.decks@.len() && self.decks@[i as int].id == id,
                None => !self.has_deck(id),
            },
    {
        let mut i: usize = 0;
        while i < self.decks.len()
            invariant
                i <= self.decks@.len(),
                forall|j: int| 0 <= j < i ==> self.decks@[j].id != id,
            decreases self.decks@.len() - i,
        {
            if self.decks[i].id == id {
                return Some(i);
            }
            i = i + 1;
        }
        None
    }

    /// Index of the configuration with id `id`, if there is one.
    pub fn find_config(&self, id: DeckConfigId) -> (r: Option<usize>)
        ensures
            match r {
                Some(i) => i < self.deck_configs@.len() && self.deck_configs@[i as int].id == id,
                None => !self.has_config(id),
            },
    {
        let mut i: usize = 0;
        while i < self.deck_configs.len()
            invariant
                i <= self.deck_configs@.len(),
                forall|j: int| 0 <= j < i ==> self.deck_configs@[j].id != id,
            decreases self.deck_configs@.len() - i,
        {
            if self.deck_configs[i].id == id {
                return Some(i);
            }
            i = i + 1;
        }
        None
    }

    /// Adds a notetype; fails when its id is taken or it has too many templates.
    pub fn add_notetype(&mut self, nt: Notetype) -> (r: Result<(), AnkiError>)
        requires
            old(self).wf(),
        ensures
            final(self).wf(),
            r is Ok <==> !old(self).has_notetype(nt.id) && nt.templates@.len() < u32::MAX,
            r is Ok ==> final(self).notetypes@ == old(self).notetypes@.push(nt),
            r is Err ==> final(self).notetypes@ == old(self).notetypes@,
            final(self).notes@ == old(self).notes@,
            final(self).cards@ == old(self).cards@,
            final(self).decks@ == old(self).decks@,
    {
        if nt.templates.len() >= 4294967295 {
            return Err(AnkiError::InvalidInput(InvalidReason::TooManyTemplates));
        }
        match self.find_notetype(nt.id) {
            Some(_) => Err(AnkiError::InvalidInput(InvalidReason::DuplicateId)),
            None => {
                assert forall|i: int| 0 <= i < old(self).notetypes@.len() implies old(self).notetypes@[i].id != nt.id by {
                    if old(self).notetypes@[i].id == nt.id {
                        assert(old(self).notetype_at(nt.id, i));
                    }
                }
                self.notetypes.push(nt);
                assert forall|j: int| 0 <= j < self.notes@.len() implies fits_notetype(#[trigger] self.notes@[j], self.notetypes@) by {
                    assert(fits_notetype(self.notes@[j], old(self).notetypes@));
                    let k = choose|k: int| 0 <= k < old(self).notetypes@.len() && old(self).notetypes@[k].id == self.notes@[j].notetype_id
                        && self.notes@[j].fields@.len() == old(self).notetypes@[k].field_names@.len();
                    assert(self.notetypes@[k] == old(self).notetypes@[k]);
                }
                Ok(())
            },
        }
    }

    /// Adds a deck below `parent` (or at the top) using the default
    /// configuration; fails when the id is taken or the parent is absent.
    pub fn add_deck(&mut self, id: DeckId, name: String, parent: Option<DeckId>) -> (r: Result<(), AnkiError>)
        requires
            old(self).wf(),
        ensures
            final(self).wf(),
            r is Ok <==> !old(self).has_deck(id) && match parent {
                Some(p) => old(self).has_deck(p),
                None => true,
            },
            r is Ok ==> final(self).decks@.len() == old(self).decks@.len() + 1
                && final(self).decks@.drop_last() == old(self).decks@
                && final(self).decks@.last().id == id
                && final(self).decks@.last().config_id == DeckConfigId(DEFAULT_DECK_CONFIG_ID),
            r is Ok ==> match parent {
                Some(p) => exists|i: int| 0 <= i < old(self).decks@.len() && old(self).decks@[i].id == p
                    && final(self).decks@.last().ancestors@ == old(self).decks@[i].ancestors@.push(p),
                None => final(self).decks@.last().ancestors@.len() == 0,
            },
            r is Err ==> final(self).decks@ == old(self).decks@,
            final(self).notes@ == old(self).notes@,
            final(self).cards@ == old(self).cards@,
            final(self).deck_configs@ == old(self).deck_configs@,
    {
        if let Some(_) = self.find_deck(id) {
            return Err(AnkiError::InvalidInput(InvalidReason::DuplicateId));
        }
        let mut ancestors: Vec<DeckId> = Vec::new();
        if let Some(p) = parent {
            match self.find_deck(p) {
                None => {
                    return Err(AnkiError::NotFound { entity: Entity::Deck, id: p.0 });
                },
                Some(pi) => {
                    let src = &self.decks[pi].ancestors;
                    let mut k: usize = 0;
                    while k < src.len()
                        invariant
                            k <= src@.len(),
                            ancestors@ == src@.take(k as int),
                        decreases src@.len() - k,
                    {
                        ancestors.push(src[k]);
                        k = k + 1;
                        assert(ancestors@ =~= src@.take(k as int));
                    }
                    assert(src@.take(src@.len() as int) =~= src@);
                    ancestors.push(p);
                },
            }
        }
        self.decks.push(
            Deck { id, name, ancestors, config_id: DeckConfigId(DEFAULT_DECK_CONFIG_ID) },
        );
        assert(final(self).decks@.drop_last() =~= old(self).decks@);
        Ok(())
    }

    /// Appends a step to the undo journal, dropping the oldest beyond
    /// `UNDO_LIMIT`.
    pub fn record_undo(&mut self, op: UndoableOp, changes: OpChanges)
        requires
            old(self).undo@.len() <= UNDO_LIMIT,
        ensures
            final(self).undo@ == pushed_journal(
                old(self).undo@,
                UndoEntry { op, changes, usn: old(self).usn },
            ),
            final(self).undo@.len() <= UNDO_LIMIT,
            final(self).notetypes == old(self).notetypes,
            final(self).notes == old(self).notes,
            final(self).cards == old(self).cards,
            final(self).decks == old(self).decks,
            final(self).deck_configs == old(self).deck_configs,
            final(self).settings == old(self).settings,
            final(self).media == old(self).media,
            final(self).next_id == old(self).next_id,
            final(self).usn == old(self).usn,
            final(self).now == old(self).now,
    {
        if self.undo.len() >= UNDO_LIMIT {
            self.undo.remove(0);
        }
        self.undo.push(UndoEntry { op, changes, usn: self.usn });
        assert(final(self).undo@ =~= pushed_journal(
            old(self).undo@,
            UndoEntry { op, changes, usn: old(self).usn },
        ));
    }
}

} // verus!
