use anki::changes::OpChanges;
use anki::cloze::cloze_numbers_in_note;
use anki::collection::{Collection, Note, Notetype, Template};
use anki::error::{AnkiError, Entity, InvalidReason};
use anki::ids::{to_i64s, to_note_ids, CardId, DeckId, NoteId, NotetypeId};
use anki::notequery::NoteFieldsState;

fn template(name: &str, required_field: Option<usize>) -> Template {
    Template { name: name.to_string(), required_field }
}

fn basic_notetype(id: i64, templates: Vec<Template>) -> Notetype {
    Notetype {
        id: NotetypeId(id),
        name: format!("type {}", id),
        field_names: vec!["Front".to_string(), "Back".to_string()],
        templates,
        default_deck: None,
    }
}

fn note(ntid: i64, front: &str, back: &str) -> Note {
    Note {
        id: NoteId(0),
        notetype_id: NotetypeId(ntid),
        fields: vec![front.to_string(), back.to_string()],
        tags: vec![],
        mtime: 0,
        usn: 0,
    }
}

fn setup() -> Collection {
    let mut col = Collection::new(1000);
    col.add_notetype(basic_notetype(
        5,
        vec![template("Card 1", None), template("Card 2", None)],
    ))
    .unwrap();
    col.add_notetype(basic_notetype(
        6,
        vec![template("Forward", None), template("Reverse", Some(1))],
    ))
    .unwrap();
    col.add_deck(DeckId(7), "Seven".to_string(), None).unwrap();
    col
}

#[test]
fn two_template_note_in_deck_seven_then_removed() {
    let mut col = setup();
    let (nid, changes) = col.add_note(Some(note(5, "q", "a")), DeckId(7)).unwrap();
    assert!(changes.note && changes.card);
    assert_eq!(col.cards.len(), 2);
    assert!(col.cards.iter().all(|c| c.deck_id == DeckId(7) && c.note_id == nid));
    assert_eq!(col.cards_of_note(nid).len(), 2);
    let removed = col.remove_notes(vec![nid], vec![]);
    assert_eq!(removed.count, 1);
    assert!(removed.changes.note && removed.changes.card);
    assert!(col.cards.is_empty());
    assert!(col.notes.is_empty());
    assert!(col.cards_of_note(nid).is_empty());
    assert_eq!(
        col.get_note(nid).unwrap_err(),
        AnkiError::NotFound { entity: Entity::Note, id: nid.0 }
    );
}

#[test]
fn conditional_template_skipped_when_field_empty() {
    let mut col = setup();
    let (a, _) = col.add_note(Some(note(6, "q", "")), DeckId(7)).unwrap();
    assert_eq!(col.cards.len(), 1);
    let (b, _) = col.add_note(Some(note(6, "q2", "a2")), DeckId(7)).unwrap();
    assert_eq!(col.cards.len(), 3);
    let ords: Vec<u32> = col.cards.iter().filter(|c| c.note_id == b).map(|c| c.ord).collect();
    assert_eq!(ords, vec![0, 1]);
    let r = col.remove_notes(vec![a], vec![]);
    assert_eq!(r.count, 1);
    assert_eq!(col.cards.len(), 2);
    assert!(col.cards.iter().all(|c| c.note_id == b));
}

#[test]
fn remove_by_card_ids_removes_owning_notes() {
    let mut col = setup();
    let (a, _) = col.add_note(Some(note(5, "q", "a")), DeckId(7)).unwrap();
    let (b, _) = col.add_note(Some(note(5, "q2", "a2")), DeckId(7)).unwrap();
    let card_of_a: Vec<CardId> = col.cards.iter().filter(|c| c.note_id == a).map(|c| c.id).collect();
    let r = col.remove_notes(vec![], card_of_a);
    assert_eq!(r.count, 1);
    assert_eq!(col.notes.len(), 1);
    assert_eq!(col.notes[0].id, b);
    assert_eq!(col.cards.len(), 2);
}

#[test]
fn remove_unknown_note_reports_nothing() {
    let mut col = setup();
    col.add_note(Some(note(5, "q", "a")), DeckId(7)).unwrap();
    let r = col.remove_notes(vec![NoteId(999)], vec![]);
    assert_eq!(r.count, 0);
    assert!(!r.changes.has_changes());
    assert_eq!(col.cards.len(), 2);
}

#[test]
fn add_note_errors() {
    let mut col = setup();
    assert_eq!(
        col.add_note(None, DeckId(7)),
        Err(AnkiError::InvalidInput(InvalidReason::NoNoteProvided))
    );
    assert_eq!(
        col.add_note(Some(note(99, "q", "a")), DeckId(7)),
        Err(AnkiError::NotFound { entity: Entity::Notetype, id: 99 })
    );
    let mut short = note(5, "q", "a");
    short.fields.pop();
    assert_eq!(
        col.add_note(Some(short), DeckId(7)),
        Err(AnkiError::InvalidInput(InvalidReason::FieldCountMismatch))
    );
    assert_eq!(
        col.add_note(Some(note(5, "q", "a")), DeckId(42)),
        Err(AnkiError::NotFound { entity: Entity::Deck, id: 42 })
    );
    assert!(col.notes.is_empty());
    assert!(col.cards.is_empty());
    assert!(col.undo.is_empty());
}

#[test]
fn noop_update_reports_no_changes() {
    let mut col = setup();
    let (nid, _) = col.add_note(Some(note(6, "q", "a")), DeckId(7)).unwrap();
    let same = col.get_note(nid).unwrap();
    let undo_before = col.undo.len();
    let changes = col.update_notes(vec![same], true).unwrap();
    assert_eq!(changes, OpChanges::none());
    assert!(!changes.has_changes());
    assert_eq!(col.undo.len(), undo_before + 1);
}

#[test]
fn update_regenerates_cards_and_stamps_note() {
    let mut col = setup();
    let (nid, _) = col.add_note(Some(note(6, "q", "")), DeckId(7)).unwrap();
    assert_eq!(col.cards.len(), 1);
    col.now = 2000;
    let mut edited = col.get_note(nid).unwrap();
    edited.fields[1] = "answer".to_string();
    let changes = col.update_notes(vec![edited], false).unwrap();
    assert!(changes.note && changes.card);
    assert_eq!(col.cards.len(), 2);
    assert!(col.cards.iter().all(|c| c.deck_id == DeckId(7)));
    assert_eq!(col.notes[0].mtime, 2000);
    assert_eq!(col.notes[0].fields[1], "answer");
    let ids = col.cards_of_note(nid);
    let ords: Vec<u32> = ids
        .iter()
        .map(|id| col.cards.iter().find(|c| c.id == *id).unwrap().ord)
        .collect();
    assert_eq!(ords, vec![0, 1]);
}

#[test]
fn update_text_only_sets_note_flag() {
    let mut col = setup();
    let (nid, _) = col.add_note(Some(note(5, "q", "a")), DeckId(7)).unwrap();
    let mut edited = col.get_note(nid).unwrap();
    edited.tags.push("marked".to_string());
    let changes = col.update_notes(vec![edited], true).unwrap();
    assert!(changes.note);
    assert!(!changes.card);
    assert_eq!(col.cards.len(), 2);
}

#[test]
fn update_errors_leave_collection_unchanged() {
    let mut col = setup();
    let (nid, _) = col.add_note(Some(note(5, "q", "a")), DeckId(7)).unwrap();
    let mut good = col.get_note(nid).unwrap();
    good.fields[0] = "changed".to_string();
    let mut missing = note(5, "x", "y");
    missing.id = NoteId(12345);
    assert_eq!(
        col.update_notes(vec![good, missing], true),
        Err(AnkiError::NotFound { entity: Entity::Note, id: 12345 })
    );
    assert_eq!(col.notes[0].fields[0], "q");
    let mut retyped = col.get_note(nid).unwrap();
    retyped.notetype_id = NotetypeId(6);
    assert_eq!(
        col.update_notes(vec![retyped], true),
        Err(AnkiError::InvalidInput(InvalidReason::NotetypeChanged))
    );
    let mut short = col.get_note(nid).unwrap();
    short.fields.pop();
    assert_eq!(
        col.update_notes(vec![short], true),
        Err(AnkiError::InvalidInput(InvalidReason::FieldCountMismatch))
    );
}

#[test]
fn new_note_has_empty_fields() {
    let col = setup();
    let n = col.new_note(NotetypeId(5)).unwrap();
    assert_eq!(n.fields, vec![String::new(), String::new()]);
    assert!(n.tags.is_empty());
    assert_eq!(
        col.new_note(NotetypeId(1)).unwrap_err(),
        AnkiError::NotFound { entity: Entity::Notetype, id: 1 }
    );
}

#[test]
fn cloze_numbers_are_distinct() {
    let mut n = note(5, "{{c1::Paris}} is in {{c2::France}}", "{{c1::again}} {{c10::x}} {{c::bad}} {{c3:oops}}");
    let mut numbers = cloze_numbers_in_note(&n);
    numbers.sort();
    assert_eq!(numbers, vec![1, 2, 10]);
    n.fields = vec!["plain".to_string()];
    assert!(cloze_numbers_in_note(&n).is_empty());
    n.fields = vec!["{{c99999999999::big}} {{c4::ok}}".to_string()];
    assert_eq!(cloze_numbers_in_note(&n), vec![4]);
}

#[test]
fn single_notetype_of_notes() {
    let mut col = setup();
    let (a, _) = col.add_note(Some(note(5, "q", "a")), DeckId(7)).unwrap();
    let (b, _) = col.add_note(Some(note(5, "q2", "a2")), DeckId(7)).unwrap();
    let (c, _) = col.add_note(Some(note(6, "q3", "a3")), DeckId(7)).unwrap();
    assert_eq!(col.get_single_notetype_of_notes(&vec![a, b]), Ok(NotetypeId(5)));
    assert_eq!(
        col.get_single_notetype_of_notes(&vec![a, c]),
        Err(AnkiError::InvalidInput(InvalidReason::MixedNotetypes))
    );
    assert_eq!(
        col.get_single_notetype_of_notes(&vec![]),
        Err(AnkiError::InvalidInput(InvalidReason::NoNotes))
    );
    assert_eq!(
        col.get_single_notetype_of_notes(&vec![a, NoteId(77)]),
        Err(AnkiError::NotFound { entity: Entity::Note, id: 77 })
    );
}

#[test]
fn fields_check_finds_empty_and_duplicate() {
    let mut col = setup();
    col.add_note(Some(note(5, "capital", "Paris")), DeckId(7)).unwrap();
    assert_eq!(col.note_fields_check(&note(5, "", "x")), Ok(NoteFieldsState::Empty));
    assert_eq!(col.note_fields_check(&note(5, "capital", "x")), Ok(NoteFieldsState::Duplicate));
    assert_eq!(col.note_fields_check(&note(6, "capital", "x")), Ok(NoteFieldsState::Normal));
    assert_eq!(col.note_fields_check(&note(5, "other", "x")), Ok(NoteFieldsState::Normal));
}

#[test]
fn default_deck_for_notetype_falls_back_to_zero() {
    let mut col = setup();
    let mut nt = basic_notetype(8, vec![template("Card 1", None)]);
    nt.default_deck = Some(DeckId(7));
    col.add_notetype(nt).unwrap();
    let mut gone = basic_notetype(9, vec![template("Card 1", None)]);
    gone.default_deck = Some(DeckId(55));
    col.add_notetype(gone).unwrap();
    assert_eq!(col.default_deck_for_notetype(NotetypeId(8)), Ok(DeckId(7)));
    assert_eq!(col.default_deck_for_notetype(NotetypeId(9)), Ok(DeckId(0)));
    assert_eq!(col.default_deck_for_notetype(NotetypeId(5)), Ok(DeckId(0)));
}

#[test]
fn undo_journal_is_bounded() {
    let mut col = setup();
    for i in 0..40 {
        col.add_note(Some(note(5, &format!("q{}", i), "a")), DeckId(7)).unwrap();
    }
    assert_eq!(col.undo.len(), anki::collection::UNDO_LIMIT);
}

#[test]
fn note_id_conversions_keep_order() {
    let ids = to_note_ids(vec![3, 1, 2]);
    assert_eq!(ids, vec![NoteId(3), NoteId(1), NoteId(2)]);
    assert_eq!(to_i64s(ids), vec![3, 1, 2]);
}

#[test]
fn after_updates_generate_and_stamp() {
    let mut col = setup();
    let (a, _) = col.add_note(Some(note(6, "q", "")), DeckId(7)).unwrap();
    let (b, _) = col.add_note(Some(note(5, "q2", "a2")), DeckId(7)).unwrap();
    // fill the conditional field behind the collection's back
    col.notes[0].fields[1] = "now filled".to_string();
    col.now = 5000;
    let r = col.after_note_updates(&vec![a], true, true).unwrap();
    assert_eq!(r.count, 1);
    assert!(r.changes.note && r.changes.card);
    assert_eq!(col.cards.iter().filter(|c| c.note_id == a).count(), 2);
    assert_eq!(col.notes[0].mtime, 5000);
    assert_eq!(col.notes[1].mtime, 1000);
    let r = col.after_note_updates(&vec![b], true, false).unwrap();
    assert_eq!(r.count, 1);
    assert!(!r.changes.has_changes());
    assert_eq!(
        col.after_note_updates(&vec![NoteId(4040)], true, true).unwrap_err(),
        AnkiError::NotFound { entity: Entity::Note, id: 4040 }
    );
}

#[test]
fn field_names_of_notes_are_unique() {
    let mut col = setup();
    let mut other = basic_notetype(8, vec![template("Card 1", None)]);
    other.field_names = vec!["Front".to_string(), "Extra".to_string()];
    col.add_notetype(other).unwrap();
    let (a, _) = col.add_note(Some(note(5, "q", "a")), DeckId(7)).unwrap();
    let (b, _) = col.add_note(Some(note(8, "q", "a")), DeckId(7)).unwrap();
    let names = col.field_names_for_notes(&vec![a, b, NoteId(31337)]);
    assert_eq!(names, vec!["Front".to_string(), "Back".to_string(), "Extra".to_string()]);
    assert!(col.field_names_for_notes(&vec![]).is_empty());
}

#[test]
fn note_changes_flags() {
    let c = OpChanges::for_notes(true, false);
    assert!(c.note && c.note_text && c.browser_table && !c.card && !c.study_queues);
    assert!(!OpChanges::none().has_changes());
}

#[test]
fn defaults_for_adding_prefers_home_deck() {
    let mut col = Collection::new(1);
    assert_eq!(
        col.defaults_for_adding(DeckId(1)),
        Err(AnkiError::NotFound { entity: Entity::Notetype, id: 0 })
    );
    let mut nt = basic_notetype(5, vec![template("Card 1", None)]);
    nt.default_deck = Some(DeckId(7));
    col.add_notetype(nt).unwrap();
    assert_eq!(col.defaults_for_adding(DeckId(7)), Ok((DeckId(1), NotetypeId(5))));
    col.add_deck(DeckId(7), "Seven".to_string(), None).unwrap();
    col.add_deck(DeckId(8), "Eight".to_string(), None).unwrap();
    assert_eq!(col.defaults_for_adding(DeckId(8)), Ok((DeckId(8), NotetypeId(5))));
    assert_eq!(col.defaults_for_adding(DeckId(0)), Ok((DeckId(7), NotetypeId(5))));
}

#[test]
fn unchanged_note_in_batch_keeps_stamp() {
    let mut col = setup();
    let (a, _) = col.add_note(Some(note(5, "q", "a")), DeckId(7)).unwrap();
    let (b, _) = col.add_note(Some(note(5, "q2", "a2")), DeckId(7)).unwrap();
    col.now = 7777;
    let same = col.get_note(a).unwrap();
    let mut edited = col.get_note(b).unwrap();
    edited.fields[0] = "new".to_string();
    let changes = col.update_notes(vec![same, edited], true).unwrap();
    assert!(changes.note);
    assert_eq!(col.notes[0].mtime, 1000);
    assert_eq!(col.notes[1].mtime, 7777);
}
