use anki::collection::{Collection, Note};
use anki::ids::{DeckId, NoteId, NotetypeId};
use anki::media::MediaStore;
use anki::mediacheck::field_refs;

#[test]
fn same_name_same_bytes_reuses_name() {
    let mut store = MediaStore::new();
    let a = store.add_file("cat.jpg", vec![1, 2, 3]);
    let b = store.add_file("cat.jpg", vec![1, 2, 3]);
    assert_eq!(a, "cat.jpg");
    assert_eq!(a, b);
    assert_eq!(store.files.len(), 1);
}

#[test]
fn same_name_other_bytes_gets_new_name() {
    let mut store = MediaStore::new();
    let a = store.add_file("cat.jpg", vec![1, 2, 3]);
    let b = store.add_file("cat.jpg", vec![9]);
    assert_ne!(a, b);
    assert_eq!(b, "cat.jpg-");
    let c = store.add_file("cat.jpg", vec![9]);
    assert_eq!(c, b);
    let d = store.add_file("cat.jpg", vec![7]);
    assert_eq!(d, "cat.jpg--");
    assert_eq!(store.files.len(), 3);
}

#[test]
fn sound_references_are_found() {
    let refs = field_refs("a [sound:x.mp3] b [sound:] [sound:y.ogg] [sound:open");
    assert_eq!(refs, vec!["x.mp3".to_string(), "y.ogg".to_string()]);
}

fn with_notes() -> Collection {
    let mut col = Collection::new(10);
    col.add_notetype(anki::collection::Notetype {
        id: NotetypeId(1),
        name: "Basic".to_string(),
        field_names: vec!["Front".to_string()],
        templates: vec![anki::collection::Template { name: "Card 1".to_string(), required_field: None }],
        default_deck: None,
    })
    .unwrap();
    col
}

fn note(text: &str) -> Note {
    Note {
        id: NoteId(0),
        notetype_id: NotetypeId(1),
        fields: vec![text.to_string()],
        tags: vec![],
        mtime: 0,
        usn: 0,
    }
}

#[test]
fn check_reports_unused_missing_and_notes() {
    let mut col = with_notes();
    col.media.add_file("used.mp3", vec![1]);
    col.media.add_file("unused.mp3", vec![2]);
    let (a, _) = col.add_note(Some(note("[sound:used.mp3]")), DeckId(1)).unwrap();
    let (b, _) = col.add_note(Some(note("[sound:gone.mp3] [sound:gone.mp3]")), DeckId(1)).unwrap();
    let out = col.check_media();
    assert_eq!(out.unused, vec!["unused.mp3".to_string()]);
    assert_eq!(out.missing, vec!["gone.mp3".to_string()]);
    assert_eq!(out.missing_media_notes, vec![b]);
    assert!(!out.missing_media_notes.contains(&a));
    assert_eq!(out.trash_count, 0);
}

#[test]
fn trash_round_trip_renames_on_conflict() {
    let mut col = with_notes();
    col.media.add_file("old.png", vec![5, 5]);
    col.media.add_file("keep.png", vec![6]);
    col.add_note(Some(note("[sound:keep.png]")), DeckId(1)).unwrap();
    let out = col.check_media();
    assert_eq!(out.unused, vec!["old.png".to_string()]);
    let moved = col.media.trash_files(&out.unused);
    assert_eq!(moved, 1);
    assert_eq!(col.check_media().trash_count, 1);
    assert_eq!(col.media.files.len(), 1);
    // a new file takes the name while the old one sits in the trash
    col.media.add_file("old.png", vec![7, 7, 7]);
    let restored = col.media.restore_trash();
    assert_eq!(restored, 1);
    assert!(col.media.trash.is_empty());
    let live = col.media.files.iter().find(|f| f.name == "old.png").unwrap();
    assert_eq!(live.data, vec![7, 7, 7]);
    let back = col.media.files.iter().find(|f| f.name == "old.png-").unwrap();
    assert_eq!(back.data, vec![5, 5]);
}

#[test]
fn restore_without_conflict_keeps_name() {
    let mut store = MediaStore::new();
    store.add_file("a.txt", vec![1]);
    store.trash_files(&vec!["a.txt".to_string(), "nope".to_string()]);
    assert!(store.files.is_empty());
    store.restore_trash();
    assert_eq!(store.files.len(), 1);
    assert_eq!(store.files[0].name, "a.txt");
}

#[test]
fn empty_trash_deletes_for_good() {
    let mut col = with_notes();
    col.media.add_file("junk.wav", vec![3]);
    let out = col.check_media();
    col.media.trash_files(&out.unused);
    assert_eq!(col.media.empty_trash(), 1);
    assert_eq!(col.media.restore_trash(), 0);
    let after = col.check_media();
    assert!(after.unused.is_empty());
    assert_eq!(after.trash_count, 0);
    assert!(col.media.files.is_empty());
}
