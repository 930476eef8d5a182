use anki::collection::{Collection, DeckConfig, DeckConfigInner, Limits};
use anki::deckconfig::UpdateDeckConfigsRequest;
use anki::error::{AnkiError, Constraint, Entity, InvalidReason};
use anki::ids::{DeckConfigId, DeckId};

fn config(id: i64, name: &str) -> DeckConfig {
    DeckConfig {
        id: DeckConfigId(id),
        name: name.to_string(),
        mtime: 0,
        usn: 0,
        inner: DeckConfigInner { new_per_day: 10, reviews_per_day: 100, bury_new: true, bury_reviews: false },
    }
}

fn request(target: i64, configs: Vec<DeckConfig>, removed: Vec<i64>, children: bool) -> UpdateDeckConfigsRequest {
    UpdateDeckConfigsRequest {
        target_deck_id: DeckId(target),
        configs,
        removed_config_ids: removed.into_iter().map(DeckConfigId).collect(),
        apply_to_children: children,
        card_state_customizer: "custom".to_string(),
        limits: Limits { review: Some(50), new: None, review_today: None, new_today: Some(5) },
        new_cards_ignore_review_limit: true,
    }
}

fn tree() -> Collection {
    let mut col = Collection::new(500);
    col.add_deck(DeckId(10), "A".to_string(), None).unwrap();
    col.add_deck(DeckId(11), "A::B".to_string(), Some(DeckId(10))).unwrap();
    col.add_deck(DeckId(12), "A::B::C".to_string(), Some(DeckId(11))).unwrap();
    col.add_deck(DeckId(20), "Other".to_string(), None).unwrap();
    col
}

fn config_of(col: &Collection, deck: i64) -> DeckConfigId {
    col.decks.iter().find(|d| d.id == DeckId(deck)).unwrap().config_id
}

#[test]
fn apply_to_children_reaches_whole_subtree_only() {
    let mut col = tree();
    let changes = col.update_deck_configs(request(10, vec![config(0, "New")], vec![], true)).unwrap();
    assert!(changes.deck_config && changes.deck);
    let new_id = col.deck_configs.last().unwrap().id;
    assert_ne!(new_id, DeckConfigId(1));
    assert_eq!(config_of(&col, 10), new_id);
    assert_eq!(config_of(&col, 11), new_id);
    assert_eq!(config_of(&col, 12), new_id);
    assert_eq!(config_of(&col, 20), DeckConfigId(1));
    assert_eq!(config_of(&col, 1), DeckConfigId(1));
    assert_eq!(col.settings.limits.review, Some(50));
    assert!(col.settings.new_cards_ignore_review_limit);
    assert_eq!(col.settings.card_state_customizer, "custom");
}

#[test]
fn without_children_only_target_changes() {
    let mut col = tree();
    col.update_deck_configs(request(11, vec![config(0, "New")], vec![], false)).unwrap();
    let new_id = col.deck_configs.last().unwrap().id;
    assert_eq!(config_of(&col, 11), new_id);
    assert_eq!(config_of(&col, 12), DeckConfigId(1));
    assert_eq!(config_of(&col, 10), DeckConfigId(1));
}

#[test]
fn existing_config_is_updated_in_place() {
    let mut col = tree();
    let mut c = config(1, "Renamed");
    c.inner.new_per_day = 33;
    col.update_deck_configs(request(10, vec![c], vec![], false)).unwrap();
    assert_eq!(col.deck_configs.len(), 1);
    assert_eq!(col.deck_configs[0].name, "Renamed");
    assert_eq!(col.deck_configs[0].inner.new_per_day, 33);
    assert_eq!(col.deck_configs[0].mtime, 500);
}

#[test]
fn removing_default_config_always_fails() {
    let mut col = tree();
    assert_eq!(
        col.remove_deck_config(DeckConfigId(1)),
        Err(AnkiError::ConstraintViolation(Constraint::DefaultConfig))
    );
    assert_eq!(
        col.update_deck_configs(request(10, vec![config(0, "New")], vec![1], true)),
        Err(AnkiError::ConstraintViolation(Constraint::DefaultConfig))
    );
    assert_eq!(col.deck_configs.len(), 1);
}

#[test]
fn removing_config_in_use_fails() {
    let mut col = tree();
    col.update_deck_configs(request(20, vec![config(0, "Shared")], vec![], false)).unwrap();
    let shared = col.deck_configs.last().unwrap().id;
    assert_eq!(
        col.remove_deck_config(shared),
        Err(AnkiError::ConstraintViolation(Constraint::ConfigInUse))
    );
    assert_eq!(
        col.update_deck_configs(request(10, vec![config(1, "Default")], vec![shared.0], true)),
        Err(AnkiError::ConstraintViolation(Constraint::ConfigInUse))
    );
    assert_eq!(config_of(&col, 20), shared);
    // reassigning the only user while removing it succeeds
    col.update_deck_configs(request(20, vec![config(1, "Default")], vec![shared.0], false)).unwrap();
    assert_eq!(config_of(&col, 20), DeckConfigId(1));
    assert!(col.deck_configs.iter().all(|c| c.id != shared));
}

#[test]
fn removing_unused_config_succeeds() {
    let mut col = tree();
    col.update_deck_configs(request(20, vec![config(0, "Temp")], vec![], false)).unwrap();
    let temp = col.deck_configs.last().unwrap().id;
    col.update_deck_configs(request(20, vec![config(1, "Default")], vec![], false)).unwrap();
    let changes = col.remove_deck_config(temp).unwrap();
    assert!(changes.deck_config);
    assert_eq!(col.deck_configs.len(), 1);
    assert_eq!(
        col.remove_deck_config(temp),
        Err(AnkiError::NotFound { entity: Entity::DeckConfig, id: temp.0 })
    );
}

#[test]
fn update_request_errors() {
    let mut col = tree();
    assert_eq!(
        col.update_deck_configs(request(10, vec![config(0, "New")], vec![1], false)),
        Err(AnkiError::ConstraintViolation(Constraint::DefaultConfig))
    );
    assert_eq!(col.settings.limits.review, None);
    assert!(!col.settings.new_cards_ignore_review_limit);
    assert_eq!(col.deck_configs.len(), 1);
    assert_eq!(col.next_id, 2);
    assert_eq!(
        col.update_deck_configs(request(10, vec![], vec![], false)),
        Err(AnkiError::InvalidInput(InvalidReason::NoConfigs))
    );
    assert_eq!(
        col.update_deck_configs(request(99, vec![config(0, "x")], vec![], false)),
        Err(AnkiError::NotFound { entity: Entity::Deck, id: 99 })
    );
}

#[test]
fn configs_for_update_report_current() {
    let mut col = tree();
    col.update_deck_configs(request(11, vec![config(0, "New")], vec![], false)).unwrap();
    let (all, current) = col.get_deck_configs_for_update(DeckId(11)).unwrap();
    assert_eq!(all.len(), 2);
    assert_eq!(current, all[1].id);
    let got = col.get_deck_config(current).unwrap();
    assert_eq!(got.name, "New");
    let fallback = col.get_deck_config(DeckConfigId(4242)).unwrap();
    assert_eq!(fallback.id, DeckConfigId(1));
    assert_eq!(fallback.name, "Default");
}

#[test]
fn legacy_upsert_inserts_then_updates() {
    let mut col = tree();
    col.now = 900;
    let id = col.add_or_update_deck_config_legacy(config(0, "Legacy")).unwrap();
    assert_ne!(id, DeckConfigId(1));
    assert_eq!(col.deck_configs.len(), 2);
    assert_eq!(col.deck_configs[1].mtime, 900);
    let again = col.add_or_update_deck_config_legacy(config(id.0, "Renamed")).unwrap();
    assert_eq!(again, id);
    assert_eq!(col.deck_configs.len(), 2);
    assert_eq!(col.deck_configs[1].name, "Renamed");
    assert!(col.undo.is_empty());
}
