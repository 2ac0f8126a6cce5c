use amm::{
    Clef, ClefType, Composition, Duration, DurationType, generate_id, IdRegistry, Phrase,
    PhraseContent, PhraseModificationType, Pitch, PitchName, StructureError,
};

fn a_quarter() -> Duration {
    Duration::new(DurationType::Quarter, 0)
}

fn a_pitch() -> Pitch {
    Pitch::new(PitchName::G, 3)
}

#[test]
fn identifiers_start_at_one_and_increase() {
    let mut registry = IdRegistry::new();
    let first = registry.generate_id();
    let second = generate_id(&mut registry);
    let third = registry.generate_id();
    assert_eq!(first, 1);
    assert!(first < second && second < third);
    assert_eq!(registry.remaining(), usize::MAX - 4);
    assert!(!registry.is_exhausted());
}

#[test]
fn every_node_gets_an_identifier_of_its_own() {
    let mut registry = IdRegistry::new();
    let mut phrase = Phrase::new(&mut registry);
    let note = phrase.add_note(&mut registry, a_pitch(), a_quarter(), None);
    let chord = phrase.add_chord(&mut registry);
    let inner = phrase.add_phrase(&mut registry);
    let modification = phrase.add_modification(&mut registry, PhraseModificationType::Slur);
    let ids = [phrase.get_id(), note, chord, inner, modification];
    for i in 0..ids.len() {
        for j in 0..i {
            assert_ne!(ids[i], ids[j]);
        }
    }
}

#[test]
fn lookup_returns_what_was_added() {
    let mut registry = IdRegistry::new();
    let mut phrase = Phrase::new(&mut registry);
    let note = phrase.add_note(&mut registry, a_pitch(), a_quarter(), None);
    let chord = phrase.add_chord(&mut registry);
    let inner = phrase.add_phrase(&mut registry);
    let deep = phrase.get_phrase_mut(inner).unwrap().add_note(
        &mut registry,
        Pitch::new(PitchName::A, 5),
        Duration::new(DurationType::Eighth, 1),
        None,
    );
    let in_chord =
        phrase.get_chord_mut(chord).unwrap().add_note(&mut registry, a_pitch(), a_quarter(), None);
    assert_eq!(phrase.get_note(note).unwrap().get_id(), note);
    assert_eq!(phrase.get_note(note).unwrap().pitch, a_pitch());
    assert_eq!(phrase.get_chord(chord).unwrap().get_id(), chord);
    assert_eq!(phrase.get_phrase(inner).unwrap().get_id(), inner);
    assert_eq!(phrase.get_note(deep).unwrap().pitch, Pitch::new(PitchName::A, 5));
    assert_eq!(phrase.get_note(deep).unwrap().duration, Duration::new(DurationType::Eighth, 1));
    assert_eq!(phrase.get_note(in_chord).unwrap().get_id(), in_chord);
    assert!(phrase.get_note(chord).is_none());
    assert!(phrase.get_chord(note).is_none());
    assert!(phrase.get_phrase(9999).is_none());
}

#[test]
fn index_of_item_counts_direct_children() {
    let mut registry = IdRegistry::new();
    let mut phrase = Phrase::new(&mut registry);
    let first = phrase.add_note(&mut registry, a_pitch(), a_quarter(), None);
    let second = phrase.add_phrase(&mut registry);
    let deep =
        phrase.get_phrase_mut(second).unwrap().add_note(&mut registry, a_pitch(), a_quarter(), None);
    assert_eq!(phrase.get_index_of_item(first), Some(0));
    assert_eq!(phrase.get_index_of_item(second), Some(1));
    assert_eq!(phrase.get_index_of_item(deep), None);
}

#[test]
fn insert_puts_the_item_where_it_is_told() {
    let mut registry = IdRegistry::new();
    let mut phrase = Phrase::new(&mut registry);
    let last = phrase.add_note(&mut registry, a_pitch(), a_quarter(), None);
    let first = phrase.insert_note(&mut registry, 0, a_pitch(), a_quarter(), None).unwrap();
    let middle = phrase.insert_chord(&mut registry, 1).unwrap();
    let end = phrase.insert_phrase(&mut registry, 3).unwrap();
    let order: Vec<usize> = phrase.iter().iter().map(PhraseContent::get_id).collect();
    assert_eq!(order, vec![first, middle, last, end]);
}

#[test]
fn insert_beyond_the_end_is_an_error() {
    let mut registry = IdRegistry::new();
    let mut phrase = Phrase::new(&mut registry);
    phrase.add_note(&mut registry, a_pitch(), a_quarter(), None);
    let left = registry.remaining();
    assert_eq!(
        phrase.insert_note(&mut registry, 2, a_pitch(), a_quarter(), None),
        Err(StructureError::IndexOutOfRange)
    );
    assert_eq!(phrase.insert_chord(&mut registry, 5), Err(StructureError::IndexOutOfRange));
    assert_eq!(phrase.insert_phrase(&mut registry, 3), Err(StructureError::IndexOutOfRange));
    assert_eq!(phrase.len(), 1);
    assert_eq!(registry.remaining(), left);
}

#[test]
fn removed_items_are_not_found() {
    let mut registry = IdRegistry::new();
    let mut phrase = Phrase::new(&mut registry);
    let note = phrase.add_note(&mut registry, a_pitch(), a_quarter(), None);
    let chord = phrase.add_chord(&mut registry);
    let in_chord =
        phrase.get_chord_mut(chord).unwrap().add_note(&mut registry, a_pitch(), a_quarter(), None);
    let inner = phrase.add_phrase(&mut registry);
    let deep =
        phrase.get_phrase_mut(inner).unwrap().add_note(&mut registry, a_pitch(), a_quarter(), None);
    phrase.remove_item(in_chord);
    assert!(phrase.get_note(in_chord).is_none());
    assert_eq!(phrase.get_chord(chord).unwrap().len(), 0);
    phrase.remove_item(deep);
    assert!(phrase.get_note(deep).is_none());
    assert!(phrase.get_phrase(inner).is_some());
    phrase.remove_item(inner);
    assert!(phrase.get_phrase(inner).is_none());
    phrase.remove_item(note);
    phrase.remove_item(chord);
    assert!(phrase.get_note(note).is_none());
    assert!(phrase.get_chord(chord).is_none());
    assert_eq!(phrase.len(), 0);
}

#[test]
fn removing_a_phrase_removes_what_it_holds() {
    let mut registry = IdRegistry::new();
    let mut phrase = Phrase::new(&mut registry);
    let inner = phrase.add_phrase(&mut registry);
    let deep =
        phrase.get_phrase_mut(inner).unwrap().add_note(&mut registry, a_pitch(), a_quarter(), None);
    phrase.remove_item(inner);
    assert!(phrase.get_note(deep).is_none());
}

#[test]
fn removing_an_unknown_identifier_changes_nothing() {
    let mut registry = IdRegistry::new();
    let mut phrase = Phrase::new(&mut registry);
    let note = phrase.add_note(&mut registry, a_pitch(), a_quarter(), None);
    phrase.remove_item(4242);
    assert_eq!(phrase.len(), 1);
    assert!(phrase.get_note(note).is_some());
}

#[test]
fn modifications_are_found_and_removed() {
    let mut registry = IdRegistry::new();
    let mut phrase = Phrase::new(&mut registry);
    let slur = phrase.add_modification(&mut registry, PhraseModificationType::Slur);
    let tuplet =
        phrase.add_modification(&mut registry, PhraseModificationType::Tuplet { into_beats: 3 });
    assert_eq!(
        *phrase.get_modification(tuplet).unwrap().get_modification(),
        PhraseModificationType::Tuplet { into_beats: 3 }
    );
    phrase.remove_modification(tuplet);
    assert!(phrase.get_modification(tuplet).is_none());
    assert_eq!(phrase.get_modification(slur).unwrap().get_id(), slur);
}

#[test]
fn composition_finds_every_kind_of_node() {
    let mut registry = IdRegistry::new();
    let mut composition = Composition::new("Lookup", None, None, None);
    let part = composition.add_part(&mut registry, "Organ");
    let part_id = part.get_id();
    let staff_id = part.add_staff(&mut registry);
    let staff = part.get_staff_mut(staff_id).unwrap();
    let phrase_id = staff.add_phrase(&mut registry);
    let chord_id = staff.add_chord(&mut registry);
    let voices_id = staff.add_multivoice(&mut registry);
    let voice_id = staff.get_multivoice_mut(voices_id).unwrap().add_phrase(&mut registry);
    let note_id = composition.get_phrase_mut(voice_id).unwrap().add_note(
        &mut registry,
        a_pitch(),
        a_quarter(),
        None,
    );
    assert_eq!(composition.get_part(part_id).unwrap().get_name(), "Organ");
    assert_eq!(composition.get_part_by_name("Organ").unwrap().get_id(), part_id);
    assert_eq!(composition.get_staff(staff_id).unwrap().len(), 3);
    assert_eq!(composition.get_phrase(phrase_id).unwrap().get_id(), phrase_id);
    assert_eq!(composition.get_phrase(voice_id).unwrap().len(), 1);
    assert_eq!(composition.get_chord(chord_id).unwrap().get_id(), chord_id);
    assert_eq!(composition.get_multivoice(voices_id).unwrap().len(), 1);
    assert_eq!(composition.get_note(note_id).unwrap().get_id(), note_id);
    assert!(composition.get_note(part_id).is_none());
    assert!(composition.get_part_by_name("Flute").is_none());
    composition.get_note_mut(note_id).unwrap().pitch = Pitch::new(PitchName::B, 2);
    assert_eq!(composition.get_note(note_id).unwrap().pitch, Pitch::new(PitchName::B, 2));
}

#[test]
fn composition_forgets_what_is_removed() {
    let mut registry = IdRegistry::new();
    let mut composition = Composition::new("Removal", None, None, None);
    let part = composition.add_part(&mut registry, "Organ");
    let part_id = part.get_id();
    let staff_id = part.add_staff(&mut registry);
    let staff = part.get_staff_mut(staff_id).unwrap();
    let voices_id = staff.add_multivoice(&mut registry);
    let voice_id = staff.get_multivoice_mut(voices_id).unwrap().add_phrase(&mut registry);
    let note_id = composition.get_phrase_mut(voice_id).unwrap().add_note(
        &mut registry,
        a_pitch(),
        a_quarter(),
        None,
    );
    composition.remove_item(note_id);
    assert!(composition.get_note(note_id).is_none());
    composition.remove_item(voice_id);
    assert!(composition.get_phrase(voice_id).is_none());
    composition.remove_item(voices_id);
    assert!(composition.get_multivoice(voices_id).is_none());
    composition.remove_item(staff_id);
    assert!(composition.get_staff(staff_id).is_none());
    composition.remove_item(part_id);
    assert!(composition.get_part(part_id).is_none());
    assert_eq!(composition.iter().len(), 0);
}

#[test]
fn adding_a_part_replaces_the_part_of_that_name() {
    let mut registry = IdRegistry::new();
    let mut composition = Composition::new("Names", None, None, None);
    let first = composition.add_part(&mut registry, "Violin").get_id();
    composition.add_part(&mut registry, "Viola");
    let second = composition.add_part(&mut registry, "Violin").get_id();
    assert_ne!(first, second);
    assert_eq!(composition.get_part_names(), vec!["Viola".to_string(), "Violin".to_string()]);
    assert!(composition.get_part(first).is_none());
    composition.remove_part_by_name("Viola");
    assert_eq!(composition.get_part_names(), vec!["Violin".to_string()]);
}

#[test]
fn metadata_and_authors_are_kept() {
    let mut composition = Composition::new("Untitled", None, None, None);
    composition
        .set_title("Sonata")
        .set_copyright("2024")
        .set_publisher("Press")
        .add_composer("Ada")
        .add_composer("Bea")
        .add_lyricist("Cy")
        .add_arranger("Di")
        .add_metadata("opus", "1")
        .add_metadata("key", "C")
        .add_metadata("opus", "2");
    assert_eq!(composition.get_title(), "Sonata");
    assert_eq!(composition.get_copyright().as_deref(), Some("2024"));
    assert_eq!(composition.get_publisher().as_deref(), Some("Press"));
    assert_eq!(composition.get_composers(), ["Ada".to_string(), "Bea".to_string()]);
    assert_eq!(composition.get_lyricists(), ["Cy".to_string()]);
    assert_eq!(composition.get_arrangers(), ["Di".to_string()]);
    assert_eq!(
        composition.get_metadata(),
        [("opus".to_string(), "2".to_string()), ("key".to_string(), "C".to_string())]
    );
    composition.remove_composer("Ada").remove_metadata("opus").remove_copyright().remove_publisher();
    composition.remove_lyricist("Cy").remove_arranger("Nobody");
    assert_eq!(composition.get_composers(), ["Bea".to_string()]);
    assert!(composition.get_lyricists().is_empty());
    assert_eq!(composition.get_arrangers(), ["Di".to_string()]);
    assert_eq!(composition.get_metadata(), [("key".to_string(), "C".to_string())]);
    assert!(composition.get_copyright().is_none());
    assert!(composition.get_publisher().is_none());
}

#[test]
fn clefs_know_their_symbol() {
    assert_eq!(Clef::Treble.clef_type(), ClefType::GClef);
    assert_eq!(Clef::FrenchViolin.clef_type(), ClefType::GClef);
    assert_eq!(Clef::Bass.clef_type(), ClefType::FClef);
    assert_eq!(Clef::Subbass.clef_type(), ClefType::FClef);
    assert_eq!(Clef::Alto.clef_type(), ClefType::CClef);
    assert_eq!(Clef::Baritone(ClefType::FClef).clef_type(), ClefType::FClef);
    assert_eq!(Clef::Baritone(ClefType::CClef).to_string(), "Baritone (C-Clef)");
    assert_eq!(Clef::MezzoSoprano.to_string(), "Mezzo Soprano");
}

#[test]
fn a_key_of_the_metadata_stands_over_one_entry() {
    let mut composition = Composition::new("Keys", None, None, None);
    for (key, value) in [("a", "1"), ("b", "2"), ("a", "3"), ("c", "4"), ("b", "5"), ("a", "6")] {
        composition.add_metadata(key, value);
    }
    let keys: Vec<&str> = composition.get_metadata().iter().map(|entry| entry.0.as_str()).collect();
    assert_eq!(keys, vec!["a", "b", "c"]);
    let values: Vec<&str> = composition.get_metadata().iter().map(|entry| entry.1.as_str()).collect();
    assert_eq!(values, vec!["6", "5", "4"]);
    composition.remove_metadata("b");
    let keys: Vec<&str> = composition.get_metadata().iter().map(|entry| entry.0.as_str()).collect();
    assert_eq!(keys, vec!["a", "c"]);
}

#[test]
fn notes_added_at_any_depth_are_found_from_the_root() {
    let mut registry = IdRegistry::new();
    let mut phrase = Phrase::new(&mut registry);
    let inner = phrase.add_phrase(&mut registry);
    let deeper = phrase.get_phrase_mut(inner).unwrap().add_phrase(&mut registry);
    let deepest = phrase.get_phrase_mut(deeper).unwrap().add_phrase(&mut registry);
    let chord = phrase.get_phrase_mut(deepest).unwrap().add_chord(&mut registry);
    let note = phrase.get_chord_mut(chord).unwrap().add_note(
        &mut registry,
        Pitch::new(PitchName::E, 6),
        Duration::new(DurationType::Sixteenth, 0),
        None,
    );
    let found = phrase.get_note(note).unwrap();
    assert_eq!(found.get_id(), note);
    assert_eq!(found.pitch, Pitch::new(PitchName::E, 6));
    assert_eq!(found.duration, Duration::new(DurationType::Sixteenth, 0));
    assert_eq!(phrase.get_phrase(deepest).unwrap().get_id(), deepest);
    assert_eq!(phrase.get_phrase(deepest).unwrap().len(), 1);
    phrase.get_note_mut(note).unwrap().pitch = Pitch::new(PitchName::F, 1);
    assert_eq!(phrase.get_phrase(inner).unwrap().get_note(note).unwrap().pitch, Pitch::new(PitchName::F, 1));
}
