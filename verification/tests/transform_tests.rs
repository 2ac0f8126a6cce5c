use amm::{
    Accidental, Composition, Duration, DurationType, Fraction, IdRegistry, Note,
    NoteModificationType, Part, Phrase, PhraseContent, PhraseModificationType, Pitch, PitchName,
    StaffContent, Tempo, TimingError,
};

fn short() -> Duration {
    Duration::new(DurationType::Quarter, 0)
}

fn long() -> Duration {
    Duration::new(DurationType::Half, 0)
}

fn tone() -> Pitch {
    Pitch::new(PitchName::D, 4)
}

fn count_in_phrase(phrase: &Phrase) -> usize {
    phrase
        .iter()
        .iter()
        .map(|item| match item {
            PhraseContent::Note(_) => 1,
            PhraseContent::Chord(chord) => chord.len(),
            PhraseContent::Phrase(inner) => count_in_phrase(inner),
        })
        .sum()
}

fn count_notes(part: &Part) -> usize {
    let mut count = 0;
    for staff in part.iter() {
        for item in staff.iter() {
            count += match item {
                StaffContent::Phrase(phrase) => count_in_phrase(phrase),
                StaffContent::Chord(chord) => chord.len(),
                StaffContent::MultiVoice(voices) => voices.iter().iter().map(count_in_phrase).sum(),
            };
        }
    }
    count
}


fn polyphonic() -> (Composition, IdRegistry, usize, usize, Vec<Vec<usize>>) {
    let mut registry = IdRegistry::new();
    let mut composition = Composition::new("Fugue", Some(Tempo::new(short(), 60)), None, None);
    let part = composition.add_part(&mut registry, "Organ");
    let staff_id = part.add_staff(&mut registry);
    let staff = part.get_staff_mut(staff_id).unwrap();
    let opening = staff.add_phrase(&mut registry);
    staff.get_phrase_mut(opening).unwrap().add_note(&mut registry, tone(), short(), None);
    let voices_id = staff.add_multivoice(&mut registry);
    let voices = staff.get_multivoice_mut(voices_id).unwrap();
    let upper = voices.add_phrase(&mut registry);
    let lower = voices.add_phrase(&mut registry);
    let mut notes = vec![Vec::new(), Vec::new()];
    for length in [short(), long()] {
        let phrase = voices.get_phrase_mut(upper).unwrap();
        notes[0].push(phrase.add_note(&mut registry, Pitch::new(PitchName::A, 4), length, None));
    }
    notes[1].push(voices.get_phrase_mut(lower).unwrap().add_note(
        &mut registry,
        Pitch::new(PitchName::B, 3),
        short(),
        None,
    ));
    let empty = staff.add_multivoice(&mut registry);
    let closing = staff.add_phrase(&mut registry);
    staff.get_phrase_mut(closing).unwrap().add_note(&mut registry, tone(), long(), None);
    (composition, registry, voices_id, empty, notes)
}

#[test]
fn flattened_composition_has_no_parallel_voices() {
    let (composition, mut registry, voices_id, empty, _) = polyphonic();
    assert_eq!(composition.flatten_defect(), None);
    assert_eq!(composition.count_flat_ids(), 2);
    let flat = composition.flatten(&mut registry).unwrap();
    for part in flat.iter() {
        for staff in part.iter() {
            for item in staff.iter() {
                assert!(!matches!(item, StaffContent::MultiVoice(_)));
            }
        }
    }
    let staff = &flat.iter()[0].iter()[0];
    assert_eq!(staff.len(), 4);
    assert_eq!(staff.iter()[1].get_id(), voices_id);
    assert_eq!(staff.iter()[2].get_id(), empty);
    assert!(flat.get_multivoice(empty).is_none());
    assert_eq!(flat.get_phrase(empty).unwrap().len(), 0);
}

#[test]
fn flattening_keeps_every_note_where_it_was() {
    let (composition, mut registry, voices_id, _, notes) = polyphonic();
    let flat = composition.flatten(&mut registry).unwrap();
    assert_eq!(
        flat.get_phrase(voices_id).unwrap().to_string(),
        "Phrase: [Chord: [A4 Quarter, B3 Quarter], Chord: [A4 Half]]"
    );
    for id in notes.iter().flatten() {
        let before = composition.get_note(*id).unwrap();
        let after = flat.get_note(*id).unwrap();
        assert_eq!(after.pitch, before.pitch);
        assert_eq!(after.duration, before.duration);
    }
    assert_eq!(count_notes(&flat.iter()[0]), count_notes(&composition.iter()[0]));
    let base = short();
    let onsets = |composition: &Composition| -> Vec<Fraction> {
        let slices = composition.iter()[0].iter_timeslices(&base).unwrap();
        slices.iter().map(|slice| slice.get_time()).collect()
    };
    assert_eq!(onsets(&flat), onsets(&composition));
    assert_eq!(
        onsets(&flat),
        vec![Fraction::zero(), Fraction::from_integer(1), Fraction::from_integer(2), Fraction::from_integer(4)]
    );
}

#[test]
fn flattening_keeps_the_duration() {
    let (composition, mut registry, _, _, _) = polyphonic();
    let flat = composition.flatten(&mut registry).unwrap();
    assert_eq!(composition.get_beats(), Ok(Fraction::from_integer(6)));
    assert_eq!(flat.get_beats(), composition.get_beats());
    assert_eq!(flat.get_duration(), composition.get_duration());
    assert_eq!(flat.get_duration(), Ok(Fraction::from_integer(6)));
}

#[test]
fn flattening_leaves_the_original_as_it_was() {
    let (composition, mut registry, _, empty, _) = polyphonic();
    let before = composition.to_string();
    let staff_before = composition.iter()[0].iter()[0].to_string();
    let _ = composition.flatten(&mut registry);
    assert_eq!(composition.to_string(), before);
    assert_eq!(composition.iter()[0].iter()[0].to_string(), staff_before);
    assert!(composition.get_multivoice(empty).is_some());
}

#[test]
fn flattening_twice_changes_nothing_more() {
    let (composition, mut registry, _, _, _) = polyphonic();
    let once = composition.flatten(&mut registry).unwrap();
    let left = registry.remaining();
    assert_eq!(once.count_flat_ids(), 0);
    let twice = once.flatten(&mut registry).unwrap();
    assert_eq!(registry.remaining(), left);
    assert_eq!(once.iter().len(), twice.iter().len());
    assert_eq!(once.iter()[0].to_string(), twice.iter()[0].to_string());
    assert_eq!(once.to_string(), twice.to_string());
}

#[test]
fn a_single_voice_stands_for_its_group() {
    let mut registry = IdRegistry::new();
    let mut composition = Composition::new("Solo", None, None, None);
    let part = composition.add_part(&mut registry, "Oboe");
    let staff_id = part.add_staff(&mut registry);
    let staff = part.get_staff_mut(staff_id).unwrap();
    let voices_id = staff.add_multivoice(&mut registry);
    let voices = staff.get_multivoice_mut(voices_id).unwrap();
    let voice = voices.add_phrase(&mut registry);
    let phrase = voices.get_phrase_mut(voice).unwrap();
    phrase.add_modification(&mut registry, PhraseModificationType::Tuplet { into_beats: 2 });
    for _ in 0..3 {
        phrase.add_note(&mut registry, tone(), short(), None);
    }
    let left = registry.remaining();
    let flat = composition.flatten(&mut registry).unwrap();
    assert_eq!(registry.remaining(), left);
    assert_eq!(
        flat.get_phrase(voice).unwrap().to_string(),
        composition.get_phrase(voice).unwrap().to_string()
    );
    assert_eq!(flat.get_beats(), Ok(Fraction::from_integer(2)));
}

fn orchestra() -> (Composition, IdRegistry) {
    let mut registry = IdRegistry::new();
    let mut composition = Composition::new("Suite", None, None, None);
    for (name, staves) in [("Piano", 2usize), ("Flute", 1), ("Silent", 0), ("Organ", 3)] {
        let part = composition.add_part(&mut registry, name);
        for number in 0..staves {
            let staff_id = part.add_staff(&mut registry);
            let staff = part.get_staff_mut(staff_id).unwrap();
            let phrase_id = staff.add_phrase(&mut registry);
            let phrase = staff.get_phrase_mut(phrase_id).unwrap();
            for _ in 0..=number {
                phrase.add_note(&mut registry, tone(), short(), None);
            }
        }
    }
    (composition, registry)
}

#[test]
fn every_staff_becomes_a_part_of_its_own() {
    let (composition, mut registry) = orchestra();
    assert_eq!(composition.count_ids_made(), 6);
    assert!(registry.remaining() >= 5);
    let next = composition.iter().iter().map(Part::get_id).max().unwrap();
    let split = composition.restructure_staves_as_parts(&mut registry);
    assert_eq!(
        split.get_part_names(),
        vec!["Piano_1", "Piano_2", "Flute", "Silent", "Organ_1", "Organ_2", "Organ_3"]
    );
    for part in split.iter() {
        assert_eq!(part.len(), 1);
    }
    let notes_before: usize = composition.iter().iter().map(count_notes).sum();
    let notes_after: usize = split.iter().iter().map(count_notes).sum();
    assert_eq!(notes_before, 10);
    assert_eq!(notes_after, notes_before);
    assert_eq!(split.get_part_by_name("Flute").unwrap().get_id(), composition.get_part_by_name("Flute").unwrap().get_id());
    let mut ids: Vec<usize> = split.iter().iter().map(Part::get_id).collect();
    ids.sort();
    ids.dedup();
    assert_eq!(ids.len(), 7);
    assert_eq!(
        split.get_part_by_name("Silent").unwrap().get_id(),
        composition.get_part_by_name("Silent").unwrap().get_id()
    );
    assert_eq!(split.get_part_by_name("Silent").unwrap().iter()[0].len(), 0);
    assert!(split.get_part_by_name("Organ_3").unwrap().get_id() > next);
    assert_eq!(split.get_beats(), composition.get_beats());
    assert_eq!(composition.iter().len(), 4);
}

#[test]
fn staff_numbers_have_as_many_digits_as_they_need() {
    let mut registry = IdRegistry::new();
    let mut composition = Composition::new("Many", None, None, None);
    let part = composition.add_part(&mut registry, "Choir");
    for _ in 0..12 {
        part.add_staff(&mut registry);
    }
    let split = composition.restructure_staves_as_parts(&mut registry);
    let names = split.get_part_names();
    assert_eq!(names[0], "Choir_1");
    assert_eq!(names[8], "Choir_9");
    assert_eq!(names[9], "Choir_10");
    assert_eq!(names[11], "Choir_12");
}

#[test]
fn modifications_are_removed_wherever_they_are() {
    let mut registry = IdRegistry::new();
    let mut composition = Composition::new("Marks", None, None, None);
    let part = composition.add_part(&mut registry, "Harp");
    let staff_id = part.add_staff(&mut registry);
    let staff = part.get_staff_mut(staff_id).unwrap();
    let phrase_id = staff.add_phrase(&mut registry);
    let phrase = staff.get_phrase_mut(phrase_id).unwrap();
    let slur = phrase.add_modification(&mut registry, PhraseModificationType::Slur);
    let note_id = phrase.add_note(&mut registry, tone(), short(), None);
    let tie = phrase.get_note_mut(note_id).unwrap().add_modification(
        &mut registry,
        NoteModificationType::Tie,
    );
    let accent = phrase.get_note_mut(note_id).unwrap().add_modification(
        &mut registry,
        NoteModificationType::Accent,
    );
    composition.remove_modification(tie);
    let note = composition.get_note(note_id).unwrap();
    assert!(note.get_modification(tie).is_none());
    assert_eq!(
        *note.get_modification(accent).unwrap().get_modification(),
        NoteModificationType::Accent
    );
    composition.remove_modification(slur);
    assert!(composition.get_phrase(phrase_id).unwrap().get_modification(slur).is_none());
    assert!(composition.get_note(note_id).is_some());
}

#[test]
fn nodes_are_rendered_for_diagnostics() {
    let mut registry = IdRegistry::new();
    let mut note =
        Note::new(&mut registry, Pitch::new(PitchName::F, 5), Duration::new(DurationType::Eighth, 2), Some(Accidental::Sharp));
    assert_eq!(note.to_string(), "F♯5 Eighth..");
    note.add_modification(&mut registry, NoteModificationType::Tie);
    note.add_modification(&mut registry, NoteModificationType::Trill);
    assert_eq!(note.to_string(), "F♯5 Eighth.. (Tie, Trill)");
    let rest = Note::new(&mut registry, Pitch::new_rest(), short(), None);
    assert_eq!(rest.to_string(), "Rest Quarter");

    let mut composition = Composition::new("Sonata", Some(Tempo::new(short(), 90)), None, None);
    composition.add_composer("Ada");
    let part = composition.add_part(&mut registry, "Viola");
    let staff_id = part.add_staff(&mut registry);
    let staff = part.get_staff_mut(staff_id).unwrap();
    let phrase_id = staff.add_phrase(&mut registry);
    let phrase = staff.get_phrase_mut(phrase_id).unwrap();
    phrase.add_modification(&mut registry, PhraseModificationType::Tuplet { into_beats: 2 });
    phrase.add_modification(&mut registry, PhraseModificationType::Slur);
    for _ in 0..2 {
        phrase.add_note(&mut registry, tone(), short(), None);
    }
    let chord_id = phrase.add_chord(&mut registry);
    phrase.get_chord_mut(chord_id).unwrap().add_note(&mut registry, tone(), short(), Some(Accidental::Flat));
    phrase.add_phrase(&mut registry);
    assert_eq!(
        composition.get_phrase(phrase_id).unwrap().to_string(),
        "Phrase (Tuplet into 2, Slur): [D4 Quarter, D4 Quarter, Chord: [D♭4 Quarter], Phrase: []]"
    );
    assert_eq!(
        composition.get_part_by_name("Viola").unwrap().to_string(),
        "Part Viola: [Staff: [Phrase (Tuplet into 2, Slur): [D4 Quarter, D4 Quarter, Chord: [D♭4 Quarter], Phrase: []]]]"
    );
    // The tuplet squeezes three beats over four children into two: 3 * 2/4 beats.
    assert_eq!(composition.get_beats(), Ok(Fraction::new(3, 2).unwrap()));
    let tail = composition.get_staff_mut(staff_id).unwrap().add_phrase(&mut registry);
    for _ in 0..97 {
        let phrase = composition.get_phrase_mut(tail).unwrap();
        phrase.add_note(&mut registry, tone(), long(), None);
    }
    // 195.5 beats at 90 to the minute are 130 seconds and a third.
    assert_eq!(composition.get_duration(), Ok(Fraction::new(391, 3).unwrap()));
    assert_eq!(
        composition.to_string(),
        "Composition:\n  Title: Sonata\n  First Composer: Ada\n  First Lyricist: Unknown\n  First Arranger: Unknown\n  Publisher: Unknown\n  Copyright: None\n  Tempo: Quarter=90\n  Key: C\n  Time Signature: 4/4\n  Num Parts: 1\n  Length: 02:10"
    );
}

#[test]
fn accidentals_are_handed_to_a_codec_by_their_symbol() {
    let sharp = Accidental::Sharp.serialize();
    assert_eq!(sharp.attributes, vec![("type".to_string(), "♯".to_string())]);
    assert!(sharp.contents.is_empty());
    assert!(sharp.elements.is_empty());
    assert!(Accidental::Unmarked.serialize().attributes.is_empty());
    assert_eq!(Accidental::Sharp.value(), 1);
    assert_eq!(Accidental::DoubleFlat.value(), -2);
    assert_eq!(Accidental::Natural.value(), 0);
    assert_eq!(Accidental::DoubleSharp.to_string(), "𝄪");
}


fn homophonic() -> (Composition, IdRegistry, usize, Vec<Vec<usize>>) {
    let mut registry = IdRegistry::new();
    let mut composition = Composition::new("Chorale", Some(Tempo::new(short(), 60)), None, None);
    let part = composition.add_part(&mut registry, "Choir");
    let staff_id = part.add_staff(&mut registry);
    let staff = part.get_staff_mut(staff_id).unwrap();
    let voices_id = staff.add_multivoice(&mut registry);
    let voices = staff.get_multivoice_mut(voices_id).unwrap();
    let mut notes = Vec::new();
    for name in [PitchName::C, PitchName::E, PitchName::G] {
        let voice = voices.add_phrase(&mut registry);
        let phrase = voices.get_phrase_mut(voice).unwrap();
        let mut made = Vec::new();
        for length in [short(), long(), short()] {
            made.push(phrase.add_note(&mut registry, Pitch::new(name, 4), length, None));
        }
        notes.push(made);
    }
    (composition, registry, voices_id, notes)
}

#[test]
fn voices_are_merged_into_chords() {
    let (composition, mut registry, voices_id, notes) = homophonic();
    assert_eq!(composition.get_multivoice(voices_id).unwrap().flatten_defect(&short()), None);
    assert_eq!(composition.count_flat_ids(), 3);
    let next = registry.remaining();
    let flat = composition.flatten(&mut registry).unwrap();
    assert_eq!(registry.remaining(), next - 3);
    assert!(flat.get_multivoice(voices_id).is_none());
    let phrase = flat.get_phrase(voices_id).unwrap();
    assert_eq!(phrase.len(), 3);
    assert_eq!(
        phrase.to_string(),
        "Phrase: [Chord: [C4 Quarter, E4 Quarter, G4 Quarter], Chord: [C4 Half, E4 Half, G4 Half], Chord: [C4 Quarter, E4 Quarter, G4 Quarter]]"
    );
    for voice in &notes {
        for id in voice {
            assert_eq!(flat.get_note(*id).unwrap().get_id(), *id);
        }
    }
    assert_eq!(count_notes(&flat.iter()[0]), 9);
    assert_eq!(flat.get_beats(), Ok(Fraction::from_integer(4)));
    assert_eq!(flat.get_beats(), composition.get_beats());
    let slices = flat.iter()[0].iter_timeslices(&short()).unwrap();
    let times: Vec<Fraction> = slices.iter().map(|slice| slice.get_time()).collect();
    assert_eq!(
        times,
        vec![Fraction::zero(), Fraction::from_integer(1), Fraction::from_integer(3)]
    );
}

#[test]
fn chords_and_slurs_of_voices_are_kept() {
    let (mut composition, mut registry, voices_id, notes) = homophonic();
    let voices = composition.get_multivoice_mut(voices_id).unwrap();
    let fourth = voices.add_phrase(&mut registry);
    let phrase = voices.get_phrase_mut(fourth).unwrap();
    let slur = phrase.add_modification(&mut registry, PhraseModificationType::Slur);
    let chord_id = phrase.add_chord(&mut registry);
    let chord = phrase.get_chord_mut(chord_id).unwrap();
    let low = chord.add_note(&mut registry, Pitch::new(PitchName::F, 2), short(), None);
    let high = chord.add_note(&mut registry, Pitch::new(PitchName::A, 2), short(), None);
    let flat = composition.flatten(&mut registry).unwrap();
    let merged = flat.get_phrase(voices_id).unwrap();
    assert_eq!(
        merged.to_string(),
        "Phrase (Slur): [Chord: [C4 Quarter, E4 Quarter, G4 Quarter, F2 Quarter, A2 Quarter], Chord: [C4 Half, E4 Half, G4 Half], Chord: [C4 Quarter, E4 Quarter, G4 Quarter]]"
    );
    assert_eq!(merged.get_modification(slur).unwrap().get_id(), slur);
    assert!(flat.get_note(low).is_some() && flat.get_note(high).is_some());
    assert!(flat.get_note(notes[2][2]).is_some());
    assert_eq!(flat.get_beats(), composition.get_beats());
}

#[test]
fn different_durations_at_one_position_are_cut() {
    let (mut composition, mut registry, voices_id, notes) = homophonic();
    composition.get_note_mut(notes[1][2]).unwrap().duration = long();
    let group = composition.get_multivoice(voices_id).unwrap();
    assert!(!group.is_aligned());
    assert_eq!(group.flatten_defect(&short()), None);
    assert_eq!(composition.flatten_defect(), None);
    assert_eq!(composition.count_flat_ids(), 6);
    let next = usize::MAX - registry.remaining();
    let flat = composition.flatten(&mut registry).unwrap();
    assert_eq!(usize::MAX - registry.remaining(), next + 6);
    assert!(flat.get_multivoice(voices_id).is_none());
    let phrase = flat.get_phrase(voices_id).unwrap();
    assert_eq!(
        phrase.to_string(),
        "Phrase: [Chord: [C4 1/4, E4 1/4, G4 1/4], Chord: [C4 1/2, E4 1/2, G4 1/2], Chord: [C4 1/4, E4 1/4 (Tie), G4 1/4], Chord: [E4 1/4]]"
    );
    for id in notes.iter().flatten() {
        assert_eq!(flat.get_note(*id).unwrap().get_id(), *id);
    }
    let made: Vec<usize> = phrase.iter().iter().map(PhraseContent::get_id).collect();
    assert_eq!(made, vec![next, next + 1, next + 2, next + 4]);
    let tied = flat.get_note(notes[1][2]).unwrap();
    assert_eq!(tied.to_string(), "E4 1/4 (Tie)");
    assert_eq!(tied.get_modification(next + 3).unwrap().get_id(), next + 3);
    assert_eq!(flat.get_note(next + 5).unwrap().to_string(), "E4 1/4");
    assert_eq!(flat.get_beats(), Ok(Fraction::from_integer(5)));
    assert_eq!(flat.get_beats(), composition.get_beats());
    assert_eq!(flat.get_duration(), composition.get_duration());
    let slices = flat.iter()[0].iter_timeslices(&short()).unwrap();
    let times: Vec<Fraction> = slices.iter().map(|slice| slice.get_time()).collect();
    assert_eq!(
        times,
        vec![
            Fraction::zero(),
            Fraction::from_integer(1),
            Fraction::from_integer(3),
            Fraction::from_integer(4)
        ]
    );
    assert_eq!(composition.get_multivoice(voices_id).unwrap().iter().len(), 3);
}

#[test]
fn a_chord_of_unequal_notes_among_voices_has_no_duration() {
    let (mut composition, mut registry, voices_id, _) = homophonic();
    let voices = composition.get_multivoice_mut(voices_id).unwrap();
    let fourth = voices.add_phrase(&mut registry);
    let chord_id = voices.get_phrase_mut(fourth).unwrap().add_chord(&mut registry);
    assert_eq!(composition.flatten_defect(), None);
    assert_eq!(composition.count_flat_ids(), 3);
    let cut = composition.flatten(&mut registry).unwrap();
    assert_eq!(
        cut.get_phrase(voices_id).unwrap().to_string(),
        "Phrase: [Chord: [C4 1/4, E4 1/4, G4 1/4], Chord: [C4 1/2, E4 1/2, G4 1/2], Chord: [C4 1/4, E4 1/4, G4 1/4]]"
    );
    let chord = composition.get_chord_mut(chord_id).unwrap();
    chord.add_note(&mut registry, tone(), short(), None);
    assert!(composition.get_multivoice(voices_id).unwrap().is_aligned());
    assert_eq!(composition.flatten_defect(), None);
    composition.get_chord_mut(chord_id).unwrap().add_note(&mut registry, tone(), long(), None);
    assert_eq!(composition.get_beats(), Err(TimingError::NonUniformChord));
    assert_eq!(composition.flatten_defect(), Some(TimingError::NonUniformChord));
    assert_eq!(composition.count_flat_ids(), 0);
    let left = registry.remaining();
    assert_eq!(composition.flatten(&mut registry).err(), Some(TimingError::NonUniformChord));
    assert_eq!(registry.remaining(), left);
    assert_eq!(TimingError::NonUniformChord.to_string(), "chord with notes of different durations");
}

#[test]
fn a_tuplet_over_nothing_among_voices_is_refused() {
    let (mut composition, mut registry, voices_id, _) = homophonic();
    let voices = composition.get_multivoice_mut(voices_id).unwrap();
    let fourth = voices.add_phrase(&mut registry);
    voices.get_phrase_mut(fourth).unwrap().add_modification(
        &mut registry,
        PhraseModificationType::Tuplet { into_beats: 3 },
    );
    assert_eq!(composition.get_beats(), Err(TimingError::EmptyTuplet));
    assert_eq!(composition.flatten_defect(), Some(TimingError::EmptyTuplet));
    let left = registry.remaining();
    assert_eq!(composition.flatten(&mut registry).err(), Some(TimingError::EmptyTuplet));
    assert_eq!(registry.remaining(), left);
}

#[test]
fn voices_without_notes_give_an_empty_phrase() {
    let (mut composition, mut registry, _, empty, _) = polyphonic();
    let voices = composition.get_multivoice_mut(empty).unwrap();
    let first = voices.add_phrase(&mut registry);
    voices.add_phrase(&mut registry);
    let mark = voices.get_phrase_mut(first).unwrap().add_modification(
        &mut registry,
        PhraseModificationType::Legato,
    );
    voices.get_phrase_mut(first).unwrap().add_phrase(&mut registry);
    assert!(!composition.get_multivoice(empty).unwrap().is_aligned());
    assert_eq!(composition.count_flat_ids(), 2);
    let flat = composition.flatten(&mut registry).unwrap();
    let phrase = flat.get_phrase(empty).unwrap();
    assert_eq!(phrase.to_string(), "Phrase (Legato): []");
    assert_eq!(phrase.get_modification(mark).unwrap().get_id(), mark);
    assert_eq!(flat.get_beats(), composition.get_beats());
}

#[test]
fn cuts_that_cannot_be_held_exactly_are_refused() {
    let whole = Duration::new(DurationType::Whole, 0);
    let mut registry = IdRegistry::new();
    let mut composition = Composition::new("Beating", Some(Tempo::new(whole, 60)), None, None);
    let part = composition.add_part(&mut registry, "Bells");
    let staff_id = part.add_staff(&mut registry);
    let staff = part.get_staff_mut(staff_id).unwrap();
    let voices_id = staff.add_multivoice(&mut registry);
    let voices = staff.get_multivoice_mut(voices_id).unwrap();
    for denominator in [4294967311u64, 4294967291u64] {
        let voice = voices.add_phrase(&mut registry);
        voices.get_phrase_mut(voice).unwrap().add_note(
            &mut registry,
            tone(),
            Duration::new(DurationType::Exact { numerator: 1, denominator }, 0),
            None,
        );
    }
    assert_eq!(composition.get_beats(), Fraction::new(1, 4294967291).ok_or(TimingError::Overflow));
    assert_eq!(composition.flatten_defect(), Some(TimingError::Overflow));
    let left = registry.remaining();
    assert_eq!(composition.flatten(&mut registry).err(), Some(TimingError::Overflow));
    assert_eq!(registry.remaining(), left);
    assert!(composition.get_multivoice(voices_id).is_some());
}

#[test]
fn a_voice_with_a_tuplet_is_cut_where_its_notes_begin() {
    let (mut composition, mut registry, voices_id, notes) = homophonic();
    let voice = composition.get_multivoice(voices_id).unwrap().iter()[1].get_id();
    composition.get_phrase_mut(voice).unwrap().add_modification(
        &mut registry,
        PhraseModificationType::Tuplet { into_beats: 2 },
    );
    assert_eq!(composition.flatten_defect(), None);
    assert_eq!(composition.count_flat_ids(), 20);
    let left = registry.remaining();
    let flat = composition.flatten(&mut registry).unwrap();
    assert_eq!(registry.remaining(), left - 20);
    assert!(flat.get_multivoice(voices_id).is_none());
    let phrase = flat.get_phrase(voices_id).unwrap();
    assert_eq!(
        phrase.to_string(),
        "Phrase: [Chord: [C4 1/6 (Tie), E4 1/6, G4 1/6 (Tie)], Chord: [C4 1/12, E4 1/12 (Tie), G4 1/12], Chord: [C4 1/4 (Tie), E4 1/4, G4 1/4 (Tie)], Chord: [C4 1/6 (Tie), E4 1/6, G4 1/6 (Tie)], Chord: [C4 1/12, G4 1/12], Chord: [C4 1/4, G4 1/4]]"
    );
    for id in notes.iter().flatten() {
        assert_eq!(flat.get_note(*id).unwrap().get_id(), *id);
    }
    assert_eq!(flat.get_beats(), Ok(Fraction::from_integer(4)));
    assert_eq!(flat.get_beats(), composition.get_beats());
    assert_eq!(flat.get_duration(), composition.get_duration());
    let slices = flat.iter()[0].iter_timeslices(&short()).unwrap();
    let times: Vec<Fraction> = slices.iter().map(|slice| slice.get_time()).collect();
    assert_eq!(
        times,
        vec![
            Fraction::zero(),
            Fraction::new(2, 3).unwrap(),
            Fraction::from_integer(1),
            Fraction::from_integer(2),
            Fraction::new(8, 3).unwrap(),
            Fraction::from_integer(3)
        ]
    );
}

#[test]
fn a_voice_with_a_phrase_is_cut_and_long_notes_are_tied() {
    let mut registry = IdRegistry::new();
    let mut composition = Composition::new("Duet", Some(Tempo::new(short(), 120)), None, None);
    let part = composition.add_part(&mut registry, "Harp");
    let staff_id = part.add_staff(&mut registry);
    let staff = part.get_staff_mut(staff_id).unwrap();
    let voices_id = staff.add_multivoice(&mut registry);
    let voices = staff.get_multivoice_mut(voices_id).unwrap();
    let upper = voices.add_phrase(&mut registry);
    let lower = voices.add_phrase(&mut registry);
    let eighth = Duration::new(DurationType::Eighth, 0);
    let phrase = voices.get_phrase_mut(upper).unwrap();
    let first = phrase.add_note(&mut registry, Pitch::new(PitchName::A, 4), short(), None);
    let inner = phrase.add_phrase(&mut registry);
    let run = phrase.get_phrase_mut(inner).unwrap();
    let second = run.add_note(&mut registry, Pitch::new(PitchName::B, 4), eighth, None);
    let third = run.add_note(&mut registry, Pitch::new(PitchName::C, 5), eighth, None);
    let held = voices.get_phrase_mut(lower).unwrap().add_note(
        &mut registry,
        Pitch::new(PitchName::F, 3),
        long(),
        None,
    );
    let slur = voices.get_phrase_mut(lower).unwrap().add_modification(
        &mut registry,
        PhraseModificationType::Slur,
    );
    let mark = composition.get_note_mut(held).unwrap().add_modification(
        &mut registry,
        NoteModificationType::Staccato,
    );
    assert_eq!(composition.count_flat_ids(), 3 + 2 + 2);
    let next = usize::MAX - registry.remaining();
    let flat = composition.flatten(&mut registry).unwrap();
    assert_eq!(usize::MAX - registry.remaining(), next + 7);
    let phrase = flat.get_phrase(voices_id).unwrap();
    assert_eq!(
        phrase.to_string(),
        "Phrase (Slur): [Chord: [A4 1/4, F3 1/4 (Staccato, Tie)], Chord: [B4 1/8, F3 1/8 (Tie)], Chord: [C5 1/8, F3 1/8]]"
    );
    assert_eq!(phrase.get_modification(slur).unwrap().get_id(), slur);
    for id in [first, second, third, held] {
        assert_eq!(flat.get_note(id).unwrap().get_id(), id);
    }
    assert_eq!(flat.get_note(held).unwrap().get_modification(mark).unwrap().get_id(), mark);
    assert!(flat.get_phrase(inner).is_none());
    assert_eq!(flat.get_beats(), Ok(Fraction::from_integer(2)));
    assert_eq!(flat.get_duration(), Ok(Fraction::from_integer(1)));
    assert_eq!(flat.get_duration(), composition.get_duration());
    assert_eq!(flat.count_flat_ids(), 0);
    let again = flat.flatten(&mut registry).unwrap();
    assert_eq!(usize::MAX - registry.remaining(), next + 7);
    assert_eq!(again.get_phrase(voices_id).unwrap().to_string(), phrase.to_string());
}

#[test]
fn restructuring_keeps_the_duration() {
    let (composition, mut registry) = orchestra();
    let split = composition.restructure_staves_as_parts(&mut registry);
    assert_eq!(composition.get_beats(), Ok(Fraction::from_integer(3)));
    assert_eq!(split.get_beats(), composition.get_beats());
    assert_eq!(split.get_duration(), composition.get_duration());
}

#[test]
fn identifiers_made_by_transforms_are_new() {
    let (composition, mut registry, voices_id, notes) = homophonic();
    let next = usize::MAX - registry.remaining();
    let flat = composition.flatten(&mut registry).unwrap();
    let phrase = flat.get_phrase(voices_id).unwrap();
    let made: Vec<usize> = phrase.iter().iter().map(PhraseContent::get_id).collect();
    assert_eq!(made, vec![next, next + 1, next + 2]);
    for id in notes.iter().flatten() {
        assert!(*id < next);
    }
    assert_eq!(usize::MAX - registry.remaining(), next + 3);
}
