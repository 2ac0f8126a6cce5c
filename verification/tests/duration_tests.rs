use amm::{
    Accidental, Chord, Composition, Duration, DurationType, Fraction, IdRegistry, Phrase,
    PhraseModificationType, Pitch, PitchName, Tempo, TimingError,
};

fn quarter() -> Duration {
    Duration::new(DurationType::Quarter, 0)
}

fn pitch() -> Pitch {
    Pitch::new(PitchName::C, 4)
}

#[test]
fn nominal_values_in_whole_notes() {
    assert_eq!(Duration::new(DurationType::Whole, 0).value(), Fraction::new(1, 1));
    assert_eq!(Duration::new(DurationType::Maxima, 0).value(), Fraction::new(8, 1));
    assert_eq!(Duration::new(DurationType::Quarter, 0).value(), Fraction::new(1, 4));
    assert_eq!(Duration::new(DurationType::TwoHundredFiftySixth, 0).value(), Fraction::new(1, 256));
}

#[test]
fn each_dot_adds_half_of_the_one_before() {
    assert_eq!(Duration::new(DurationType::Quarter, 1).value(), Fraction::new(3, 8));
    assert_eq!(Duration::new(DurationType::Quarter, 2).value(), Fraction::new(7, 16));
    assert_eq!(Duration::new(DurationType::Half, 3).value(), Fraction::new(15, 16));
}

#[test]
fn too_many_dots_have_no_value() {
    assert!(Duration::new(DurationType::Quarter, 32).value().is_some());
    assert!(Duration::new(DurationType::Quarter, 33).value().is_none());
}

#[test]
fn beats_are_relative_to_the_base_note() {
    let half = Duration::new(DurationType::Half, 0);
    assert_eq!(half.beats(&quarter()), Fraction::new(2, 1));
    assert_eq!(quarter().beats(&half), Fraction::new(1, 2));
    let dotted = Duration::new(DurationType::Quarter, 1);
    assert_eq!(dotted.beats(&Duration::new(DurationType::Eighth, 0)), Fraction::new(3, 1));
}

#[test]
fn three_notes_of_one_one_and_two_beats_last_two_seconds() {
    let mut registry = IdRegistry::new();
    let tempo = Tempo::new(quarter(), 120);
    let mut composition = Composition::new("Example", Some(tempo), None, None);
    let part = composition.add_part(&mut registry, "Piano");
    let staff_id = part.add_staff(&mut registry);
    let staff = part.get_staff_mut(staff_id).unwrap();
    let phrase_id = staff.add_phrase(&mut registry);
    let phrase = staff.get_phrase_mut(phrase_id).unwrap();
    phrase.add_note(&mut registry, pitch(), quarter(), None);
    phrase.add_note(&mut registry, pitch(), quarter(), None);
    phrase.add_note(&mut registry, pitch(), Duration::new(DurationType::Half, 0), None);
    assert_eq!(composition.get_beats(), Ok(Fraction::from_integer(4)));
    let seconds = composition.get_duration().unwrap();
    assert_eq!(seconds, Fraction::from_integer(2));
    assert_eq!(seconds.numerator() as f64 / seconds.denominator() as f64, 2.0);
}

#[test]
fn triplet_of_quarters_fills_two_beats() {
    let mut registry = IdRegistry::new();
    let mut phrase = Phrase::new(&mut registry);
    for _ in 0..3 {
        phrase.add_note(&mut registry, pitch(), quarter(), None);
    }
    phrase.add_modification(&mut registry, PhraseModificationType::Tuplet { into_beats: 2 });
    assert_eq!(phrase.get_beats(&quarter(), None), Ok(Fraction::from_integer(2)));
}

#[test]
fn tuplet_scales_whatever_its_children_last() {
    let mut registry = IdRegistry::new();
    let mut phrase = Phrase::new(&mut registry);
    for _ in 0..3 {
        phrase.add_note(&mut registry, pitch(), Duration::new(DurationType::Half, 0), None);
    }
    phrase.add_modification(&mut registry, PhraseModificationType::Tuplet { into_beats: 2 });
    assert_eq!(phrase.get_beats(&quarter(), None), Ok(Fraction::from_integer(4)));
}

#[test]
fn nested_tuplets_multiply() {
    let mut registry = IdRegistry::new();
    let mut outer = Phrase::new(&mut registry);
    outer.add_modification(&mut registry, PhraseModificationType::Tuplet { into_beats: 2 });
    outer.add_note(&mut registry, pitch(), quarter(), None);
    outer.add_note(&mut registry, pitch(), quarter(), None);
    let inner_id = outer.add_phrase(&mut registry);
    let inner = outer.get_phrase_mut(inner_id).unwrap();
    inner.add_modification(&mut registry, PhraseModificationType::Tuplet { into_beats: 1 });
    inner.add_note(&mut registry, pitch(), quarter(), None);
    inner.add_note(&mut registry, pitch(), quarter(), None);
    // Outer ratio 2/3; inner ratio 2/3 * 1/2 = 1/3.
    // 2 * 2/3 + 2 * 1/3 = 2.
    assert_eq!(outer.get_beats(&quarter(), None), Ok(Fraction::from_integer(2)));
    let inherited = Fraction::new(1, 2);
    assert_eq!(outer.get_beats(&quarter(), inherited), Ok(Fraction::from_integer(1)));
}

#[test]
fn tuplet_over_nothing_is_refused() {
    let mut registry = IdRegistry::new();
    let mut phrase = Phrase::new(&mut registry);
    phrase.add_modification(&mut registry, PhraseModificationType::Tuplet { into_beats: 2 });
    assert_eq!(phrase.get_beats(&quarter(), None), Err(TimingError::EmptyTuplet));
    let tempo = Tempo::new(quarter(), 120);
    assert_eq!(phrase.get_duration(&tempo, None), Err(TimingError::EmptyTuplet));
}

#[test]
fn phrase_without_children_lasts_nothing() {
    let mut registry = IdRegistry::new();
    let phrase = Phrase::new(&mut registry);
    assert_eq!(phrase.get_beats(&quarter(), None), Ok(Fraction::zero()));
}

#[test]
fn chord_lasts_as_long_as_its_notes() {
    let mut registry = IdRegistry::new();
    let mut chord = Chord::new(&mut registry);
    assert_eq!(chord.get_beats(&quarter(), None), Ok(Fraction::zero()));
    chord.add_note(&mut registry, pitch(), Duration::new(DurationType::Half, 0), None);
    chord.add_note(&mut registry, Pitch::new(PitchName::E, 4), Duration::new(DurationType::Half, 0), Some(Accidental::Flat));
    assert_eq!(chord.get_beats(&quarter(), None), Ok(Fraction::from_integer(2)));
}

#[test]
fn chord_of_unequal_notes_is_refused() {
    let mut registry = IdRegistry::new();
    let mut chord = Chord::new(&mut registry);
    chord.add_note(&mut registry, pitch(), Duration::new(DurationType::Half, 0), None);
    chord.add_note(&mut registry, pitch(), quarter(), None);
    assert_eq!(chord.get_beats(&quarter(), None), Err(TimingError::NonUniformChord));
}

#[test]
fn note_with_too_many_dots_overflows() {
    let mut registry = IdRegistry::new();
    let mut phrase = Phrase::new(&mut registry);
    phrase.add_note(&mut registry, pitch(), Duration::new(DurationType::Quarter, 40), None);
    assert_eq!(phrase.get_beats(&quarter(), None), Err(TimingError::Overflow));
}

#[test]
fn tempo_of_zero_has_no_seconds() {
    let tempo = Tempo::new(quarter(), 0);
    let composition = Composition::new("Still", Some(tempo), None, None);
    assert_eq!(composition.get_beats(), Ok(Fraction::zero()));
    assert_eq!(composition.get_duration(), Err(TimingError::ZeroTempo));
}

#[test]
fn composition_is_as_long_as_its_longest_part() {
    let mut registry = IdRegistry::new();
    let mut composition = Composition::new("Duet", None, None, None);
    for (name, count) in [("Flute", 2usize), ("Cello", 5usize)] {
        let part = composition.add_part(&mut registry, name);
        let staff_id = part.add_staff(&mut registry);
        let staff = part.get_staff_mut(staff_id).unwrap();
        let phrase_id = staff.add_phrase(&mut registry);
        let phrase = staff.get_phrase_mut(phrase_id).unwrap();
        for _ in 0..count {
            phrase.add_note(&mut registry, pitch(), quarter(), None);
        }
    }
    assert_eq!(composition.get_beats(), Ok(Fraction::from_integer(5)));
    assert_eq!(composition.get_duration(), Ok(Fraction::new(5, 2).unwrap()));
}

#[test]
fn exact_duration_lasts_what_it_says() {
    let sixth = Duration::new(DurationType::Exact { numerator: 1, denominator: 6 }, 0);
    assert_eq!(sixth.value(), Fraction::new(1, 6));
    assert_eq!(sixth.beats(&quarter()), Fraction::new(2, 3));
    assert_eq!(sixth.to_string(), "1/6");
    let dotted = Duration::new(DurationType::Exact { numerator: 2, denominator: 8 }, 1);
    assert_eq!(dotted.value(), Fraction::new(3, 8));
    assert_eq!(dotted.to_string(), "2/8.");
    let unset = Duration::new(DurationType::Exact { numerator: 0, denominator: 0 }, 0);
    assert_eq!(unset.value(), Fraction::new(1, 1));
    assert_eq!(unset.to_string(), "1/1");
}
