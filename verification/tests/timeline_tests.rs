use amm::{
    Composition, Duration, DurationType, Fraction, IdRegistry, PartEntry, PartTimeslice, Pitch,
    PitchName, place_and_merge, Staff, Timeslice, TimingError,
};

fn crotchet() -> Duration {
    Duration::new(DurationType::Quarter, 0)
}

fn minim() -> Duration {
    Duration::new(DurationType::Half, 0)
}

fn middle_c() -> Pitch {
    Pitch::new(PitchName::C, 4)
}

fn frac(n: u64, d: u64) -> Fraction {
    Fraction::new(n, d).unwrap()
}

fn fill_phrase(staff: &mut Staff, registry: &mut IdRegistry, lengths: &[Duration]) -> Vec<usize> {
    let phrase_id = staff.add_phrase(registry);
    let phrase = staff.get_phrase_mut(phrase_id).unwrap();
    lengths.iter().map(|length| phrase.add_note(registry, middle_c(), *length, None)).collect()
}

fn times_of(slices: &[Timeslice]) -> Vec<Fraction> {
    slices.iter().map(|slice| slice.get_time()).collect()
}

#[test]
fn placing_keeps_the_slices_in_order_of_time() {
    let mut slices: Vec<Timeslice> = Vec::new();
    assert_eq!(place_and_merge(&mut slices, 0, frac(1, 1), 10), 0);
    assert_eq!(place_and_merge(&mut slices, 0, frac(3, 1), 30), 1);
    assert_eq!(place_and_merge(&mut slices, 0, frac(2, 1), 20), 1);
    assert_eq!(place_and_merge(&mut slices, 0, frac(4, 2), 21), 1);
    assert_eq!(place_and_merge(&mut slices, 0, frac(0, 1), 5), 0);
    assert_eq!(times_of(&slices), vec![frac(0, 1), frac(1, 1), frac(2, 1), frac(3, 1)]);
    assert_eq!(slices[2].iter(), [20, 21]);
    assert_eq!(slices[2].len(), 2);
}

#[test]
fn placing_from_a_cursor_finds_the_same_place() {
    let mut slices: Vec<Timeslice> = Vec::new();
    for beat in 0..5u64 {
        place_and_merge(&mut slices, 0, Fraction::from_integer(beat), beat as usize);
    }
    assert_eq!(place_and_merge(&mut slices, 3, frac(7, 2), 99), 4);
    assert_eq!(place_and_merge(&mut slices, 4, frac(7, 2), 98), 4);
    assert_eq!(slices[4].iter(), [99, 98]);
    assert_eq!(slices.len(), 6);
}

#[test]
fn notes_of_a_phrase_follow_one_another() {
    let mut registry = IdRegistry::new();
    let mut composition = Composition::new("Line", None, None, None);
    let part = composition.add_part(&mut registry, "Flute");
    let staff_id = part.add_staff(&mut registry);
    let staff = part.get_staff_mut(staff_id).unwrap();
    let notes = fill_phrase(staff, &mut registry, &[crotchet(), minim(), crotchet()]);
    let onsets = staff.get_onsets(&crotchet()).unwrap();
    let found: Vec<(Fraction, usize)> =
        onsets.iter().map(|onset| (onset.get_time(), onset.get_id())).collect();
    assert_eq!(found, vec![(frac(0, 1), notes[0]), (frac(1, 1), notes[1]), (frac(3, 1), notes[2])]);
    let slices = part.iter_timeslices(&crotchet()).unwrap();
    assert_eq!(times_of(&slices), vec![frac(0, 1), frac(1, 1), frac(3, 1)]);
    assert_eq!(part.num_timeslices(&crotchet()), Ok(3));
}

#[test]
fn voices_begin_together_and_what_follows_waits_for_the_longest() {
    let mut registry = IdRegistry::new();
    let mut composition = Composition::new("Voices", None, None, None);
    let part = composition.add_part(&mut registry, "Piano");
    let staff_id = part.add_staff(&mut registry);
    let staff = part.get_staff_mut(staff_id).unwrap();
    let lead = fill_phrase(staff, &mut registry, &[crotchet()]);
    let voices_id = staff.add_multivoice(&mut registry);
    let voices = staff.get_multivoice_mut(voices_id).unwrap();
    let upper = voices.add_phrase(&mut registry);
    let lower = voices.add_phrase(&mut registry);
    let high: Vec<usize> = (0..2)
        .map(|_| {
            voices.get_phrase_mut(upper).unwrap().add_note(&mut registry, middle_c(), crotchet(), None)
        })
        .collect();
    let low: Vec<usize> = (0..3)
        .map(|_| {
            voices.get_phrase_mut(lower).unwrap().add_note(&mut registry, middle_c(), crotchet(), None)
        })
        .collect();
    let tail = fill_phrase(staff, &mut registry, &[minim()]);
    let slices = part.iter_timeslices(&crotchet()).unwrap();
    assert_eq!(
        times_of(&slices),
        vec![frac(0, 1), frac(1, 1), frac(2, 1), frac(3, 1), frac(4, 1)]
    );
    assert_eq!(slices[0].iter(), [lead[0]]);
    assert_eq!(slices[1].iter(), [high[0], low[0]]);
    assert_eq!(slices[2].iter(), [high[1], low[1]]);
    assert_eq!(slices[3].iter(), [low[2]]);
    assert_eq!(slices[4].iter(), [tail[0]]);
    assert_eq!(part.get_beats(&crotchet()), Ok(frac(6, 1)));
}

#[test]
fn staves_of_a_part_run_side_by_side() {
    let mut registry = IdRegistry::new();
    let mut composition = Composition::new("Two hands", None, None, None);
    let part = composition.add_part(&mut registry, "Piano");
    let right = part.add_staff(&mut registry);
    let left = part.add_staff(&mut registry);
    let above =
        fill_phrase(part.get_staff_mut(right).unwrap(), &mut registry, &[crotchet(), crotchet()]);
    let below = fill_phrase(part.get_staff_mut(left).unwrap(), &mut registry, &[minim()]);
    let slices = part.iter_timeslices(&crotchet()).unwrap();
    assert_eq!(times_of(&slices), vec![frac(0, 1), frac(1, 1)]);
    assert_eq!(slices[0].iter(), [above[0], below[0]]);
    assert_eq!(slices[1].iter(), [above[1]]);
}

fn duet(first: &str, second: &str) -> (Composition, Vec<(String, usize, Vec<usize>)>) {
    let mut registry = IdRegistry::new();
    let mut composition = Composition::new("Duet", None, None, None);
    let mut made = Vec::new();
    for name in [first, second] {
        let lengths: Vec<Duration> = if name == "Flute" {
            vec![crotchet(), crotchet(), minim()]
        } else {
            vec![minim(), Duration::new(DurationType::Quarter, 1), crotchet()]
        };
        let part = composition.add_part(&mut registry, name);
        let part_id = part.get_id();
        let staff_id = part.add_staff(&mut registry);
        let notes = fill_phrase(part.get_staff_mut(staff_id).unwrap(), &mut registry, &lengths);
        made.push((name.to_string(), part_id, notes));
    }
    (composition, made)
}

fn entries_under(slice: &PartTimeslice, part: usize) -> Vec<usize> {
    slice.iter().iter().filter(|entry| entry.part == part).map(|entry| entry.item).collect()
}

#[test]
fn merged_timeline_holds_each_part_under_its_own_key() {
    let (composition, made) = duet("Flute", "Cello");
    let (flute, cello) = (made[0].1, made[1].1);
    let slices = composition.iter_timeslices().unwrap();
    let times: Vec<Fraction> = slices.iter().map(|slice| slice.get_time()).collect();
    assert_eq!(times, vec![frac(0, 1), frac(1, 1), frac(2, 1), frac(7, 2)]);
    assert_eq!(slices[0].iter(), [
        PartEntry { part: flute, item: made[0].2[0] },
        PartEntry { part: cello, item: made[1].2[0] },
    ]);
    assert_eq!(entries_under(&slices[1], flute), vec![made[0].2[1]]);
    assert!(entries_under(&slices[1], cello).is_empty());
    assert_eq!(entries_under(&slices[2], flute), vec![made[0].2[2]]);
    assert_eq!(entries_under(&slices[2], cello), vec![made[1].2[1]]);
    assert_eq!(entries_under(&slices[3], cello), vec![made[1].2[2]]);
    assert_eq!(composition.num_timeslices(), Ok(3));
    assert_eq!(composition.get_part_timeslice(&slices[2], "Cello"), Some(vec![made[1].2[1]]));
    assert_eq!(composition.get_part_timeslice(&slices[1], "Cello"), Some(vec![]));
    assert_eq!(composition.get_part_timeslice(&slices[1], "Oboe"), None);
}

#[test]
fn order_of_the_parts_does_not_change_the_slots() {
    let (forward, made_forward) = duet("Flute", "Cello");
    let (backward, made_backward) = duet("Cello", "Flute");
    let one = forward.iter_timeslices().unwrap();
    let other = backward.iter_timeslices().unwrap();
    assert_eq!(one.len(), other.len());
    for (a, b) in one.iter().zip(other.iter()) {
        assert_eq!(a.get_time(), b.get_time());
        for (name, part, notes) in &made_forward {
            let (_, other_part, other_notes) =
                made_backward.iter().find(|(other_name, _, _)| other_name == name).unwrap();
            let here: Vec<usize> = entries_under(a, *part)
                .iter()
                .map(|id| notes.iter().position(|n| n == id).unwrap())
                .collect();
            let there: Vec<usize> = entries_under(b, *other_part)
                .iter()
                .map(|id| other_notes.iter().position(|n| n == id).unwrap())
                .collect();
            assert_eq!(here, there);
        }
    }
}

#[test]
fn timeline_fails_where_a_duration_is_not_defined() {
    let mut registry = IdRegistry::new();
    let mut composition = Composition::new("Broken", None, None, None);
    let part = composition.add_part(&mut registry, "Drum");
    let staff_id = part.add_staff(&mut registry);
    let staff = part.get_staff_mut(staff_id).unwrap();
    let chord_id = staff.add_chord(&mut registry);
    let chord = staff.get_chord_mut(chord_id).unwrap();
    chord.add_note(&mut registry, middle_c(), crotchet(), None);
    chord.add_note(&mut registry, middle_c(), minim(), None);
    assert_eq!(part.iter_timeslices(&crotchet()).err(), Some(TimingError::NonUniformChord));
    assert_eq!(composition.iter_timeslices().err(), Some(TimingError::NonUniformChord));
    assert_eq!(composition.num_timeslices(), Err(TimingError::NonUniformChord));
}
