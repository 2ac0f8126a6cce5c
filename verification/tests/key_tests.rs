use amm::{Accidental, Key, KeyMode, KeySignature};

#[test]
fn a_major_has_three_sharps() {
    let key = Key::from_fifths(3, Some(KeyMode::Major));
    assert_eq!(key.signature, KeySignature::A);
    assert_eq!(key.mode, KeyMode::Major);
    assert_eq!(key.to_string(), "A");
    assert_eq!(key.fifths(), 3);
}

#[test]
fn every_fifths_round_trips_in_both_modes() {
    for fifths in -7i8..=7 {
        assert_eq!(Key::from_fifths(fifths, Some(KeyMode::Major)).fifths(), fifths);
        assert_eq!(Key::from_fifths(fifths, Some(KeyMode::Minor)).fifths(), fifths);
    }
}

#[test]
fn a_major_sharpens_f_c_and_g() {
    let marks = Key::new(KeySignature::A, KeyMode::Major).accidentals();
    assert_eq!(marks[0], Accidental::Unmarked);
    assert_eq!(marks[6], Accidental::Sharp);
    assert_eq!(marks[3], Accidental::Sharp);
    assert_eq!(marks[7], Accidental::Sharp);
    assert_eq!(marks[1], Accidental::Unmarked);
}

#[test]
fn parallel_key_keeps_the_tonic() {
    let key = Key::new(KeySignature::A, KeyMode::Major);
    let parallel = key.to_parallel();
    assert_eq!(parallel, Key::new(KeySignature::A, KeyMode::Minor));
    assert_eq!(parallel.to_string(), "Am");
    let mut changed = key;
    changed.make_parallel();
    assert_eq!(changed, parallel);
    changed.make_parallel();
    assert_eq!(changed, key);
}

#[test]
fn relative_key_keeps_the_signature() {
    let key = Key::new(KeySignature::A, KeyMode::Major);
    let relative = key.to_relative();
    assert_eq!(relative, Key::new(KeySignature::FSharp, KeyMode::Minor));
    assert_eq!(relative.fifths(), key.fifths());
    assert_eq!(relative.to_string(), "F♯m");
    let mut changed = key;
    changed.make_relative();
    assert_eq!(changed, relative);
    changed.make_relative();
    assert_eq!(changed, key);
}

#[test]
fn keys_outside_the_circle_count_as_c() {
    assert_eq!(Key::from_fifths(9, None), Key::new(KeySignature::C, KeyMode::Major));
    assert_eq!(Key::from_fifths(-8, Some(KeyMode::Minor)).signature, KeySignature::C);
    assert_eq!(Key::from_fifths(-3, Some(KeyMode::Minor)).signature, KeySignature::C);
    assert_eq!(Key::new(KeySignature::ASharp, KeyMode::Major).fifths(), 0);
    assert_eq!(Key::default(), Key::from_fifths(0, None));
}

#[test]
fn flat_keys_flatten_in_the_order_of_the_flats() {
    let marks = Key::from_fifths(-2, None).accidentals();
    assert_eq!(marks[2], Accidental::Flat);
    assert_eq!(marks[5], Accidental::Flat);
    assert_eq!(marks[1], Accidental::Unmarked);
    let all = Key::from_fifths(-7, None).accidentals();
    for letter in 1..8 {
        assert_eq!(all[letter], Accidental::Flat);
    }
    let none = Key::from_fifths(0, None).accidentals();
    for letter in 0..8 {
        assert_eq!(none[letter], Accidental::Unmarked);
    }
}
