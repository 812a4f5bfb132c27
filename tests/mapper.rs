use midi_player::config::AppConfig;
use midi_player::keyboard::Modifier;
use midi_player::mapper::{
    find_degree_and_accidental, midi_to_instrument, note_to_keystroke, suggest_transpose, Accidental,
    InstrumentNote, Octave,
};

#[test]
fn test_degree_semitones() {
    assert_eq!(find_degree_and_accidental(0), Some((1, Accidental::Natural)));
    assert_eq!(find_degree_and_accidental(2), Some((2, Accidental::Natural)));
    assert_eq!(find_degree_and_accidental(4), Some((3, Accidental::Natural)));
    assert_eq!(find_degree_and_accidental(5), Some((4, Accidental::Natural)));
    assert_eq!(find_degree_and_accidental(7), Some((5, Accidental::Natural)));
    assert_eq!(find_degree_and_accidental(9), Some((6, Accidental::Natural)));
    assert_eq!(find_degree_and_accidental(11), Some((7, Accidental::Natural)));
}

#[test]
fn test_sharps() {
    assert_eq!(find_degree_and_accidental(1), Some((1, Accidental::Sharp)));
    assert_eq!(find_degree_and_accidental(3), Some((2, Accidental::Sharp)));
    assert_eq!(find_degree_and_accidental(6), Some((4, Accidental::Sharp)));
    assert_eq!(find_degree_and_accidental(8), Some((5, Accidental::Sharp)));
    assert_eq!(find_degree_and_accidental(10), Some((6, Accidental::Sharp)));
}

#[test]
fn every_position_in_octave_resolves() {
    for s in 0u8..12 {
        assert!(find_degree_and_accidental(s).is_some());
    }
    assert_eq!(find_degree_and_accidental(12), Some((7, Accidental::Sharp)));
    assert_eq!(find_degree_and_accidental(13), None);
}

#[test]
fn reference_pitch_is_medium_first_degree() {
    let c = AppConfig::default();
    let n = midi_to_instrument(60, &c).unwrap();
    assert_eq!(n, InstrumentNote { octave: Octave::Medium, degree: 1, accidental: Accidental::Natural });
}

#[test]
fn octave_bands_and_out_of_range() {
    let c = AppConfig::default();
    assert_eq!(midi_to_instrument(48, &c).unwrap().octave, Octave::Low);
    assert_eq!(midi_to_instrument(83, &c).unwrap(), InstrumentNote { octave: Octave::High, degree: 7, accidental: Accidental::Natural });
    assert_eq!(midi_to_instrument(47, &c), None);
    assert_eq!(midi_to_instrument(84, &c), None);
    assert_eq!(midi_to_instrument(66, &c).unwrap(), InstrumentNote { octave: Octave::Medium, degree: 4, accidental: Accidental::Sharp });
}

#[test]
fn transpose_shifts_the_pitch() {
    let mut c = AppConfig::default();
    c.transpose = 12;
    assert_eq!(midi_to_instrument(60, &c).unwrap().octave, Octave::High);
    c.transpose = -24;
    assert_eq!(midi_to_instrument(60, &c), None);
    c.transpose = i32::MIN;
    assert_eq!(midi_to_instrument(127, &c), None);
}

#[test]
fn keystroke_uses_layout_and_modifier() {
    let c = AppConfig::default();
    let k = note_to_keystroke(&InstrumentNote { octave: Octave::Medium, degree: 1, accidental: Accidental::Natural }, &c).unwrap();
    assert_eq!(k.key, "A");
    assert_eq!(k.modifier, Modifier::Plain);
    let k = note_to_keystroke(&InstrumentNote { octave: Octave::High, degree: 7, accidental: Accidental::Sharp }, &c).unwrap();
    assert_eq!(k.key, "U");
    assert_eq!(k.modifier, Modifier::Shift);
    let k = note_to_keystroke(&InstrumentNote { octave: Octave::Low, degree: 3, accidental: Accidental::Flat }, &c).unwrap();
    assert_eq!(k.key, "C");
    assert_eq!(k.modifier, Modifier::Ctrl);
}

#[test]
fn keystroke_missing_for_short_layout() {
    let mut c = AppConfig::default();
    c.key_mapping.low.truncate(2);
    let n = InstrumentNote { octave: Octave::Low, degree: 3, accidental: Accidental::Natural };
    assert!(note_to_keystroke(&n, &c).is_none());
    let z = InstrumentNote { octave: Octave::Low, degree: 0, accidental: Accidental::Natural };
    assert!(note_to_keystroke(&z, &c).is_none());
}

#[test]
fn accidental_modifiers() {
    assert_eq!(Accidental::Flat.to_modifier(), Modifier::Ctrl);
    assert_eq!(Accidental::Natural.to_modifier(), Modifier::Plain);
    assert_eq!(Accidental::Sharp.to_modifier(), Modifier::Shift);
}

#[test]
fn suggest_transpose_cases() {
    assert_eq!(suggest_transpose(&[], 60), 0);
    assert_eq!(suggest_transpose(&[48, 59, 83], 60), 0);
    assert_eq!(suggest_transpose(&[24], 60), 24);
    assert_eq!(suggest_transpose(&[100, 110], 60), -24);
    assert_eq!(suggest_transpose(&[36, 70], 60), 12);
}

#[test]
fn suggest_transpose_tie_prefers_lower_octave() {
    // Every pitch in the band but none below the reference: -24 also fits.
    assert_eq!(suggest_transpose(&[72], 60), -24);
    assert_eq!(suggest_transpose(&[60, 70], 60), -12);
}
