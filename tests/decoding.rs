use midi_player::midi::{parse_midi, DecodeError, NoteEvent};
use midi_player::polyphony::limit_polyphony;
use midi_player::tempo::{ticks_to_ms, Breakpoint};

fn smf(division: u16, tracks: &[Vec<u8>]) -> Vec<u8> {
    let mut b = b"MThd".to_vec();
    b.extend_from_slice(&[0, 0, 0, 6, 0, if tracks.len() > 1 { 1 } else { 0 }, 0, tracks.len() as u8]);
    b.extend_from_slice(&division.to_be_bytes());
    for t in tracks {
        b.extend_from_slice(b"MTrk");
        b.extend_from_slice(&(t.len() as u32 + 4).to_be_bytes());
        b.extend_from_slice(t);
        b.extend_from_slice(&[0, 0xFF, 0x2F, 0]);
    }
    b
}

const TEMPO_500K: [u8; 7] = [0, 0xFF, 0x51, 3, 0x07, 0xA1, 0x20];

fn ev(start_ms: u64, duration_ms: u64, note: u8) -> NoteEvent {
    NoteEvent { start_ms, duration_ms, note, velocity: 100 }
}

#[test]
fn one_beat_note_decodes_to_half_a_second() {
    let mut t = TEMPO_500K.to_vec();
    t.extend_from_slice(&[0, 0x90, 60, 100, 0x83, 0x60, 0x80, 60, 64]);
    let f = parse_midi(&smf(480, &[t])).unwrap();
    assert_eq!(f.events, vec![NoteEvent { start_ms: 0, duration_ms: 500, note: 60, velocity: 100 }]);
    let i = f.info();
    assert_eq!(i.track_count, 1);
    assert_eq!(i.duration_ms, 500);
    assert_eq!(i.note_count, 1);
    assert_eq!((i.min_note, i.max_note), (60, 60));
}

#[test]
fn note_pair_at_known_ticks_under_faster_tempo() {
    // 250000 us per beat, 96 ticks per beat: start at tick 96, end at tick 288.
    let t = vec![0, 0xFF, 0x51, 3, 0x03, 0xD0, 0x90, 0x60, 0x90, 64, 90, 0x81, 0x40, 0x80, 64, 0];
    let f = parse_midi(&smf(96, &[t])).unwrap();
    assert_eq!(f.events, vec![NoteEvent { start_ms: 250, duration_ms: 500, note: 64, velocity: 90 }]);
}

#[test]
fn zero_velocity_note_on_ends_a_note() {
    let t = vec![0, 0x90, 62, 80, 0x60, 0x90, 62, 0];
    let f = parse_midi(&smf(96, &[t])).unwrap();
    assert_eq!(f.events, vec![NoteEvent { start_ms: 0, duration_ms: 500, note: 62, velocity: 80 }]);
}

#[test]
fn unterminated_note_closes_at_track_end() {
    let t = vec![0, 0x90, 62, 80, 0x60, 0x90, 70, 50, 0x60, 0xB0, 7, 100];
    let f = parse_midi(&smf(96, &[t])).unwrap();
    assert_eq!(
        f.events,
        vec![
            NoteEvent { start_ms: 0, duration_ms: 1000, note: 62, velocity: 80 },
            NoteEvent { start_ms: 500, duration_ms: 500, note: 70, velocity: 50 },
        ]
    );
}

#[test]
fn same_pitch_closes_earliest_first() {
    let t = vec![0, 0x90, 60, 10, 0x60, 0x90, 60, 20, 0x60, 0x80, 60, 0, 0x60, 0x80, 60, 0];
    let f = parse_midi(&smf(96, &[t])).unwrap();
    assert_eq!(
        f.events,
        vec![
            NoteEvent { start_ms: 0, duration_ms: 1000, note: 60, velocity: 10 },
            NoteEvent { start_ms: 500, duration_ms: 1000, note: 60, velocity: 20 },
        ]
    );
}

#[test]
fn tracks_merge_sorted_by_start() {
    let a = vec![0x60, 0x90, 60, 10, 0x60, 0x80, 60, 0];
    let b = vec![0, 0x90, 64, 20, 0x60, 0x80, 64, 0];
    let f = parse_midi(&smf(96, &[a, b])).unwrap();
    assert_eq!(f.events.iter().map(|e| e.note).collect::<Vec<_>>(), vec![64, 60]);
    assert_eq!(f.info().track_count, 2);
    assert_eq!(f.info().duration_ms, 1000);
    assert_eq!((f.info().min_note, f.info().max_note), (60, 64));
}

#[test]
fn empty_file_summary() {
    let f = parse_midi(&smf(96, &[vec![]])).unwrap();
    assert!(f.events.is_empty());
    assert_eq!((f.info().min_note, f.info().max_note, f.info().duration_ms), (0, 127, 0));
}

#[test]
fn malformed_bytes_are_rejected() {
    assert_eq!(parse_midi(b"not a midi file").err(), Some(DecodeError::Malformed));
    assert_eq!(parse_midi(&[]).err(), Some(DecodeError::Malformed));
}

#[test]
fn tempo_resolver_values() {
    let map = [Breakpoint { tick: 0, micros_per_beat: 500000 }];
    assert_eq!(ticks_to_ms(0, 480, &map), 0);
    assert_eq!(ticks_to_ms(480, 480, &map), 500);
    assert_eq!(ticks_to_ms(240, 480, &map), 250);
    let map = [
        Breakpoint { tick: 0, micros_per_beat: 500000 },
        Breakpoint { tick: 480, micros_per_beat: 250000 },
    ];
    assert_eq!(ticks_to_ms(960, 480, &map), 750);
    assert_eq!(ticks_to_ms(480, 480, &map), 500);
    assert_eq!(ticks_to_ms(u32::MAX, 1, &[]), 2147483647500);
}

#[test]
fn tempo_resolver_never_decreases() {
    let map = [
        Breakpoint { tick: 0, micros_per_beat: 500000 },
        Breakpoint { tick: 100, micros_per_beat: 1000 },
        Breakpoint { tick: 300, micros_per_beat: 2000000 },
    ];
    let mut last = 0;
    for t in 0..1000u32 {
        let ms = ticks_to_ms(t, 96, &map);
        assert!(ms >= last);
        last = ms;
    }
}

#[test]
fn polyphony_keeps_highest_in_order() {
    let mut v = vec![ev(0, 100, 60), ev(5, 100, 67), ev(8, 100, 64), ev(50, 100, 40)];
    limit_polyphony(&mut v, 2, 10);
    assert_eq!(v, vec![ev(5, 100, 67), ev(8, 100, 64), ev(50, 100, 40)]);
}

#[test]
fn polyphony_group_of_three_to_one() {
    let mut v = vec![ev(0, 1, 50), ev(3, 1, 72), ev(10, 1, 72), ev(11, 1, 30)];
    limit_polyphony(&mut v, 1, 10);
    assert_eq!(v, vec![ev(3, 1, 72), ev(11, 1, 30)]);
}

#[test]
fn polyphony_small_groups_and_zero_limit_unchanged() {
    let orig = vec![ev(0, 1, 50), ev(3, 1, 72), ev(30, 1, 10)];
    let mut v = orig.clone();
    limit_polyphony(&mut v, 2, 10);
    assert_eq!(v, orig);
    let mut w = vec![ev(0, 1, 50), ev(1, 1, 51), ev(2, 1, 52)];
    limit_polyphony(&mut w, 0, 10);
    assert_eq!(w.len(), 3);
}

#[test]
fn tempo_change_midway_is_applied() {
    // 96 ticks per beat; the tempo halves the beat length at tick 96.
    let t = vec![
        0, 0x90, 60, 100, 0x60, 0xFF, 0x51, 3, 0x03, 0xD0, 0x90, 0x60, 0x80, 60, 0,
    ];
    let f = parse_midi(&smf(96, &[t])).unwrap();
    assert_eq!(f.events, vec![NoteEvent { start_ms: 0, duration_ms: 750, note: 60, velocity: 100 }]);
}

#[test]
fn tempo_in_another_track_applies_to_all() {
    let conductor = vec![0x60, 0xFF, 0x51, 3, 0x03, 0xD0, 0x90];
    let notes = vec![0x81, 0x40, 0x90, 60, 100, 0x60, 0x80, 60, 0];
    let f = parse_midi(&smf(96, &[conductor, notes])).unwrap();
    assert_eq!(f.events, vec![NoteEvent { start_ms: 750, duration_ms: 250, note: 60, velocity: 100 }]);
}

#[test]
fn timecode_division_counts_frames_times_subframes() {
    // 25 frames of 40 ticks: 1000 ticks stand for one beat of 500 ms.
    let t = vec![0, 0x90, 60, 100, 0x87, 0x68, 0x80, 60, 0];
    let f = parse_midi(&smf(0xE728, &[t])).unwrap();
    assert_eq!(f.events, vec![NoteEvent { start_ms: 0, duration_ms: 500, note: 60, velocity: 100 }]);
}

#[test]
fn frame_rate_byte_0x80_is_rejected() {
    let b = [0x4D, 0x54, 0x68, 0x64, 0, 0, 0, 6, 0, 0, 0, 1, 0x80, 0];
    assert_eq!(parse_midi(&b).err(), Some(DecodeError::Malformed));
}

#[test]
fn frame_rate_byte_0x80_in_a_later_header_is_rejected() {
    let mut b = smf(96, &[vec![0, 0x90, 60, 100, 0x60, 0x80, 60, 0]]);
    b.extend_from_slice(&[0x4D, 0x54, 0x68, 0x64, 0, 0, 0, 6, 0, 1, 0, 1, 0x80, 0x10]);
    assert_eq!(parse_midi(&b).err(), Some(DecodeError::Malformed));
}

fn rmid(inner: &[u8]) -> Vec<u8> {
    let mut body = b"RMID".to_vec();
    body.extend_from_slice(b"data");
    body.extend_from_slice(&(inner.len() as u32).to_le_bytes());
    body.extend_from_slice(inner);
    let mut b = b"RIFF".to_vec();
    b.extend_from_slice(&(body.len() as u32).to_le_bytes());
    b.extend_from_slice(&body);
    b
}

#[test]
fn rmid_wrapped_file_decodes() {
    let inner = smf(96, &[vec![0, 0x90, 60, 100, 0x60, 0x80, 60, 0]]);
    let f = parse_midi(&rmid(&inner)).unwrap();
    assert_eq!(f.events, vec![NoteEvent { start_ms: 0, duration_ms: 500, note: 60, velocity: 100 }]);
}

#[test]
fn rmid_wrapped_unreadable_header_is_rejected() {
    let inner = [0x4D, 0x54, 0x68, 0x64, 0, 0, 0, 6, 0, 0, 0, 1, 0x80, 0];
    assert_eq!(parse_midi(&rmid(&inner)).err(), Some(DecodeError::Malformed));
}

#[test]
fn polyphony_group_in_the_middle_of_a_list() {
    let mut v = vec![ev(0, 1, 50), ev(100, 1, 61), ev(104, 1, 70), ev(109, 1, 55), ev(110, 1, 80), ev(300, 1, 40)];
    limit_polyphony(&mut v, 2, 10);
    assert_eq!(v, vec![ev(0, 1, 50), ev(104, 1, 70), ev(110, 1, 80), ev(300, 1, 40)]);
}
