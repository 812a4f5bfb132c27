use midi_player::config::AppConfig;
use midi_player::keyboard::Modifier;
use midi_player::midi::{MidiFile, MidiInfo, NoteEvent};
use midi_player::playback::{build_timeline, Command, PlaybackEngine};

fn file(events: Vec<NoteEvent>) -> MidiFile {
    let info = MidiInfo { track_count: 1, duration_ms: 0, note_count: events.len(), min_note: 0, max_note: 127 };
    MidiFile { info, events }
}

fn note(start_ms: u64, duration_ms: u64, note: u8) -> NoteEvent {
    NoteEvent { start_ms, duration_ms, note, velocity: 100 }
}

#[test]
fn single_note_end_to_end() {
    let t = build_timeline(&file(vec![note(0, 500, 60)]), &AppConfig::default());
    assert_eq!(t.len(), 2);
    assert_eq!((t[0].time_ms, t[0].key.as_str(), t[0].modifier, t[0].is_key_down), (0, "A", Modifier::Plain, true));
    assert_eq!((t[1].time_ms, t[1].key.as_str(), t[1].modifier, t[1].is_key_down), (500, "A", Modifier::Plain, false));
}

#[test]
fn short_note_is_held_thirty_ms() {
    let t = build_timeline(&file(vec![note(100, 5, 61)]), &AppConfig::default());
    assert_eq!((t[0].time_ms, t[0].modifier), (100, Modifier::Shift));
    assert_eq!(t[1].time_ms, 130);
    assert_eq!(t[1].key, "A");
}

#[test]
fn timeline_sorted_and_drops_unplayable() {
    let t = build_timeline(
        &file(vec![note(0, 1000, 48), note(200, 100, 20), note(300, 100, 83)]),
        &AppConfig::default(),
    );
    let times: Vec<u64> = t.iter().map(|e| e.time_ms).collect();
    assert_eq!(times, vec![0, 300, 400, 1000]);
    let keys: Vec<&str> = t.iter().map(|e| e.key.as_str()).collect();
    assert_eq!(keys, vec!["Z", "U", "U", "Z"]);
}

#[test]
fn timeline_applies_polyphony_limit() {
    let t = build_timeline(&file(vec![note(0, 100, 60), note(2, 100, 62), note(4, 100, 64)]), &AppConfig::default());
    assert_eq!(t.len(), 4);
    assert!(t.iter().all(|e| e.key != "A"));
}

#[test]
fn stop_twice_same_as_once() {
    let mut e = PlaybackEngine::new();
    e.start(&file(vec![note(0, 500, 60)]), &AppConfig::default());
    assert!(e.is_playing());
    assert_eq!(e.stop(), Command::ReleaseAll);
    let (p, q, s) = (e.is_playing(), e.is_paused(), e.session());
    assert_eq!(e.stop(), Command::ReleaseAll);
    assert_eq!((e.is_playing(), e.is_paused(), e.session()), (p, q, s));
    assert!(!p && !q);
}

#[test]
fn pause_toggles_only_while_playing() {
    let mut e = PlaybackEngine::default();
    assert_eq!(e.pause(), Command::Nothing);
    assert!(!e.is_paused());
    e.start(&file(vec![note(0, 500, 60)]), &AppConfig::default());
    assert_eq!(e.pause(), Command::ReleaseAll);
    assert!(e.is_paused());
    assert_eq!(e.pause(), Command::Nothing);
    assert!(!e.is_paused());
}

#[test]
fn empty_timeline_does_not_start() {
    let mut e = PlaybackEngine::new();
    assert_eq!(e.start(&file(vec![note(0, 500, 10)]), &AppConfig::default()), Command::ReleaseAll);
    assert!(!e.is_playing());
}

#[test]
fn start_supersedes_previous_session() {
    let mut e = PlaybackEngine::new();
    e.start(&file(vec![note(0, 500, 60), note(1000, 500, 62)]), &AppConfig::default());
    let old = e.session();
    e.start(&file(vec![note(0, 100, 64)]), &AppConfig::default());
    let old_step = e.poll(old, 10_000);
    assert!(old_step.finished);
    assert_eq!(old_step.from, old_step.to);
    assert!(e.is_playing());
    let step = e.poll(e.session(), 0);
    assert_eq!((step.from, step.to, step.finished), (0, 1, false));
    assert_eq!(e.event_at(0).key, "D");
    let step = e.poll(e.session(), 100);
    assert_eq!((step.from, step.to, step.finished), (1, 2, true));
    assert!(!e.is_playing());
}

#[test]
fn poll_dispatches_due_entries_in_order() {
    let mut e = PlaybackEngine::new();
    e.start(&file(vec![note(0, 100, 60), note(200, 100, 62)]), &AppConfig::default());
    let s = e.session();
    let a = e.poll(s, 50);
    assert_eq!((a.from, a.to), (0, 1));
    let b = e.poll(s, 150);
    assert_eq!((b.from, b.to), (1, 2));
    let c = e.poll(s, 150);
    assert_eq!((c.from, c.to, c.finished), (2, 2, false));
}

#[test]
fn resume_after_pause_fires_missed_entries_in_a_burst() {
    let mut e = PlaybackEngine::new();
    e.start(&file(vec![note(0, 100, 60), note(200, 100, 62), note(400, 100, 64)]), &AppConfig::default());
    let s = e.session();
    assert_eq!(e.poll(s, 0).to, 1);
    e.pause();
    let p = e.poll(s, 5000);
    assert_eq!((p.from, p.to, p.finished), (1, 1, false));
    e.pause();
    let r = e.poll(s, 5000);
    assert_eq!((r.from, r.to, r.finished), (1, 6, true));
}
