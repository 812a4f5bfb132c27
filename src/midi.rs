use vstd::prelude::*;
use midly::{MetaMessage, MidiMessage, Smf, TrackEventKind};
use crate::chunks::{has_unreadable_header, unreadable_header};
use crate::sort::{Keyed, sorted_by_key, stable_sort, stable_sorted};
use crate::tempo::{Breakpoint, DEFAULT_TEMPO, lemma_ms_fits, lemma_ms_monotonic, ms_at, ticks_to_ms};

verus! {

#[verifier::external_type_specification]
#[verifier::external_body]
pub struct ExTiming(midly::Timing);

#[verifier::external_type_specification]
#[verifier::external_body]
pub struct ExTrackEvent<'a>(midly::TrackEvent<'a>);

/// What decoding reads of a track event.
#[derive(Debug, Clone, Copy, PartialEq, Eq, Structural)]
pub enum EventKind {
    NoteOn { key: u8, vel: u8 },
    NoteOff { key: u8 },
    Tempo { micros_per_beat: u32 },
    Other,
}

/// A track event: ticks since the previous event of the track, and its kind.
#[derive(Debug, Clone, Copy, PartialEq, Eq, Structural)]
pub struct TrackItem {
    pub delta: u32,
    pub kind: EventKind,
}

/// The file's time base.
#[derive(Debug, Clone, Copy, PartialEq, Eq, Structural)]
pub enum TimeBase {
    /// Ticks per beat.
    Metrical(u16),
    /// Frames per second (24, 25, 29 for 29.97, or 30) and ticks per frame.
    Timecode(u8, u8),
}

/// The parsed contents of a standard MIDI file that decoding reads.
#[derive(Debug, Clone)]
pub struct Container {
    pub timing: TimeBase,
    pub tracks: Vec<Vec<TrackItem>>,
}

impl Container {
    pub open spec fn tracks_view(&self) -> Seq<Seq<TrackItem>> {
        self.tracks@.map_values(|t: Vec<TrackItem>| t@)
    }
}

/// The bytes are not a well-formed standard MIDI file.
#[derive(Debug, Clone, Copy, PartialEq, Eq, Structural)]
pub enum DecodeError {
    Malformed,
}

/// What midly makes of a byte string: its timing and the events of each
/// track, or nothing when it rejects the bytes.
pub uninterp spec fn smf_contents(bytes: Seq<u8>) -> Option<(TimeBase, Seq<Seq<TrackItem>>)>;

/// Relies on `midly::Timing` and `midly::Fps::as_int`: the variant and its
/// fields as plain integers.
#[verifier::external_body]
fn timing_of(t: midly::Timing) -> TimeBase {
    match t {
        midly::Timing::Metrical(n) => TimeBase::Metrical(n.as_int()),
        midly::Timing::Timecode(fps, sub) => TimeBase::Timecode(fps.as_int(), sub),
    }
}

/// Relies on `midly::TrackEvent`: the delta and the note and tempo messages
/// as plain integers.
#[verifier::external_body]
fn track_event_of(e: &midly::TrackEvent) -> TrackItem {
    let kind = match e.kind {
        TrackEventKind::Midi { message: MidiMessage::NoteOn { key, vel }, .. } => EventKind::NoteOn { key: key.as_int(), vel: vel.as_int() },
        TrackEventKind::Midi { message: MidiMessage::NoteOff { key, .. }, .. } => EventKind::NoteOff { key: key.as_int() },
        TrackEventKind::Meta(MetaMessage::Tempo(t)) => EventKind::Tempo { micros_per_beat: t.as_int() },
        _ => EventKind::Other,
    };
    TrackItem { delta: e.delta.as_int(), kind }
}

/// Relies on midly::Smf::parse: the header's timing and every track's events,
/// or an error when the bytes are not a well-formed standard MIDI file. midly
/// negates the frame-rate byte of each header it reads, which overflows on
/// 0x80: such bytes are left out.
#[verifier::external_body]
fn parse_container(bytes: &[u8]) -> (r: Result<Container, DecodeError>)
    requires
        !has_unreadable_header(bytes@),
    ensures
        match r {
            Ok(c) => smf_contents(bytes@) == Some((c.timing, c.tracks_view())),
            Err(_) => smf_contents(bytes@) is None,
        },
{
    let smf = Smf::parse(bytes).map_err(|_| DecodeError::Malformed)?;
    let tracks = smf.tracks.iter().map(|t| t.iter().map(track_event_of).collect()).collect();
    Ok(Container { timing: timing_of(smf.header.timing), tracks })
}

/// Ticks per beat when the file's time base gives none.
pub const DEFAULT_TICKS_PER_BEAT: u32 = 480;

/// Ticks per beat of a time base; a time code counts ticks per second, and a
/// zero falls back to the default.
pub open spec fn ticks_per_beat_of(t: TimeBase) -> int {
    let raw = match t {
        TimeBase::Metrical(n) => n as int,
        TimeBase::Timecode(fps, sub) => if fps == 29 {
            2997 * sub / 100
        } else {
            fps * sub
        },
    };
    if raw == 0 {
        DEFAULT_TICKS_PER_BEAT as int
    } else {
        raw
    }
}

/// Ticks per beat of the file's time base.
pub fn ticks_per_beat(t: &TimeBase) -> (r: u32)
    ensures
        r == ticks_per_beat_of(*t),
        r > 0,
{
    let raw: u32 = match *t {
        TimeBase::Metrical(n) => n as u32,
        TimeBase::Timecode(fps, sub) => if fps == 29 {
            2997 * sub as u32 / 100
        } else {
            assert(fps as u32 * sub as u32 <= 65025) by (nonlinear_arith)
                requires
                    fps <= 255,
                    sub <= 255,
            ;
            fps as u32 * sub as u32
        },
    };
    if raw == 0 {
        DEFAULT_TICKS_PER_BEAT
    } else {
        raw
    }
}

/// Tempo changes of one track, at their absolute ticks counted from `tick`.
pub open spec fn track_tempos(evs: Seq<TrackItem>, tick: u32) -> Seq<Breakpoint>
    decreases evs.len(),
{
    if evs.len() == 0 {
        Seq::empty()
    } else {
        let t = tick.saturating_add(evs[0].delta);
        let here = match evs[0].kind {
            EventKind::Tempo { micros_per_beat } => seq![Breakpoint { tick: t, micros_per_beat }],
            _ => Seq::empty(),
        };
        here + track_tempos(evs.drop_first(), t)
    }
}

/// Tempo changes of all tracks, track by track.
pub open spec fn all_tempos(tracks: Seq<Seq<TrackItem>>) -> Seq<Breakpoint>
    decreases tracks.len(),
{
    if tracks.len() == 0 {
        Seq::empty()
    } else {
        track_tempos(tracks[0], 0) + all_tempos(tracks.drop_first())
    }
}

/// The tempo map: the default tempo at tick 0, then every tempo change, in
/// order of tick.
pub open spec fn tempo_map_of(tracks: Seq<Seq<TrackItem>>) -> Seq<Breakpoint> {
    stable_sorted(seq![Breakpoint { tick: 0, micros_per_beat: DEFAULT_TEMPO }] + all_tempos(tracks))
}

/// Build the tempo map of the container.
pub fn build_tempo_map(c: &Container) -> (r: Vec<Breakpoint>)
    ensures
        r@ == tempo_map_of(c.tracks_view()),
        sorted_by_key(r@),
{
    let ghost tv = c.tracks_view();
    let mut found: Vec<Breakpoint> = Vec::new();
    found.push(Breakpoint { tick: 0, micros_per_beat: DEFAULT_TEMPO });
    let ghost whole = seq![Breakpoint { tick: 0, micros_per_beat: DEFAULT_TEMPO }] + all_tempos(tv);
    let mut i: usize = 0;
    assert(tv.subrange(0, tv.len() as int) =~= tv);
    while i < c.tracks.len()
        invariant
            0 <= i <= tv.len(),
            tv == c.tracks_view(),
            tv.len() == c.tracks@.len(),
            found@ + all_tempos(tv.subrange(i as int, tv.len() as int)) == whole,
        decreases tv.len() - i,
    {
        let track = &c.tracks[i];
        let ghost evs = track@;
        assert(evs == tv[i as int]);
        let ghost rest = tv.subrange(i as int, tv.len() as int);
        assert(rest[0] == evs);
        assert(rest.drop_first() =~= tv.subrange(i + 1, tv.len() as int));
        let ghost after = all_tempos(tv.subrange(i + 1, tv.len() as int));
        let mut tick: u32 = 0;
        let mut j: usize = 0;
        assert(evs.subrange(0, evs.len() as int) =~= evs);
        assert(found@ + (track_tempos(evs, 0) + after) == whole);
        while j < track.len()
            invariant
                0 <= j <= evs.len(),
                evs == track@,
                found@ + (track_tempos(evs.subrange(j as int, evs.len() as int), tick) + after) == whole,
            decreases evs.len() - j,
        {
            let e = track[j];
            let ghost r = evs.subrange(j as int, evs.len() as int);
            assert(r[0] == e);
            assert(r.drop_first() =~= evs.subrange(j + 1, evs.len() as int));
            let ghost old_found = found@;
            let ghost old_tick = tick;
            tick = tick.saturating_add(e.delta);
            match e.kind {
                EventKind::Tempo { micros_per_beat } => {
                    found.push(Breakpoint { tick, micros_per_beat });
                    assert(found@ =~= old_found + seq![Breakpoint { tick, micros_per_beat }]);
                },
                _ => {},
            }
            assert(found@ + (track_tempos(evs.subrange(j + 1, evs.len() as int), tick) + after)
                =~= old_found + (track_tempos(r, old_tick) + after)) by {
                assert(track_tempos(r, old_tick) == (match e.kind {
                    EventKind::Tempo { micros_per_beat } => seq![Breakpoint { tick, micros_per_beat }],
                    _ => Seq::<Breakpoint>::empty(),
                }) + track_tempos(evs.subrange(j + 1, evs.len() as int), tick));
            }
            j = j + 1;
        }
        assert(evs.subrange(j as int, evs.len() as int) =~= Seq::<TrackItem>::empty());
        assert(found@ + after =~= found@ + (Seq::<Breakpoint>::empty() + after));
        i = i + 1;
    }
    assert(tv.subrange(i as int, tv.len() as int) =~= Seq::<Seq<TrackItem>>::empty());
    assert(found@ =~= whole);
    stable_sort(&found)
}

/// Summary of a decoded file.
#[derive(Debug, Clone, Copy, PartialEq, Eq, Structural)]
pub struct MidiInfo {
    pub track_count: usize,
    pub duration_ms: u64,
    pub note_count: usize,
    pub min_note: u8,
    pub max_note: u8,
}

/// A sounded note: start and length in milliseconds, pitch and velocity.
#[derive(Debug, Clone, Copy, PartialEq, Eq, Structural)]
pub struct NoteEvent {
    pub start_ms: u64,
    pub duration_ms: u64,
    pub note: u8,
    pub velocity: u8,
}

impl Keyed for NoteEvent {
    open spec fn key_spec(&self) -> int {
        self.start_ms as int
    }

    fn key(&self) -> (r: u64) {
        self.start_ms
    }
}

/// A decoded file: its summary and its notes in order of start.
#[derive(Debug)]
pub struct MidiFile {
    pub info: MidiInfo,
    pub events: Vec<NoteEvent>,
}

impl MidiFile {
    /// The file's summary.
    pub fn info(&self) -> (r: MidiInfo)
        ensures
            r == self.info,
    {
        self.info
    }
}

/// A note that has started and not yet ended.
#[derive(Debug, Clone, Copy, PartialEq, Eq, Structural)]
pub struct Pending {
    pub note: u8,
    pub start_ms: u64,
    pub velocity: u8,
}

/// Milliseconds from `start` to `end`, none if `end` comes first.
pub open spec fn ms_between(start: u64, end: u64) -> u64 {
    if end >= start {
        (end - start) as u64
    } else {
        0
    }
}

/// The note event that closes `p` at `end_ms`.
pub open spec fn closed_at(p: Pending, end_ms: u64) -> NoteEvent {
    NoteEvent {
        start_ms: p.start_ms,
        duration_ms: ms_between(p.start_ms, end_ms),
        note: p.note,
        velocity: p.velocity,
    }
}

/// Position of the first pending note of pitch `note` from position `i` on,
/// or -1.
pub open spec fn first_pending(p: Seq<Pending>, note: u8, i: int) -> int
    decreases p.len() - i,
{
    if i < 0 || i >= p.len() {
        -1
    } else if p[i].note == note {
        i
    } else {
        first_pending(p, note, i + 1)
    }
}

/// Close the earliest pending note of pitch `note` at `end_ms`, if there is one.
pub open spec fn close_note(pending: Seq<Pending>, events: Seq<NoteEvent>, note: u8, end_ms: u64) -> (
    Seq<Pending>,
    Seq<NoteEvent>,
) {
    let k = first_pending(pending, note, 0);
    if k < 0 {
        (pending, events)
    } else {
        (pending.remove(k), events.push(closed_at(pending[k], end_ms)))
    }
}

/// Walk a track's events from tick `tick`: a note-on with positive velocity
/// opens a note, a note-off or a note-on with velocity 0 closes one.
pub open spec fn run_track(
    evs: Seq<TrackItem>,
    pending: Seq<Pending>,
    events: Seq<NoteEvent>,
    tick: u32,
    map: Seq<Breakpoint>,
    tpb: int,
) -> (Seq<Pending>, Seq<NoteEvent>, u32)
    decreases evs.len(),
{
    if evs.len() == 0 {
        (pending, events, tick)
    } else {
        let t = tick.saturating_add(evs[0].delta);
        let ms = ms_at(map, tpb, t as int) as u64;
        let (p, e) = match evs[0].kind {
            EventKind::NoteOn { key, vel } => if vel > 0 {
                (pending.push(Pending { note: key, start_ms: ms, velocity: vel }), events)
            } else {
                close_note(pending, events, key, ms)
            },
            EventKind::NoteOff { key } => close_note(pending, events, key, ms),
            _ => (pending, events),
        };
        run_track(evs.drop_first(), p, e, t, map, tpb)
    }
}

/// Close every pending note at `end_ms`, earliest first.
pub open spec fn flush(pending: Seq<Pending>, events: Seq<NoteEvent>, end_ms: u64) -> Seq<NoteEvent>
    decreases pending.len(),
{
    if pending.len() == 0 {
        events
    } else {
        flush(pending.drop_first(), events.push(closed_at(pending[0], end_ms)), end_ms)
    }
}

/// Note events of the tracks, track by track, after `events`.
pub open spec fn decode_tracks(
    tracks: Seq<Seq<TrackItem>>,
    events: Seq<NoteEvent>,
    map: Seq<Breakpoint>,
    tpb: int,
) -> Seq<NoteEvent>
    decreases tracks.len(),
{
    if tracks.len() == 0 {
        events
    } else {
        let (p, e, t) = run_track(tracks[0], Seq::empty(), events, 0, map, tpb);
        decode_tracks(tracks.drop_first(), flush(p, e, ms_at(map, tpb, t as int) as u64), map, tpb)
    }
}

/// The note events of a file, in order of start time, input order among
/// equal starts.
pub open spec fn decoded_events(timing: TimeBase, tracks: Seq<Seq<TrackItem>>) -> Seq<NoteEvent> {
    stable_sorted(
        decode_tracks(tracks, Seq::empty(), tempo_map_of(tracks), ticks_per_beat_of(timing)),
    )
}

/// When a note event ends, capped at the largest `u64`.
pub open spec fn end_of(e: NoteEvent) -> u64 {
    e.start_ms.saturating_add(e.duration_ms)
}

/// Latest end of the events, 0 for none.
pub open spec fn latest_end(s: Seq<NoteEvent>) -> u64
    decreases s.len(),
{
    if s.len() == 0 {
        0
    } else {
        let m = latest_end(s.drop_last());
        if end_of(s.last()) > m {
            end_of(s.last())
        } else {
            m
        }
    }
}

/// Lowest pitch of the events, 0 for none.
pub open spec fn lowest_note(s: Seq<NoteEvent>) -> u8
    decreases s.len(),
{
    if s.len() == 0 {
        0
    } else if s.len() == 1 {
        s[0].note
    } else {
        let m = lowest_note(s.drop_last());
        if s.last().note < m {
            s.last().note
        } else {
            m
        }
    }
}

/// Highest pitch of the events, 127 for none.
pub open spec fn highest_note(s: Seq<NoteEvent>) -> u8
    decreases s.len(),
{
    if s.len() == 0 {
        127
    } else if s.len() == 1 {
        s[0].note
    } else {
        let m = highest_note(s.drop_last());
        if s.last().note > m {
            s.last().note
        } else {
            m
        }
    }
}

/// The summary of a file with `track_count` tracks and these events.
pub open spec fn summary_of(track_count: int, s: Seq<NoteEvent>) -> MidiInfo {
    MidiInfo {
        track_count: track_count as usize,
        duration_ms: latest_end(s),
        note_count: s.len() as usize,
        min_note: lowest_note(s),
        max_note: highest_note(s),
    }
}

/// Compute the summary of a file's events.
pub fn summarize(track_count: usize, events: &Vec<NoteEvent>) -> (r: MidiInfo)
    ensures
        r == summary_of(track_count as int, events@),
{
    let mut dur: u64 = 0;
    let mut lo: u8 = 0;
    let mut hi: u8 = 127;
    let mut i: usize = 0;
    while i < events.len()
        invariant
            0 <= i <= events@.len(),
            dur == latest_end(events@.subrange(0, i as int)),
            lo == lowest_note(events@.subrange(0, i as int)),
            hi == highest_note(events@.subrange(0, i as int)),
        decreases events@.len() - i,
    {
        let e = events[i];
        let ghost pre = events@.subrange(0, i + 1);
        assert(pre.drop_last() =~= events@.subrange(0, i as int));
        assert(pre.last() == e);
        let end = e.start_ms.saturating_add(e.duration_ms);
        if end > dur {
            dur = end;
        }
        if i == 0 {
            lo = e.note;
            hi = e.note;
        } else {
            if e.note < lo {
                lo = e.note;
            }
            if e.note > hi {
                hi = e.note;
            }
        }
        i = i + 1;
    }
    assert(events@.subrange(0, i as int) =~= events@);
    MidiInfo { track_count, duration_ms: dur, note_count: events.len(), min_note: lo, max_note: hi }
}

/// The decoded file of a container.
pub open spec fn decoded_file_ok(f: MidiFile, timing: TimeBase, tracks: Seq<Seq<TrackItem>>) -> bool {
    &&& f.events@ == decoded_events(timing, tracks)
    &&& f.info == summary_of(tracks.len() as int, f.events@)
}

/// Close the earliest pending note of pitch `note` at `end_ms`, if any.
pub fn finish_note(pending: &mut Vec<Pending>, events: &mut Vec<NoteEvent>, note: u8, end_ms: u64)
    ensures
        (final(pending)@, final(events)@) == close_note(old(pending)@, old(events)@, note, end_ms),
{
    let mut k: usize = 0;
    while k < pending.len()
        invariant
            0 <= k <= pending@.len(),
            pending@ == old(pending)@,
            events@ == old(events)@,
            first_pending(pending@, note, 0) == first_pending(pending@, note, k as int),
        decreases pending@.len() - k,
    {
        if pending[k].note == note {
            let p = pending.remove(k);
            let dur: u64 = if end_ms >= p.start_ms { end_ms - p.start_ms } else { 0 };
            events.push(NoteEvent { start_ms: p.start_ms, duration_ms: dur, note: p.note, velocity: p.velocity });
            return;
        }
        k = k + 1;
    }
}

/// Decode a parsed container: pair note-ons with note-offs in every track,
/// close what is left at the track's end, sort by start and summarize.
pub fn decode_container(c: &Container) -> (r: MidiFile)
    ensures
        decoded_file_ok(r, c.timing, c.tracks_view()),
        sorted_by_key(r.events@),
{
    let ghost tv = c.tracks_view();
    let tpb = ticks_per_beat(&c.timing);
    let map = build_tempo_map(c);
    let ghost m = map@;
    let mut events: Vec<NoteEvent> = Vec::new();
    let mut i: usize = 0;
    assert(tv.subrange(0, tv.len() as int) =~= tv);
    while i < c.tracks.len()
        invariant
            0 <= i <= tv.len(),
            tv == c.tracks_view(),
            tv.len() == c.tracks@.len(),
            m == map@,
            m == tempo_map_of(tv),
            sorted_by_key(m),
            tpb > 0,
            tpb == ticks_per_beat_of(c.timing),
            decode_tracks(tv.subrange(i as int, tv.len() as int), events@, m, tpb as int)
                == decode_tracks(tv, Seq::empty(), m, tpb as int),
        decreases tv.len() - i,
    {
        let track = &c.tracks[i];
        let ghost evs = track@;
        assert(evs == tv[i as int]);
        let ghost rest = tv.subrange(i as int, tv.len() as int);
        assert(rest[0] == evs);
        assert(rest.drop_first() =~= tv.subrange(i + 1, tv.len() as int));
        let ghost target = run_track(evs, Seq::empty(), events@, 0, m, tpb as int);
        let mut pending: Vec<Pending> = Vec::new();
        let mut tick: u32 = 0;
        let mut j: usize = 0;
        assert(evs.subrange(0, evs.len() as int) =~= evs);
        while j < track.len()
            invariant
                0 <= j <= evs.len(),
                evs == track@,
                m == map@,
                sorted_by_key(m),
                tpb > 0,
                run_track(evs.subrange(j as int, evs.len() as int), pending@, events@, tick, m, tpb as int)
                    == target,
            decreases evs.len() - j,
        {
            let e = track[j];
            let ghost r = evs.subrange(j as int, evs.len() as int);
            assert(r[0] == e);
            assert(r.drop_first() =~= evs.subrange(j + 1, evs.len() as int));
            tick = tick.saturating_add(e.delta);
            let ms = ticks_to_ms(tick, tpb, map.as_slice());
            match e.kind {
                EventKind::NoteOn { key, vel } => {
                    if vel > 0 {
                        pending.push(Pending { note: key, start_ms: ms, velocity: vel });
                    } else {
                        finish_note(&mut pending, &mut events, key, ms);
                    }
                },
                EventKind::NoteOff { key } => {
                    finish_note(&mut pending, &mut events, key, ms);
                },
                _ => {},
            }
            j = j + 1;
        }
        assert(evs.subrange(j as int, evs.len() as int) =~= Seq::<TrackItem>::empty());
        let end_ms = ticks_to_ms(tick, tpb, map.as_slice());
        let ghost flushed = flush(pending@, events@, end_ms);
        let mut k: usize = 0;
        assert(pending@.subrange(0, pending@.len() as int) =~= pending@);
        while k < pending.len()
            invariant
                0 <= k <= pending@.len(),
                flush(pending@.subrange(k as int, pending@.len() as int), events@, end_ms) == flushed,
            decreases pending@.len() - k,
        {
            let p = pending[k];
            let ghost pr = pending@.subrange(k as int, pending@.len() as int);
            assert(pr[0] == p);
            assert(pr.drop_first() =~= pending@.subrange(k + 1, pending@.len() as int));
            let dur: u64 = if end_ms >= p.start_ms { end_ms - p.start_ms } else { 0 };
            events.push(NoteEvent { start_ms: p.start_ms, duration_ms: dur, note: p.note, velocity: p.velocity });
            k = k + 1;
        }
        assert(pending@.subrange(k as int, pending@.len() as int) =~= Seq::<Pending>::empty());
        i = i + 1;
    }
    assert(tv.subrange(i as int, tv.len() as int) =~= Seq::<Seq<TrackItem>>::empty());
    let sorted = stable_sort(&events);
    let info = summarize(c.tracks.len(), &sorted);
    MidiFile { info, events: sorted }
}

proof fn lemma_run_without_notes(
    evs: Seq<TrackItem>,
    pending: Seq<Pending>,
    events: Seq<NoteEvent>,
    tick: u32,
    map: Seq<Breakpoint>,
    tpb: int,
)
    requires
        forall|i: int| 0 <= i < evs.len() ==> (#[trigger] evs[i]).kind is Tempo || evs[i].kind is Other,
    ensures
        run_track(evs, pending, events, tick, map, tpb).0 == pending,
        run_track(evs, pending, events, tick, map, tpb).1 == events,
    decreases evs.len(),
{
    if evs.len() > 0 {
        assert(evs[0].kind is Tempo || evs[0].kind is Other);
        let rest = evs.drop_first();
        assert forall|i: int| 0 <= i < rest.len() implies (#[trigger] rest[i]).kind is Tempo || rest[i].kind is Other by {
            assert(rest[i] == evs[i + 1]);
        }
        lemma_run_without_notes(rest, pending, events, tick.saturating_add(evs[0].delta), map, tpb);
    }
}

/// A file whose first track holds only tempo changes (and events that are
/// not notes) and whose second track holds one note-on after `a` ticks and
/// its note-off `b` ticks later decodes to exactly one note event: it starts
/// at the milliseconds of tick `a` under the file's tempo map and lasts until
/// those of tick `a + b`.
pub proof fn lemma_single_note_round_trip(
    conductor: Seq<TrackItem>,
    tpb: u16,
    key: u8,
    vel: u8,
    a: u32,
    b: u32,
)
    requires
        tpb > 0,
        vel > 0,
        a + b <= u32::MAX,
        forall|i: int| 0 <= i < conductor.len() ==> (#[trigger] conductor[i]).kind is Tempo || conductor[i].kind is Other,
    ensures
        ({
            let on = TrackItem { delta: a, kind: EventKind::NoteOn { key, vel } };
            let off = TrackItem { delta: b, kind: EventKind::NoteOff { key } };
            let tracks = seq![conductor, seq![on, off]];
            let map = tempo_map_of(tracks);
            let start = ms_at(map, tpb as int, a as int);
            let end = ms_at(map, tpb as int, a + b);
            &&& 0 <= start <= end <= u64::MAX
            &&& decoded_events(TimeBase::Metrical(tpb), tracks) == seq![
                NoteEvent { start_ms: start as u64, duration_ms: (end - start) as u64, note: key, velocity: vel },
            ]
        }),
{
    let on = TrackItem { delta: a, kind: EventKind::NoteOn { key, vel } };
    let off = TrackItem { delta: b, kind: EventKind::NoteOff { key } };
    let evs = seq![on, off];
    let tracks = seq![conductor, evs];
    let d = Breakpoint { tick: 0, micros_per_beat: DEFAULT_TEMPO };
    let map = tempo_map_of(tracks);
    crate::sort::lemma_stable_sorted(seq![d] + all_tempos(tracks));
    let tpbi = tpb as int;
    assert(ticks_per_beat_of(TimeBase::Metrical(tpb)) == tpbi);
    lemma_ms_fits(map, tpbi, a as int);
    lemma_ms_fits(map, tpbi, a + b);
    lemma_ms_monotonic(map, tpbi, a as int, a + b);
    let start = ms_at(map, tpbi, a as int);
    let end = ms_at(map, tpbi, a + b);
    lemma_run_without_notes(conductor, Seq::empty(), Seq::empty(), 0, map, tpbi);
    let (p0, e0, t0) = run_track(conductor, Seq::empty(), Seq::empty(), 0, map, tpbi);
    assert(flush(p0, e0, ms_at(map, tpbi, t0 as int) as u64) == Seq::<NoteEvent>::empty());
    let p = Pending { note: key, start_ms: start as u64, velocity: vel };
    let ev = closed_at(p, end as u64);
    assert(first_pending(seq![p], key, 0) == 0);
    assert(seq![p].remove(0) =~= Seq::<Pending>::empty());
    assert(Seq::<NoteEvent>::empty().push(ev) =~= seq![ev]);
    assert(evs.drop_first().drop_first() =~= Seq::<TrackItem>::empty());
    assert(evs.drop_first()[0] == off);
    assert(evs[0] == on);
    assert(0u32.saturating_add(a) == a);
    assert(a.saturating_add(b) == (a + b) as u32);
    assert(Seq::<Pending>::empty().push(p) =~= seq![p]);
    assert(close_note(seq![p], Seq::empty(), key, end as u64) == (Seq::<Pending>::empty(), seq![ev]));
    assert(run_track(evs.drop_first().drop_first(), Seq::empty(), seq![ev], (a + b) as u32, map, tpbi) == (
        Seq::<Pending>::empty(),
        seq![ev],
        (a + b) as u32,
    ));
    assert(run_track(evs.drop_first(), seq![p], Seq::empty(), a, map, tpbi) == (
        Seq::<Pending>::empty(),
        seq![ev],
        (a + b) as u32,
    ));
    assert(run_track(evs, Seq::empty(), Seq::empty(), 0, map, tpbi) == (
        Seq::<Pending>::empty(),
        seq![ev],
        (a + b) as u32,
    ));
    assert(flush(Seq::<Pending>::empty(), seq![ev], end as u64) == seq![ev]);
    assert(tracks.drop_first() =~= seq![evs]);
    assert(seq![evs].drop_first() =~= Seq::<Seq<TrackItem>>::empty());
    assert(decode_tracks(seq![evs].drop_first(), seq![ev], map, tpbi) == seq![ev]);
    assert(decode_tracks(tracks.drop_first(), Seq::empty(), map, tpbi) == seq![ev]);
    assert(decode_tracks(tracks, Seq::empty(), map, tpbi) == seq![ev]);
    assert(crate::sort::insert_pos(Seq::<NoteEvent>::empty(), ev.key_spec()) == 0);
    assert(Seq::<NoteEvent>::empty().insert(0, ev) =~= seq![ev]);
    assert(seq![ev].drop_first() =~= Seq::<NoteEvent>::empty());
    assert(crate::sort::sort_into(seq![ev], seq![ev].drop_first()) == seq![ev]);
    assert(stable_sorted(seq![ev]) == seq![ev]);
}

/// Decode a standard MIDI file from its bytes; fails on a header whose frame
/// rate cannot be read, and otherwise exactly when midly rejects them.
pub fn parse_midi(bytes: &[u8]) -> (r: Result<MidiFile, DecodeError>)
    ensures
        has_unreadable_header(bytes@) ==> r == Err::<MidiFile, DecodeError>(DecodeError::Malformed),
        !has_unreadable_header(bytes@) ==> match smf_contents(bytes@) {
            None => r is Err,
            Some((timing, tracks)) => r matches Ok(f) && decoded_file_ok(f, timing, tracks),
        },
{
    if unreadable_header(bytes) {
        return Err(DecodeError::Malformed);
    }
    let c = parse_container(bytes)?;
    Ok(decode_container(&c))
}

} // verus!
