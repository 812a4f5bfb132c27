use vstd::prelude::*;
use crate::config::AppConfig;
use crate::keyboard::Modifier;
use crate::mapper::{
    has_key, instrument_note_of, midi_to_instrument, modifier_of, note_to_keystroke, row_of,
};
use crate::midi::{MidiFile, NoteEvent};
use crate::polyphony::{CHORD_TOLERANCE_MS, limit_polyphony, limited};
use crate::sort::{Keyed, stable_sort, stable_sorted};

verus! {

/// Shortest time a key is held, in milliseconds, so that the host registers it.
pub const MIN_HOLD_MS: u64 = 30;

/// A key press or release at a time of the timeline.
#[derive(Debug, Clone)]
pub struct ScheduledEvent {
    pub time_ms: u64,
    pub key: String,
    pub modifier: Modifier,
    pub is_key_down: bool,
}

/// What a scheduled event means: time, key, modifier and direction.
pub open spec fn entry_view(e: ScheduledEvent) -> (u64, Seq<char>, Modifier, bool) {
    (e.time_ms, e.key@, e.modifier, e.is_key_down)
}

/// The key and modifier for a pitch under the configuration, if it can be played.
pub open spec fn stroke_of(pitch: u8, config: AppConfig) -> Option<(Seq<char>, Modifier)> {
    match instrument_note_of(
        pitch as int,
        config.transpose as int,
        config.reference_midi_note as int,
    ) {
        Some(n) => if has_key(n, config) {
            Some((row_of(config, n.octave)[n.degree - 1]@, modifier_of(n.accidental)))
        } else {
            None
        },
        None => None,
    }
}

/// The notes that map to a key, each with its key and modifier, in order.
pub open spec fn mapped(s: Seq<NoteEvent>, config: AppConfig) -> Seq<(NoteEvent, Seq<char>, Modifier)>
    decreases s.len(),
{
    if s.len() == 0 {
        Seq::empty()
    } else {
        let rest = mapped(s.drop_last(), config);
        match stroke_of(s.last().note, config) {
            Some((k, m)) => rest.push((s.last(), k, m)),
            None => rest,
        }
    }
}

/// A press or release of the mapped note at position `index`.
#[derive(Debug, Clone, Copy, PartialEq, Eq, Structural)]
pub struct Slot {
    pub time_ms: u64,
    pub index: usize,
    pub is_key_down: bool,
}

impl Keyed for Slot {
    open spec fn key_spec(&self) -> int {
        self.time_ms as int
    }

    fn key(&self) -> (r: u64) {
        self.time_ms
    }
}

/// When the key of a note is released: its end, held at least `MIN_HOLD_MS`.
pub open spec fn release_time(e: NoteEvent) -> u64 {
    e.start_ms.saturating_add(if e.duration_ms > MIN_HOLD_MS { e.duration_ms } else { MIN_HOLD_MS })
}

/// A press and a release for each of the first `n` mapped notes, in order.
pub open spec fn slots_of(m: Seq<(NoteEvent, Seq<char>, Modifier)>, n: int) -> Seq<Slot>
    decreases n,
{
    if n <= 0 {
        Seq::empty()
    } else {
        slots_of(m, n - 1).push(press_slot(m, n - 1)).push(release_slot(m, n - 1))
    }
}

/// The timeline of a file's notes under a configuration: polyphony limited,
/// mapped to keys, a press and a release each, sorted by time.
pub open spec fn timeline_of(events: Seq<NoteEvent>, config: AppConfig) -> Seq<(u64, Seq<char>, Modifier, bool)> {
    let m = mapped(limited(events, config.max_polyphony as int, CHORD_TOLERANCE_MS as int), config);
    let slots = stable_sorted(slots_of(m, m.len() as int));
    slots.map_values(|s: Slot| (s.time_ms, m[s.index as int].1, m[s.index as int].2, s.is_key_down))
}

proof fn lemma_slots_of(m: Seq<(NoteEvent, Seq<char>, Modifier)>, n: int)
    requires
        0 <= n <= m.len(),
    ensures
        slots_of(m, n).len() == 2 * n,
        forall|i: int| 0 <= i < slots_of(m, n).len() ==> #[trigger] slots_of(m, n)[i].index < n,
    decreases n,
{
    if n > 0 {
        lemma_slots_of(m, n - 1);
        let p = slots_of(m, n - 1);
        assert forall|i: int| 0 <= i < slots_of(m, n).len() implies #[trigger] slots_of(m, n)[i].index < n by {
            if i < p.len() {
                assert(slots_of(m, n)[i] == p[i]);
            }
        }
    }
}

proof fn lemma_slots_prefix(
    m1: Seq<(NoteEvent, Seq<char>, Modifier)>,
    m2: Seq<(NoteEvent, Seq<char>, Modifier)>,
    n: int,
)
    requires
        0 <= n <= m1.len(),
        n <= m2.len(),
        forall|q: int| 0 <= q < n ==> m1[q] == m2[q],
    ensures
        slots_of(m1, n) == slots_of(m2, n),
    decreases n,
{
    if n > 0 {
        lemma_slots_prefix(m1, m2, n - 1);
    }
}

/// The press of the mapped note at position `k`.
pub open spec fn press_slot(m: Seq<(NoteEvent, Seq<char>, Modifier)>, k: int) -> Slot {
    Slot { time_ms: m[k].0.start_ms, index: k as usize, is_key_down: true }
}

/// The release of the mapped note at position `k`.
pub open spec fn release_slot(m: Seq<(NoteEvent, Seq<char>, Modifier)>, k: int) -> Slot {
    Slot { time_ms: release_time(m[k].0), index: k as usize, is_key_down: false }
}

proof fn lemma_slots_count(m: Seq<(NoteEvent, Seq<char>, Modifier)>, n: int, k: int)
    requires
        0 <= n <= m.len(),
        m.len() <= usize::MAX,
        0 <= k < m.len(),
    ensures
        slots_of(m, n).to_multiset().count(press_slot(m, k)) == if k < n { 1nat } else { 0nat },
        slots_of(m, n).to_multiset().count(release_slot(m, k)) == if k < n { 1nat } else { 0nat },
    decreases n,
{
    broadcast use vstd::seq_lib::group_to_multiset_ensures, vstd::multiset::group_multiset_axioms;

    if n > 0 {
        lemma_slots_count(m, n - 1, k);
        let p = slots_of(m, n - 1);
        vstd::seq_lib::to_multiset_build(p, press_slot(m, n - 1));
        vstd::seq_lib::to_multiset_build(p.push(press_slot(m, n - 1)), release_slot(m, n - 1));
    }
}

/// The timeline holds exactly one press and one release for each note that
/// survives polyphony limiting and maps to a key: the sorted slots are the
/// slots of the mapped notes, each note's two once.
pub proof fn lemma_timeline_pairs(events: Seq<NoteEvent>, config: AppConfig, k: int)
    requires
        ({
            let m = mapped(limited(events, config.max_polyphony as int, CHORD_TOLERANCE_MS as int), config);
            0 <= k < m.len() <= usize::MAX
        }),
    ensures
        ({
            let m = mapped(limited(events, config.max_polyphony as int, CHORD_TOLERANCE_MS as int), config);
            let sorted = stable_sorted(slots_of(m, m.len() as int));
            &&& sorted.to_multiset() == slots_of(m, m.len() as int).to_multiset()
            &&& sorted.to_multiset().count(press_slot(m, k)) == 1
            &&& sorted.to_multiset().count(release_slot(m, k)) == 1
        }),
{
    let m = mapped(limited(events, config.max_polyphony as int, CHORD_TOLERANCE_MS as int), config);
    crate::sort::lemma_stable_sorted_permutes(slots_of(m, m.len() as int));
    lemma_slots_count(m, m.len() as int, k);
}

/// Build the timeline of key presses and releases for a file.
pub fn build_timeline(midi: &MidiFile, config: &AppConfig) -> (r: Vec<ScheduledEvent>)
    ensures
        r@.map_values(|e: ScheduledEvent| entry_view(e)) == timeline_of(midi.events@, *config),
        forall|i: int, j: int| 0 <= i <= j < r@.len() ==> r@[i].time_ms <= r@[j].time_ms,
{
    let mut events: Vec<NoteEvent> = Vec::new();
    let mut i: usize = 0;
    while i < midi.events.len()
        invariant
            i <= midi.events@.len(),
            events@ == midi.events@.subrange(0, i as int),
        decreases midi.events@.len() - i,
    {
        events.push(midi.events[i]);
        i = i + 1;
        assert(events@ =~= midi.events@.subrange(0, i as int));
    }
    assert(events@ =~= midi.events@);
    limit_polyphony(&mut events, config.max_polyphony as usize, CHORD_TOLERANCE_MS);
    let ghost lim = events@;
    let mut notes: Vec<NoteEvent> = Vec::new();
    let mut keys: Vec<String> = Vec::new();
    let mut mods: Vec<Modifier> = Vec::new();
    let mut slots: Vec<Slot> = Vec::new();
    let mut j: usize = 0;
    while j < events.len()
        invariant
            j <= lim.len(),
            events@ == lim,
            notes@.len() == keys@.len(),
            notes@.len() == mods@.len(),
            notes@.len() == mapped(lim.subrange(0, j as int), *config).len(),
            forall|k: int|
                0 <= k < notes@.len() ==> (#[trigger] notes@[k], keys@[k]@, mods@[k]) == mapped(
                    lim.subrange(0, j as int),
                    *config,
                )[k],
            slots@ == slots_of(mapped(lim.subrange(0, j as int), *config), notes@.len() as int),
        decreases lim.len() - j,
    {
        let e = events[j];
        let ghost pre = lim.subrange(0, j + 1);
        assert(pre.drop_last() =~= lim.subrange(0, j as int));
        assert(pre.last() == e);
        let ghost old_m = mapped(lim.subrange(0, j as int), *config);
        if let Some(n) = midi_to_instrument(e.note, config) {
            if let Some(k) = note_to_keystroke(&n, config) {
                let idx = notes.len();
                let hold = if e.duration_ms > MIN_HOLD_MS { e.duration_ms } else { MIN_HOLD_MS };
                slots.push(Slot { time_ms: e.start_ms, index: idx, is_key_down: true });
                slots.push(Slot { time_ms: e.start_ms.saturating_add(hold), index: idx, is_key_down: false });
                notes.push(e);
                keys.push(k.key);
                mods.push(k.modifier);
                proof {
                    let new_m = mapped(pre, *config);
                    assert(new_m == old_m.push((e, keys@[idx as int]@, k.modifier)));
                    assert forall|q: int| 0 <= q < idx implies new_m[q] == old_m[q] by {}
                    assert(slots_of(old_m, idx as int) == slots_of(new_m, idx as int)) by {
                        lemma_slots_prefix(old_m, new_m, idx as int);
                    }
                }
            }
        }
        j = j + 1;
    }
    assert(lim.subrange(0, j as int) =~= lim);
    let ghost m = mapped(lim, *config);
    let sorted = stable_sort(&slots);
    proof {
        lemma_slots_of(m, m.len() as int);
        let n = m.len();
        crate::sort::lemma_stable_sorted_keeps(
            slots_of(m, n as int),
            |x: Slot| x.index < n,
        );
    }
    let mut out: Vec<ScheduledEvent> = Vec::new();
    let mut q: usize = 0;
    while q < sorted.len()
        invariant
            q <= sorted@.len(),
            sorted@ == stable_sorted(slots_of(m, m.len() as int)),
            notes@.len() == m.len(),
            keys@.len() == m.len(),
            mods@.len() == m.len(),
            forall|k: int| 0 <= k < m.len() ==> (#[trigger] notes@[k], keys@[k]@, mods@[k]) == m[k],
            forall|k: int| 0 <= k < sorted@.len() ==> #[trigger] sorted@[k].index < m.len(),
            out@.len() == q,
            forall|k: int|
                0 <= k < q ==> entry_view(#[trigger] out@[k]) == (
                    sorted@[k].time_ms,
                    m[sorted@[k].index as int].1,
                    m[sorted@[k].index as int].2,
                    sorted@[k].is_key_down,
                ),
        decreases sorted@.len() - q,
    {
        let s = sorted[q];
        let ghost kk = s.index as int;
        assert(sorted@[q as int].index < m.len());
        assert((notes@[kk], keys@[kk]@, mods@[kk]) == m[kk]);
        out.push(ScheduledEvent {
            time_ms: s.time_ms,
            key: keys[s.index].clone(),
            modifier: mods[s.index],
            is_key_down: s.is_key_down,
        });
        q = q + 1;
    }
    assert(out@.map_values(|e: ScheduledEvent| entry_view(e)) =~= timeline_of(midi.events@, *config));
    assert forall|a: int, b: int| 0 <= a <= b < out@.len() implies out@[a].time_ms <= out@[b].time_ms by {
        assert(entry_view(out@[a]).0 == sorted@[a].time_ms);
        assert(entry_view(out@[b]).0 == sorted@[b].time_ms);
        assert(sorted@[a].key_spec() <= sorted@[b].key_spec());
    }
    out
}

/// What the caller must do on the input side after an engine call.
#[derive(Debug, Clone, Copy, PartialEq, Eq, Structural)]
pub enum Command {
    Nothing,
    ReleaseAll,
}

/// Result of one poll of the worker: dispatch the timeline entries from
/// `from` up to `to`, and end the worker (after releasing all keys) when
/// `finished`.
#[derive(Debug, Clone, Copy, PartialEq, Eq, Structural)]
pub struct Step {
    pub from: usize,
    pub to: usize,
    pub finished: bool,
}

/// The state of playback: the two flags, the number of the current session,
/// its timeline and the position of the next entry to dispatch.
pub struct EngineState {
    pub playing: bool,
    pub paused: bool,
    pub session: u64,
    pub timeline: Seq<(u64, Seq<char>, Modifier, bool)>,
    pub cursor: int,
}

/// Playback control: start, pause and stop, and the decisions of the worker
/// that plays a session against the clock.
#[derive(Debug)]
pub struct PlaybackEngine {
    playing: bool,
    paused: bool,
    session: u64,
    timeline: Vec<ScheduledEvent>,
    cursor: usize,
}

impl View for PlaybackEngine {
    type V = EngineState;

    closed spec fn view(&self) -> EngineState {
        EngineState {
            playing: self.playing,
            paused: self.paused,
            session: self.session,
            timeline: self.timeline@.map_values(|e: ScheduledEvent| entry_view(e)),
            cursor: self.cursor as int,
        }
    }
}

/// The state after `stop`: not playing, not paused, no session timeline.
pub open spec fn stopped(v: EngineState) -> EngineState {
    EngineState { playing: false, paused: false, session: v.session, timeline: Seq::empty(), cursor: 0 }
}

/// The state after `pause`: the paused flag toggles while playing.
pub open spec fn toggled(v: EngineState) -> EngineState {
    if v.playing {
        EngineState { paused: !v.paused, ..v }
    } else {
        v
    }
}

/// The number of the session after `s`.
pub open spec fn next_session(s: u64) -> u64 {
    if s == u64::MAX {
        0
    } else {
        (s + 1) as u64
    }
}

/// The state after `start` with a timeline: stopped if it is empty, else a
/// new session playing it from its first entry.
pub open spec fn started(v: EngineState, tl: Seq<(u64, Seq<char>, Modifier, bool)>) -> EngineState {
    if tl.len() == 0 {
        stopped(v)
    } else {
        EngineState { playing: true, paused: false, session: next_session(v.session), timeline: tl, cursor: 0 }
    }
}

/// The first position from `c` on whose entry lies after `elapsed`.
pub open spec fn advance(tl: Seq<(u64, Seq<char>, Modifier, bool)>, c: int, elapsed: int) -> int
    decreases tl.len() - c,
{
    if c < 0 || c >= tl.len() || tl[c].0 > elapsed {
        c
    } else {
        advance(tl, c + 1, elapsed)
    }
}

/// One poll of the worker of session `session` at scaled elapsed time
/// `elapsed`: a stale or stopped session ends; a paused one waits; else every
/// entry due by then is dispatched, and the session ends after the last.
pub open spec fn polled(v: EngineState, session: u64, elapsed: int) -> (EngineState, Step) {
    if session != v.session || !v.playing {
        (v, Step { from: v.cursor as usize, to: v.cursor as usize, finished: true })
    } else if v.paused {
        (v, Step { from: v.cursor as usize, to: v.cursor as usize, finished: false })
    } else {
        let to = advance(v.timeline, v.cursor, elapsed);
        let done = to >= v.timeline.len();
        (
            EngineState { playing: !done, cursor: to, ..v },
            Step { from: v.cursor as usize, to: to as usize, finished: done },
        )
    }
}

impl PlaybackEngine {
    pub closed spec fn wf(&self) -> bool {
        self.cursor <= self.timeline@.len()
    }

    /// An idle engine.
    pub fn new() -> (r: Self)
        ensures
            r.wf(),
            r@ == (EngineState { playing: false, paused: false, session: 0, timeline: Seq::empty(), cursor: 0 }),
    {
        let r = PlaybackEngine { playing: false, paused: false, session: 0, timeline: Vec::new(), cursor: 0 };
        assert(r@.timeline =~= Seq::empty());
        r
    }

    /// Stop playback: clear both flags and drop the session; all keys are to
    /// be released.
    pub fn stop(&mut self) -> (r: Command)
        ensures
            final(self).wf(),
            final(self)@ == stopped(old(self)@),
            r == Command::ReleaseAll,
    {
        self.playing = false;
        self.paused = false;
        self.timeline = Vec::new();
        self.cursor = 0;
        assert(self@.timeline =~= Seq::empty());
        Command::ReleaseAll
    }

    /// Toggle pause while playing; entering pause releases all keys.
    pub fn pause(&mut self) -> (r: Command)
        requires
            old(self).wf(),
        ensures
            final(self).wf(),
            final(self)@ == toggled(old(self)@),
            r == (if old(self)@.playing && !old(self)@.paused {
                Command::ReleaseAll
            } else {
                Command::Nothing
            }),
    {
        if self.playing {
            let was_paused = self.paused;
            self.paused = !was_paused;
            if !was_paused {
                return Command::ReleaseAll;
            }
        }
        Command::Nothing
    }

    /// Stop whatever plays, then start a new session on the file's timeline
    /// unless it is empty. The stop's release of all keys is returned.
    pub fn start(&mut self, midi: &MidiFile, config: &AppConfig) -> (r: Command)
        ensures
            final(self).wf(),
            final(self)@ == started(old(self)@, timeline_of(midi.events@, *config)),
            r == Command::ReleaseAll,
    {
        let r = self.stop();
        let timeline = build_timeline(midi, config);
        if timeline.len() == 0 {
            return r;
        }
        self.session = if self.session == u64::MAX { 0 } else { self.session + 1 };
        self.playing = true;
        self.paused = false;
        self.timeline = timeline;
        self.cursor = 0;
        r
    }

    /// One poll of the worker of session `session`, at `scaled_elapsed`
    /// milliseconds of scaled playback time since the session began.
    pub fn poll(&mut self, session: u64, scaled_elapsed: u64) -> (r: Step)
        requires
            old(self).wf(),
        ensures
            final(self).wf(),
            (final(self)@, r) == polled(old(self)@, session, scaled_elapsed as int),
            r.from <= r.to <= final(self)@.timeline.len(),
    {
        let from = self.cursor;
        if session != self.session || !self.playing {
            return Step { from, to: from, finished: true };
        }
        if self.paused {
            return Step { from, to: from, finished: false };
        }
        let ghost tl = self@.timeline;
        let mut c: usize = self.cursor;
        while c < self.timeline.len() && self.timeline[c].time_ms <= scaled_elapsed
            invariant
                from <= c <= self.timeline@.len(),
                tl == self@.timeline,
                advance(tl, from as int, scaled_elapsed as int) == advance(tl, c as int, scaled_elapsed as int),
            decreases self.timeline@.len() - c,
        {
            assert(tl[c as int].0 == self.timeline@[c as int].time_ms);
            c = c + 1;
        }
        if c < self.timeline.len() {
            assert(tl[c as int].0 == self.timeline@[c as int].time_ms);
        }
        self.cursor = c;
        let done = c >= self.timeline.len();
        if done {
            self.playing = false;
        }
        Step { from, to: c, finished: done }
    }

    /// The timeline entry at position `i` of the current session.
    pub fn event_at(&self, i: usize) -> (r: &ScheduledEvent)
        requires
            i < self@.timeline.len(),
        ensures
            entry_view(*r) == self@.timeline[i as int],
    {
        &self.timeline[i]
    }

    /// Number of the current session.
    pub fn session(&self) -> (r: u64)
        ensures
            r == self@.session,
    {
        self.session
    }

    /// Whether a session is playing.
    pub fn is_playing(&self) -> (r: bool)
        ensures
            r == self@.playing,
    {
        self.playing
    }

    /// Whether the session is paused.
    pub fn is_paused(&self) -> (r: bool)
        ensures
            r == self@.paused,
    {
        self.paused
    }
}

impl Default for PlaybackEngine {
    fn default() -> (r: Self)
        ensures
            r.wf(),
            r@ == (EngineState { playing: false, paused: false, session: 0, timeline: Seq::empty(), cursor: 0 }),
    {
        PlaybackEngine::new()
    }
}

/// Stopping twice leaves the same state as stopping once, and each stop asks
/// only for the release of all keys.
pub proof fn lemma_stop_idempotent(v: EngineState)
    ensures
        stopped(stopped(v)) == stopped(v),
{
}

/// Starting while a session plays supersedes it: the new state holds only the
/// new timeline, from its first entry, and the earlier session's worker is
/// told to finish at its next poll without dispatching anything.
pub proof fn lemma_start_supersedes(
    v: EngineState,
    tl: Seq<(u64, Seq<char>, Modifier, bool)>,
    elapsed: int,
)
    requires
        tl.len() > 0,
    ensures
        started(v, tl).timeline == tl,
        started(v, tl).cursor == 0,
        polled(started(v, tl), v.session, elapsed).1.finished,
        polled(started(v, tl), v.session, elapsed).1.from == polled(started(v, tl), v.session, elapsed).1.to,
        polled(started(v, tl), v.session, elapsed).0 == started(v, tl),
{
}

} // verus!
