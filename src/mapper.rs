use vstd::prelude::*;
use crate::config::AppConfig;
use crate::keyboard::Modifier;

verus! {

/// One of the instrument's three playable registers.
#[derive(Debug, Clone, Copy, PartialEq, Eq, Structural)]
pub enum Octave {
    Low,
    Medium,
    High,
}

/// A one-semitone alteration of a scale degree.
#[derive(Debug, Clone, Copy, PartialEq, Eq, Structural)]
pub enum Accidental {
    Flat,
    Natural,
    Sharp,
}

/// A note that the instrument can play.
#[derive(Debug, Clone, Copy, PartialEq, Eq, Structural)]
pub struct InstrumentNote {
    pub octave: Octave,
    /// Scale degree, 1 to 7.
    pub degree: u8,
    pub accidental: Accidental,
}

/// A key of the configured layout together with its modifier.
#[derive(Debug, Clone)]
pub struct KeyStroke {
    pub key: String,
    pub modifier: Modifier,
}

pub open spec fn modifier_of(a: Accidental) -> Modifier {
    match a {
        Accidental::Flat => Modifier::Ctrl,
        Accidental::Natural => Modifier::Plain,
        Accidental::Sharp => Modifier::Shift,
    }
}

impl Accidental {
    /// Flat is played with Ctrl, natural with no modifier, sharp with Shift.
    pub fn to_modifier(self) -> (r: Modifier)
        ensures
            r == modifier_of(self),
    {
        match self {
            Accidental::Flat => Modifier::Ctrl,
            Accidental::Natural => Modifier::Plain,
            Accidental::Sharp => Modifier::Shift,
        }
    }
}

/// Semitone offsets of degrees 1 to 7 in a major scale.
pub const DEGREE_SEMITONES: [u8; 7] = [0, 2, 4, 5, 7, 9, 11];

/// Semitone offset of degree `d` (1 to 7) above degree 1.
pub open spec fn degree_offset(d: int) -> int {
    if d == 1 {
        0
    } else if d == 2 {
        2
    } else if d == 3 {
        4
    } else if d == 4 {
        5
    } else if d == 5 {
        7
    } else if d == 6 {
        9
    } else {
        11
    }
}

/// Whether degree `d` altered by `shift` semitones lands on `s`; a flat is
/// only taken for a degree above the first.
pub open spec fn degree_hits(s: int, shift: int, d: int) -> bool {
    degree_offset(d) + shift == s && (shift != -1 || degree_offset(d) > 0)
}

/// The lowest degree from `d` to 7 that `degree_hits`, if any.
pub open spec fn first_degree_from(s: int, shift: int, d: int) -> Option<int>
    decreases 8 - d,
{
    if d < 1 || d > 7 {
        None
    } else if degree_hits(s, shift, d) {
        Some(d)
    } else {
        first_degree_from(s, shift, d + 1)
    }
}

/// Degree and accidental of a position within the octave: an exact degree
/// first, then a sharp of a degree, then a flat of a degree.
pub open spec fn degree_and_accidental(s: int) -> Option<(u8, Accidental)> {
    match first_degree_from(s, 0, 1) {
        Some(d) => Some((d as u8, Accidental::Natural)),
        None => match first_degree_from(s, 1, 1) {
            Some(d) => Some((d as u8, Accidental::Sharp)),
            None => match first_degree_from(s, -1, 1) {
                Some(d) => Some((d as u8, Accidental::Flat)),
                None => None,
            },
        },
    }
}

fn first_degree(semitones: u8, shift: i8) -> (r: Option<u8>)
    requires
        -1 <= shift <= 1,
    ensures
        match first_degree_from(semitones as int, shift as int, 1) {
            Some(d) => r == Some(d as u8),
            None => r is None,
        },
{
    let mut i: usize = 0;
    while i < 7
        invariant
            0 <= i <= 7,
            -1 <= shift <= 1,
            first_degree_from(semitones as int, shift as int, 1) == first_degree_from(
                semitones as int,
                shift as int,
                i + 1,
            ),
        decreases 7 - i,
    {
        let off = DEGREE_SEMITONES[i] as i16;
        assert(off == degree_offset(i + 1));
        if off + shift as i16 == semitones as i16 && (shift != -1 || off > 0) {
            return Some(i as u8 + 1);
        }
        i = i + 1;
    }
    None
}

/// Scale degree and accidental for a semitone position within an octave.
pub fn find_degree_and_accidental(semitones: u8) -> (r: Option<(u8, Accidental)>)
    ensures
        r == degree_and_accidental(semitones as int),
{
    match first_degree(semitones, 0) {
        Some(d) => Some((d, Accidental::Natural)),
        None => match first_degree(semitones, 1) {
            Some(d) => Some((d, Accidental::Sharp)),
            None => match first_degree(semitones, -1) {
                Some(d) => Some((d, Accidental::Flat)),
                None => None,
            },
        },
    }
}

/// Every position within an octave resolves to exactly one degree and
/// accidental: a natural lies on the degree, a sharp one semitone above it, a
/// flat one semitone below it. The seven scale positions are natural.
pub proof fn lemma_within_octave_resolves(s: int)
    requires
        0 <= s <= 11,
    ensures
        degree_and_accidental(s) is Some,
        ({
            let (d, a) = degree_and_accidental(s)->Some_0;
            &&& 1 <= d <= 7
            &&& a == Accidental::Natural ==> degree_offset(d as int) == s
            &&& a == Accidental::Sharp ==> degree_offset(d as int) + 1 == s
            &&& a == Accidental::Flat ==> degree_offset(d as int) - 1 == s
        }),
        (s == 0 || s == 2 || s == 4 || s == 5 || s == 7 || s == 9 || s == 11) ==> degree_and_accidental(
            s,
        )->Some_0.1 == Accidental::Natural,
{
    reveal_with_fuel(first_degree_from, 8);
}

/// The octave row that an offset in whole octaves from the reference falls in.
pub open spec fn octave_of(offset: int) -> Option<Octave> {
    if offset == -1 {
        Some(Octave::Low)
    } else if offset == 0 {
        Some(Octave::Medium)
    } else if offset == 1 {
        Some(Octave::High)
    } else {
        None
    }
}

/// The instrument note for a MIDI pitch under a transpose and a reference
/// pitch, or none where the pitch falls outside the three rows.
pub open spec fn instrument_note_of(pitch: int, transpose: int, reference: int) -> Option<
    InstrumentNote,
> {
    let from_ref = pitch + transpose - reference;
    let offset = from_ref / 12;
    let within = from_ref % 12;
    match degree_and_accidental(within) {
        Some((d, a)) => match octave_of(offset) {
            Some(o) => Some(InstrumentNote { octave: o, degree: d, accidental: a }),
            None => None,
        },
        None => None,
    }
}

/// Shift that makes every reachable distance from the reference non-negative;
/// a whole number of octaves.
const OCTAVE_SHIFT: u64 = 3221225472;

const OCTAVES_IN_SHIFT: u64 = 268435456;

/// Map a MIDI pitch to an instrument note, using the configured transpose and
/// reference pitch; none if it lies outside the low, medium and high rows.
pub fn midi_to_instrument(midi_note: u8, config: &AppConfig) -> (r: Option<InstrumentNote>)
    ensures
        r == instrument_note_of(
            midi_note as int,
            config.transpose as int,
            config.reference_midi_note as int,
        ),
{
    let from_ref: i64 = midi_note as i64 + config.transpose as i64 - config.reference_midi_note as i64;
    let shifted: u64 = (from_ref + OCTAVE_SHIFT as i64) as u64;
    let within: u8 = (shifted % 12) as u8;
    let octaves: u64 = shifted / 12;
    proof {
        let f = from_ref as int;
        assert(f + 3221225472 == f + 12 * 268435456);
        assert(shifted as int % 12 == f % 12 && shifted as int / 12 == f / 12 + 268435456)
            by (nonlinear_arith)
            requires
                shifted as int == f + 12 * 268435456,
        ;
    }
    let (degree, accidental) = match find_degree_and_accidental(within) {
        Some(x) => x,
        None => return None,
    };
    let octave = if octaves + 1 == OCTAVES_IN_SHIFT {
        Octave::Low
    } else if octaves == OCTAVES_IN_SHIFT {
        Octave::Medium
    } else if octaves == OCTAVES_IN_SHIFT + 1 {
        Octave::High
    } else {
        return None;
    };
    Some(InstrumentNote { octave, degree, accidental })
}

/// The configured key row of an octave.
pub open spec fn row_of(config: AppConfig, o: Octave) -> Seq<String> {
    match o {
        Octave::High => config.key_mapping.high@,
        Octave::Medium => config.key_mapping.medium@,
        Octave::Low => config.key_mapping.low@,
    }
}

/// Whether the layout has a key for the note's degree.
pub open spec fn has_key(note: InstrumentNote, config: AppConfig) -> bool {
    1 <= note.degree && note.degree - 1 < row_of(config, note.octave).len()
}

/// Convert an instrument note into the configured key and its modifier; none
/// if the row has no key for the degree.
pub fn note_to_keystroke(note: &InstrumentNote, config: &AppConfig) -> (r: Option<KeyStroke>)
    ensures
        r is Some <==> has_key(*note, *config),
        r matches Some(k) ==> k.key@ == row_of(*config, note.octave)[note.degree - 1]@
            && k.modifier == modifier_of(note.accidental),
{
    let keys = match note.octave {
        Octave::High => &config.key_mapping.high,
        Octave::Medium => &config.key_mapping.medium,
        Octave::Low => &config.key_mapping.low,
    };
    if note.degree == 0 {
        return None;
    }
    let index = (note.degree - 1) as usize;
    if index >= keys.len() {
        return None;
    }
    Some(KeyStroke { key: keys[index].clone(), modifier: note.accidental.to_modifier() })
}

/// Lowest pitch of the playable band for a reference pitch.
pub open spec fn playable_min(reference: int) -> int {
    reference - 12
}

/// Highest pitch of the playable band for a reference pitch.
pub open spec fn playable_max(reference: int) -> int {
    reference + 23
}

/// How far the pitch range `[lo, hi]` shifted by `t` sticks out of the band.
pub open spec fn out_of_range(lo: int, hi: int, reference: int, t: int) -> int {
    let below = playable_min(reference) - (lo + t);
    let above = (hi + t) - playable_max(reference);
    (if below > 0 { below } else { 0 }) + (if above > 0 { above } else { 0 })
}

/// The `k`-th candidate transpose: -24, -12, 0, 12, 24.
pub open spec fn candidate(k: int) -> int {
    12 * k - 24
}

/// Best (transpose, amount out of range) over the candidates before `k`; an
/// earlier candidate wins a tie.
pub open spec fn best_upto(lo: int, hi: int, reference: int, k: int) -> (int, int)
    decreases k,
{
    if k <= 0 {
        (0, i32::MAX as int)
    } else {
        let (t, o) = best_upto(lo, hi, reference, k - 1);
        let c = out_of_range(lo, hi, reference, candidate(k - 1));
        if c < o {
            (candidate(k - 1), c)
        } else {
            (t, o)
        }
    }
}

pub open spec fn seq_min(s: Seq<u8>) -> int
    decreases s.len(),
{
    if s.len() <= 1 {
        if s.len() == 0 { 0 } else { s[0] as int }
    } else {
        let m = seq_min(s.drop_last());
        if (s.last() as int) < m { s.last() as int } else { m }
    }
}

pub open spec fn seq_max(s: Seq<u8>) -> int
    decreases s.len(),
{
    if s.len() <= 1 {
        if s.len() == 0 { 0 } else { s[0] as int }
    } else {
        let m = seq_max(s.drop_last());
        if (s.last() as int) > m { s.last() as int } else { m }
    }
}

/// The suggested transpose: zero for no pitches, else the octave shift that
/// leaves the pitch range least outside the playable band.
pub open spec fn suggested_transpose(s: Seq<u8>, reference: int) -> int {
    if s.len() == 0 {
        0
    } else {
        best_upto(seq_min(s), seq_max(s), reference, 5).0
    }
}

proof fn lemma_min_max_bounds(s: Seq<u8>)
    requires
        s.len() > 0,
    ensures
        forall|i: int| 0 <= i < s.len() ==> seq_min(s) <= #[trigger] s[i] <= seq_max(s),
        exists|i: int| 0 <= i < s.len() && seq_min(s) == #[trigger] s[i],
        exists|i: int| 0 <= i < s.len() && seq_max(s) == #[trigger] s[i],
        0 <= seq_min(s) <= seq_max(s) <= 255,
    decreases s.len(),
{
    if s.len() > 1 {
        lemma_min_max_bounds(s.drop_last());
        let w = choose|i: int| 0 <= i < s.len() - 1 && seq_min(s.drop_last()) == #[trigger] s.drop_last()[i];
        let x = choose|i: int| 0 <= i < s.len() - 1 && seq_max(s.drop_last()) == #[trigger] s.drop_last()[i];
        if (s.last() as int) < seq_min(s.drop_last()) {
            assert(seq_min(s) == s[s.len() - 1]);
        } else {
            assert(seq_min(s) == s[w]);
        }
        if (s.last() as int) > seq_max(s.drop_last()) {
            assert(seq_max(s) == s[s.len() - 1]);
        } else {
            assert(seq_max(s) == s[x]);
        }
        assert forall|i: int| 0 <= i < s.len() implies seq_min(s) <= #[trigger] s[i] <= seq_max(s) by {
            if i < s.len() - 1 {
                assert(s[i] == s.drop_last()[i]);
            }
        }
    } else {
        assert(seq_min(s) == s[0]);
        assert(seq_max(s) == s[0]);
    }
}

/// Suggest the octave transpose (-24, -12, 0, 12 or 24) under which the
/// pitches lie least outside `[reference - 12, reference + 23]`.
pub fn suggest_transpose(midi_notes: &[u8], reference: u8) -> (r: i32)
    ensures
        r == suggested_transpose(midi_notes@, reference as int),
{
    if midi_notes.len() == 0 {
        return 0;
    }
    let mut lo: u8 = midi_notes[0];
    let mut hi: u8 = midi_notes[0];
    let mut i: usize = 1;
    assert(midi_notes@.subrange(0, 1).drop_last() =~= Seq::<u8>::empty());
    while i < midi_notes.len()
        invariant
            1 <= i <= midi_notes@.len(),
            lo == seq_min(midi_notes@.subrange(0, i as int)),
            hi == seq_max(midi_notes@.subrange(0, i as int)),
        decreases midi_notes@.len() - i,
    {
        assert(midi_notes@.subrange(0, i + 1).drop_last() =~= midi_notes@.subrange(0, i as int));
        if midi_notes[i] < lo {
            lo = midi_notes[i];
        }
        if midi_notes[i] > hi {
            hi = midi_notes[i];
        }
        i = i + 1;
    }
    assert(midi_notes@.subrange(0, i as int) =~= midi_notes@);
    let ref_note = reference as i32;
    let pmin = ref_note - 12;
    let pmax = ref_note + 23;
    let mut best_transpose: i32 = 0;
    let mut best_out: i32 = i32::MAX;
    let mut k: i32 = 0;
    while k < 5
        invariant
            0 <= k <= 5,
            pmin == playable_min(reference as int),
            pmax == playable_max(reference as int),
            (best_transpose as int, best_out as int) == best_upto(lo as int, hi as int, reference as int, k as int),
            -24 <= best_transpose <= 24,
            0 <= best_out <= i32::MAX,
        decreases 5 - k,
    {
        let t = 12 * k - 24;
        let t_min = lo as i32 + t;
        let t_max = hi as i32 + t;
        let below = if pmin - t_min > 0 { pmin - t_min } else { 0 };
        let above = if t_max - pmax > 0 { t_max - pmax } else { 0 };
        let out = below + above;
        if out < best_out {
            best_out = out;
            best_transpose = t;
        }
        k = k + 1;
    }
    best_transpose
}

/// Pitches that already lie in the playable band, at least one of them below
/// the reference, are not transposed. (When every pitch is at or above the
/// reference, a downward octave that also fits wins the tie.)
pub proof fn lemma_in_band_not_transposed(s: Seq<u8>, reference: u8)
    requires
        forall|i: int|
            0 <= i < s.len() ==> playable_min(reference as int) <= #[trigger] s[i] <= playable_max(
                reference as int,
            ),
        s.len() == 0 || exists|i: int| 0 <= i < s.len() && #[trigger] s[i] < reference,
    ensures
        suggested_transpose(s, reference as int) == 0,
{
    if s.len() > 0 {
        lemma_min_max_bounds(s);
        let w = choose|i: int| 0 <= i < s.len() && #[trigger] s[i] < reference;
        let v = choose|i: int| 0 <= i < s.len() && seq_min(s) == #[trigger] s[i];
        let x = choose|i: int| 0 <= i < s.len() && seq_max(s) == #[trigger] s[i];
        let (lo, hi, r) = (seq_min(s), seq_max(s), reference as int);
        assert(s[w] >= lo);
        assert(playable_min(r) <= lo < r && hi <= playable_max(r));
        assert(out_of_range(lo, hi, r, -24) > 0);
        assert(out_of_range(lo, hi, r, -12) > 0);
        assert(out_of_range(lo, hi, r, 0) == 0);
        reveal_with_fuel(best_upto, 6);
    }
}

} // verus!
