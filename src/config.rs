use vstd::prelude::*;
use vstd::string::StringExecFns;

verus! {

/// Default reference pitch: C4 is the first degree of the medium octave.
pub const DEFAULT_REFERENCE: u8 = 60;

/// Default number of notes that may sound at once.
pub const DEFAULT_MAX_POLYPHONY: u8 = 2;

/// Default delay before the first keystroke, in milliseconds.
pub const DEFAULT_START_DELAY_MS: u64 = 500;

/// The keys of the three octave rows, degree 1 first.
#[derive(Debug, Clone)]
pub struct KeyMapping {
    pub high: Vec<String>,
    pub medium: Vec<String>,
    pub low: Vec<String>,
}

/// Global hotkey bindings.
#[derive(Debug, Clone)]
pub struct Hotkeys {
    pub play_pause: String,
    pub stop: String,
}

/// The settings that mapping and scheduling read; the tempo factor is kept by
/// the caller, which owns the clock.
#[derive(Debug, Clone)]
pub struct AppConfig {
    /// MIDI pitch that maps to the medium octave, degree 1.
    pub reference_midi_note: u8,
    /// Transpose in semitones.
    pub transpose: i32,
    /// Maximum number of simultaneous notes.
    pub max_polyphony: u8,
    /// Delay before playback starts, in milliseconds.
    pub start_delay_ms: u64,
    pub key_mapping: KeyMapping,
    pub hotkeys: Hotkeys,
}

/// The text of each key of a row.
pub open spec fn key_texts(row: Seq<String>) -> Seq<Seq<char>> {
    row.map_values(|k: String| k@)
}

fn row(keys: [&str; 7]) -> (r: Vec<String>)
    ensures
        r@.len() == 7,
        forall|i: int| 0 <= i < 7 ==> #[trigger] r@[i]@ == keys@[i]@,
{
    let mut r: Vec<String> = Vec::new();
    let mut i: usize = 0;
    while i < 7
        invariant
            0 <= i <= 7,
            r@.len() == i,
            forall|j: int| 0 <= j < i ==> #[trigger] r@[j]@ == keys@[j]@,
        decreases 7 - i,
    {
        r.push(String::from_str(keys[i]));
        i = i + 1;
    }
    r
}

impl Default for KeyMapping {
    /// Rows Q..U (high), A..J (medium) and Z..M (low).
    fn default() -> (r: Self)
        ensures
            key_texts(r.high@) == seq!["Q"@, "W"@, "E"@, "R"@, "T"@, "Y"@, "U"@],
            key_texts(r.medium@) == seq!["A"@, "S"@, "D"@, "F"@, "G"@, "H"@, "J"@],
            key_texts(r.low@) == seq!["Z"@, "X"@, "C"@, "V"@, "B"@, "N"@, "M"@],
    {
        let high = row(["Q", "W", "E", "R", "T", "Y", "U"]);
        let medium = row(["A", "S", "D", "F", "G", "H", "J"]);
        let low = row(["Z", "X", "C", "V", "B", "N", "M"]);
        assert(key_texts(high@) =~= seq!["Q"@, "W"@, "E"@, "R"@, "T"@, "Y"@, "U"@]);
        assert(key_texts(medium@) =~= seq!["A"@, "S"@, "D"@, "F"@, "G"@, "H"@, "J"@]);
        assert(key_texts(low@) =~= seq!["Z"@, "X"@, "C"@, "V"@, "B"@, "N"@, "M"@]);
        KeyMapping { high, medium, low }
    }
}

impl Default for Hotkeys {
    /// F7 toggles pause, F8 stops.
    fn default() -> (r: Self)
        ensures
            r.play_pause@ == "F7"@,
            r.stop@ == "F8"@,
    {
        Hotkeys { play_pause: String::from_str("F7"), stop: String::from_str("F8") }
    }
}

impl Default for AppConfig {
    fn default() -> (r: Self)
        ensures
            r.reference_midi_note == DEFAULT_REFERENCE,
            r.transpose == 0,
            r.max_polyphony == DEFAULT_MAX_POLYPHONY,
            r.start_delay_ms == DEFAULT_START_DELAY_MS,
            key_texts(r.key_mapping.high@) == seq!["Q"@, "W"@, "E"@, "R"@, "T"@, "Y"@, "U"@],
            key_texts(r.key_mapping.medium@) == seq!["A"@, "S"@, "D"@, "F"@, "G"@, "H"@, "J"@],
            key_texts(r.key_mapping.low@) == seq!["Z"@, "X"@, "C"@, "V"@, "B"@, "N"@, "M"@],
            r.hotkeys.play_pause@ == "F7"@,
            r.hotkeys.stop@ == "F8"@,
    {
        AppConfig {
            reference_midi_note: DEFAULT_REFERENCE,
            transpose: 0,
            max_polyphony: DEFAULT_MAX_POLYPHONY,
            start_delay_ms: DEFAULT_START_DELAY_MS,
            key_mapping: KeyMapping::default(),
            hotkeys: Hotkeys::default(),
        }
    }
}

} // verus!
