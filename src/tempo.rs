use vstd::prelude::*;
use crate::sort::{Keyed, sorted_by_key};

verus! {

/// Tempo before the first tempo change: 500000 microseconds per beat (120 BPM).
pub const DEFAULT_TEMPO: u32 = 500000;

/// A tempo change: from `tick` on, a beat lasts `micros_per_beat` microseconds.
#[derive(Debug, Clone, Copy, PartialEq, Eq, Structural)]
pub struct Breakpoint {
    pub tick: u32,
    pub micros_per_beat: u32,
}

impl Keyed for Breakpoint {
    open spec fn key_spec(&self) -> int {
        self.tick as int
    }

    fn key(&self) -> (r: u64) {
        self.tick as u64
    }
}

/// Ticks from `from` to `to`, none if `to` comes first.
pub open spec fn span(from: int, to: int) -> int {
    if to > from {
        to - from
    } else {
        0
    }
}

/// Tick-weighted tempo (ticks times microseconds per beat) elapsed up to
/// `tick`, walking the breakpoints in order from position `prev` at `tempo`.
pub open spec fn beat_micros(map: Seq<Breakpoint>, tick: int, prev: int, tempo: int) -> int
    decreases map.len(),
{
    if map.len() == 0 || map[0].tick >= tick {
        span(prev, tick) * tempo
    } else {
        span(prev, map[0].tick as int) * tempo + beat_micros(
            map.drop_first(),
            tick,
            map[0].tick as int,
            map[0].micros_per_beat as int,
        )
    }
}

/// Milliseconds from tick 0 to `tick` under the breakpoints, with
/// `ticks_per_beat` ticks to a beat, rounded down.
pub open spec fn ms_at(map: Seq<Breakpoint>, ticks_per_beat: int, tick: int) -> int {
    beat_micros(map, tick, 0, DEFAULT_TEMPO as int) / (ticks_per_beat * 1000)
}

proof fn lemma_beat_micros_monotonic(map: Seq<Breakpoint>, t1: int, t2: int, prev: int, tempo: int)
    requires
        t1 <= t2,
        tempo >= 0,
    ensures
        0 <= beat_micros(map, t1, prev, tempo) <= beat_micros(map, t2, prev, tempo),
    decreases map.len(),
{
    assert(span(prev, t1) * tempo <= span(prev, t2) * tempo) by (nonlinear_arith)
        requires
            span(prev, t1) <= span(prev, t2),
            0 <= span(prev, t1),
            tempo >= 0,
    ;
    if map.len() > 0 {
        let m = map[0].tick as int;
        lemma_beat_micros_monotonic(map.drop_first(), t1, t2, m, map[0].micros_per_beat as int);
        lemma_beat_micros_monotonic(map.drop_first(), t2, t2, m, map[0].micros_per_beat as int);
        assert(span(prev, m) * tempo >= 0) by (nonlinear_arith)
            requires
                span(prev, m) >= 0,
                tempo >= 0,
        ;
        if m >= t1 && m < t2 {
            assert(span(prev, t1) * tempo <= span(prev, m) * tempo) by (nonlinear_arith)
                requires
                    span(prev, t1) <= span(prev, m),
                    0 <= span(prev, t1),
                    tempo >= 0,
            ;
        }
    }
}

/// The tick-to-millisecond mapping starts at zero and never decreases, for
/// any breakpoints and any positive ticks per beat.
pub proof fn lemma_ms_monotonic(map: Seq<Breakpoint>, ticks_per_beat: int, t1: int, t2: int)
    requires
        ticks_per_beat > 0,
        0 <= t1 <= t2,
    ensures
        ms_at(map, ticks_per_beat, 0) == 0,
        ms_at(map, ticks_per_beat, t1) <= ms_at(map, ticks_per_beat, t2),
{
    lemma_beat_micros_monotonic(map, t1, t2, 0, DEFAULT_TEMPO as int);
    vstd::arithmetic::div_mod::lemma_div_is_ordered(
        beat_micros(map, t1, 0, DEFAULT_TEMPO as int),
        beat_micros(map, t2, 0, DEFAULT_TEMPO as int),
        ticks_per_beat * 1000,
    );
    assert(beat_micros(map, 0, 0, DEFAULT_TEMPO as int) == 0);
}

proof fn lemma_beat_micros_bound(map: Seq<Breakpoint>, tick: int, prev: int, tempo: int)
    requires
        sorted_by_key(map),
        forall|i: int| 0 <= i < map.len() ==> #[trigger] map[i].tick >= prev,
        0 <= prev,
        0 <= tempo <= 0xFFFF_FFFF,
    ensures
        0 <= beat_micros(map, tick, prev, tempo) <= span(prev, tick) * 0xFFFF_FFFF,
    decreases map.len(),
{
    assert(0 <= span(prev, tick) * tempo <= span(prev, tick) * 0xFFFF_FFFF) by (nonlinear_arith)
        requires
            0 <= span(prev, tick),
            0 <= tempo <= 0xFFFF_FFFF,
    ;
    if map.len() > 0 && map[0].tick < tick {
        let m = map[0].tick as int;
        let rest = map.drop_first();
        assert forall|i: int| 0 <= i < rest.len() implies #[trigger] rest[i].tick >= m by {
            assert(map[0].key_spec() <= map[i + 1].key_spec());
        }
        assert(sorted_by_key(rest)) by {
            assert forall|i: int, j: int| 0 <= i <= j < rest.len() implies rest[i].key_spec() <= rest[j].key_spec() by {
                assert(map[i + 1].key_spec() <= map[j + 1].key_spec());
            }
        }
        lemma_beat_micros_bound(rest, tick, m, map[0].micros_per_beat as int);
        assert(0 <= span(prev, m) * tempo <= span(prev, m) * 0xFFFF_FFFF) by (nonlinear_arith)
            requires
                0 <= span(prev, m),
                0 <= tempo <= 0xFFFF_FFFF,
        ;
        assert(span(prev, m) * 0xFFFF_FFFF + span(m, tick) * 0xFFFF_FFFF == span(prev, tick) * 0xFFFF_FFFF) by (nonlinear_arith)
            requires
                span(prev, m) + span(m, tick) == span(prev, tick),
        ;
    }
}

/// Under ordered breakpoints, the milliseconds at a 32-bit tick fit in 64 bits.
pub proof fn lemma_ms_fits(map: Seq<Breakpoint>, ticks_per_beat: int, tick: int)
    requires
        sorted_by_key(map),
        ticks_per_beat > 0,
        0 <= tick <= u32::MAX,
    ensures
        0 <= ms_at(map, ticks_per_beat, tick) <= u64::MAX,
{
    lemma_beat_micros_bound(map, tick, 0, DEFAULT_TEMPO as int);
    let x = beat_micros(map, tick, 0, DEFAULT_TEMPO as int);
    assert(x <= 0xFFFF_FFFF * 0xFFFF_FFFF) by (nonlinear_arith)
        requires
            0 <= x <= span(0, tick) * 0xFFFF_FFFF,
            span(0, tick) == tick,
            tick <= 0xFFFF_FFFF,
    ;
    assert(x / (ticks_per_beat * 1000) <= x) by (nonlinear_arith)
        requires
            x >= 0,
            ticks_per_beat * 1000 >= 1,
    ;
}

/// Convert a tick position to milliseconds: each segment between breakpoints
/// before `tick` at its own tempo, then the rest at the tempo in effect.
pub fn ticks_to_ms(tick: u32, ticks_per_beat: u32, tempo_map: &[Breakpoint]) -> (r: u64)
    requires
        ticks_per_beat > 0,
        sorted_by_key(tempo_map@),
    ensures
        r == ms_at(tempo_map@, ticks_per_beat as int, tick as int),
        tick == 0 ==> r == 0,
{
    proof {
        lemma_ms_monotonic(tempo_map@, ticks_per_beat as int, 0, 0);
    }
    let ghost map = tempo_map@;
    let mut total: u128 = 0;
    let mut prev: u32 = 0;
    let mut current: u32 = DEFAULT_TEMPO;
    let mut i: usize = 0;
    assert(map.subrange(0, map.len() as int) =~= map);
    while i < tempo_map.len()
        invariant
            0 <= i <= map.len(),
            map == tempo_map@,
            sorted_by_key(map),
            total + beat_micros(map.subrange(i as int, map.len() as int), tick as int, prev as int, current as int)
                == beat_micros(map, tick as int, 0, DEFAULT_TEMPO as int),
            prev <= tick,
            i > 0 ==> prev == map[i - 1].tick,
            i == 0 ==> prev == 0,
            total <= prev as int * 0xFFFF_FFFF,
        ensures
            0 <= i <= map.len(),
            i < map.len() ==> map[i as int].tick >= tick,
            total + beat_micros(map.subrange(i as int, map.len() as int), tick as int, prev as int, current as int)
                == beat_micros(map, tick as int, 0, DEFAULT_TEMPO as int),
            prev <= tick,
            total <= prev as int * 0xFFFF_FFFF,
        decreases map.len() - i,
    {
        let bp = tempo_map[i];
        let ghost rest = map.subrange(i as int, map.len() as int);
        assert(rest[0] == bp);
        assert(bp == map[i as int]);
        if bp.tick >= tick {
            break;
        }
        if i > 0 {
            assert(map[i - 1].key_spec() <= map[i as int].key_spec());
            assert(map[i - 1].key_spec() == map[i - 1].tick as int);
            assert(map[i as int].key_spec() == map[i as int].tick as int);
        }
        assert(prev <= bp.tick);
        let delta: u32 = bp.tick - prev;
        proof {
            assert(total + delta as int * current as int <= bp.tick as int * 0xFFFF_FFFF) by (nonlinear_arith)
                requires
                    total <= prev as int * 0xFFFF_FFFF,
                    delta == bp.tick - prev,
                    current <= 0xFFFF_FFFF,
                    delta >= 0,
            ;
            assert(rest.drop_first() =~= map.subrange(i + 1, map.len() as int));
        }
        total = total + delta as u128 * current as u128;
        prev = bp.tick;
        current = bp.micros_per_beat;
        i = i + 1;
    }
    let delta: u32 = tick - prev;
    proof {
        let rest = map.subrange(i as int, map.len() as int);
        if i < map.len() {
            assert(rest[0] == map[i as int]);
        }
        assert(beat_micros(rest, tick as int, prev as int, current as int) == delta as int * current as int);
        assert(total + delta as int * current as int <= tick as int * 0xFFFF_FFFF) by (nonlinear_arith)
            requires
                total <= prev as int * 0xFFFF_FFFF,
                delta == tick - prev,
                current <= 0xFFFF_FFFF,
                delta >= 0,
        ;
        assert(tick as int * 0xFFFF_FFFF <= 0xFFFF_FFFF * 0xFFFF_FFFF) by (nonlinear_arith)
            requires
                tick <= 0xFFFF_FFFF,
        ;
    }
    total = total + delta as u128 * current as u128;
    let divisor: u128 = ticks_per_beat as u128 * 1000;
    assert(total / divisor <= total) by (nonlinear_arith)
        requires
            divisor >= 1,
            total >= 0,
    ;
    (total / divisor) as u64
}

} // verus!
