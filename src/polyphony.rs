use vstd::prelude::*;
use crate::midi::NoteEvent;

verus! {

/// Start window, in milliseconds, within which notes count as simultaneous.
pub const CHORD_TOLERANCE_MS: u64 = 10;

/// Last position of the group that begins at `first`: it extends while the
/// next note starts within `tol` of the note at `first`.
pub open spec fn group_end(s: Seq<NoteEvent>, first: int, j: int, tol: int) -> int
    decreases s.len() - j,
{
    if 0 <= first < s.len() && 0 <= j && j + 1 < s.len() && s[j + 1].start_ms <= s[first].start_ms + tol {
        group_end(s, first, j + 1, tol)
    } else {
        j
    }
}

/// Among the positions before `j` that are not taken, the one of highest
/// pitch, the earliest on a tie; -1 if all are taken.
pub open spec fn best_untaken(g: Seq<NoteEvent>, taken: Seq<bool>, j: int) -> int
    decreases j,
{
    if j <= 0 {
        -1
    } else {
        let b = best_untaken(g, taken, j - 1);
        if taken[j - 1] {
            b
        } else if b < 0 || g[j - 1].note > g[b].note {
            j - 1
        } else {
            b
        }
    }
}

/// The positions taken after picking the best untaken note `n` times.
pub open spec fn picks(g: Seq<NoteEvent>, n: int) -> Seq<bool>
    decreases n,
{
    if n <= 0 {
        Seq::new(g.len(), |k: int| false)
    } else {
        let t = picks(g, n - 1);
        let b = best_untaken(g, t, g.len() as int);
        if b < 0 {
            t
        } else {
            t.update(b, true)
        }
    }
}

/// The notes at taken positions, in their order.
pub open spec fn kept(g: Seq<NoteEvent>, taken: Seq<bool>) -> Seq<NoteEvent>
    decreases g.len(),
{
    if g.len() == 0 || taken.len() == 0 {
        Seq::empty()
    } else if taken.last() {
        kept(g.drop_last(), taken.drop_last()).push(g.last())
    } else {
        kept(g.drop_last(), taken.drop_last())
    }
}

/// Number of taken positions.
pub open spec fn count_taken(taken: Seq<bool>) -> int
    decreases taken.len(),
{
    if taken.len() == 0 {
        0
    } else {
        count_taken(taken.drop_last()) + if taken.last() { 1int } else { 0int }
    }
}

/// The `max` highest notes of a group, in their original order.
pub open spec fn keep_highest(g: Seq<NoteEvent>, max: int) -> Seq<NoteEvent> {
    kept(g, picks(g, max))
}

/// Limit each group from position `i` on to its `max` highest notes.
pub open spec fn limit_from(s: Seq<NoteEvent>, max: int, tol: int, i: int) -> Seq<NoteEvent>
    decreases s.len() - i,
{
    if i < 0 || i >= s.len() {
        Seq::empty()
    } else {
        let e = group_end(s, i, i, tol);
        let g = s.subrange(i, e + 1);
        let out = if g.len() > max {
            keep_highest(g, max)
        } else {
            g
        };
        if e < i || e >= s.len() {
            out
        } else {
            out + limit_from(s, max, tol, e + 1)
        }
    }
}

/// The notes after polyphony limiting; a limit of 0 leaves them as they are.
pub open spec fn limited(s: Seq<NoteEvent>, max: int, tol: int) -> Seq<NoteEvent> {
    if max <= 0 {
        s
    } else {
        limit_from(s, max, tol, 0)
    }
}

proof fn lemma_group_end(s: Seq<NoteEvent>, first: int, j: int, tol: int)
    requires
        0 <= first <= j < s.len(),
    ensures
        j <= group_end(s, first, j, tol) < s.len(),
    decreases s.len() - j,
{
    if j + 1 < s.len() && s[j + 1].start_ms <= s[first].start_ms + tol {
        lemma_group_end(s, first, j + 1, tol);
    }
}

proof fn lemma_best_untaken(g: Seq<NoteEvent>, taken: Seq<bool>, j: int)
    requires
        0 <= j <= g.len(),
        taken.len() == g.len(),
    ensures
        best_untaken(g, taken, j) < j,
        best_untaken(g, taken, j) >= 0 ==> !taken[best_untaken(g, taken, j)],
        best_untaken(g, taken, j) < 0 ==> forall|k: int| 0 <= k < j ==> #[trigger] taken[k],
        best_untaken(g, taken, j) >= 0 ==> forall|k: int|
            0 <= k < j && !#[trigger] taken[k] ==> g[k].note <= g[best_untaken(g, taken, j)].note,
    decreases j,
{
    if j > 0 {
        lemma_best_untaken(g, taken, j - 1);
    }
}

proof fn lemma_count_update(t: Seq<bool>, b: int)
    requires
        0 <= b < t.len(),
        !t[b],
    ensures
        count_taken(t.update(b, true)) == count_taken(t) + 1,
    decreases t.len(),
{
    let u = t.update(b, true);
    if b < t.len() - 1 {
        assert(u.drop_last() =~= t.drop_last().update(b, true));
        lemma_count_update(t.drop_last(), b);
    } else {
        assert(u.drop_last() =~= t.drop_last());
    }
}

proof fn lemma_count_all_false(n: int)
    requires
        n >= 0,
    ensures
        count_taken(Seq::new(n as nat, |k: int| false)) == 0,
    decreases n,
{
    if n > 0 {
        assert(Seq::new(n as nat, |k: int| false).drop_last() =~= Seq::new((n - 1) as nat, |k: int| false));
        lemma_count_all_false(n - 1);
    }
}

proof fn lemma_count_bound(t: Seq<bool>)
    ensures
        0 <= count_taken(t) <= t.len(),
        count_taken(t) < t.len() ==> exists|k: int| 0 <= k < t.len() && !#[trigger] t[k],
    decreases t.len(),
{
    if t.len() > 0 {
        lemma_count_bound(t.drop_last());
        if count_taken(t) < t.len() && t.last() {
            let k = choose|k: int| 0 <= k < t.len() - 1 && !#[trigger] t.drop_last()[k];
            assert(!t[k]);
        }
    }
}

proof fn lemma_kept_len(g: Seq<NoteEvent>, t: Seq<bool>)
    requires
        g.len() == t.len(),
    ensures
        kept(g, t).len() == count_taken(t),
    decreases g.len(),
{
    if g.len() > 0 {
        lemma_kept_len(g.drop_last(), t.drop_last());
    }
}

proof fn lemma_picks(g: Seq<NoteEvent>, n: int)
    requires
        0 <= n <= g.len(),
    ensures
        picks(g, n).len() == g.len(),
        count_taken(picks(g, n)) == n,
        forall|a: int, b: int|
            0 <= a < g.len() && 0 <= b < g.len() && #[trigger] picks(g, n)[a] && !#[trigger] picks(g, n)[b]
                ==> g[a].note >= g[b].note,
    decreases n,
{
    if n == 0 {
        lemma_count_all_false(g.len() as int);
    } else {
        lemma_picks(g, n - 1);
        let t = picks(g, n - 1);
        lemma_count_bound(t);
        lemma_best_untaken(g, t, g.len() as int);
        let b = best_untaken(g, t, g.len() as int);
        if b < 0 {
            let k = choose|k: int| 0 <= k < t.len() && !#[trigger] t[k];
            assert(t[k]);
        }
        lemma_count_update(t, b);
        let u = t.update(b, true);
        assert forall|x: int, y: int|
            0 <= x < g.len() && 0 <= y < g.len() && #[trigger] u[x] && !#[trigger] u[y] implies g[x].note
            >= g[y].note by {
            assert(!t[y]);
            if x != b {
                assert(t[x]);
            }
        }
    }
}

/// A group of more notes than the limit keeps exactly `max` of them, and
/// every note kept is at least as high as every note left out.
pub proof fn lemma_keep_highest(g: Seq<NoteEvent>, max: int)
    requires
        0 < max < g.len(),
    ensures
        keep_highest(g, max).len() == max,
        forall|a: int, b: int|
            0 <= a < g.len() && 0 <= b < g.len() && #[trigger] picks(g, max)[a] && !#[trigger] picks(g, max)[b]
                ==> g[a].note >= g[b].note,
{
    lemma_picks(g, max);
    lemma_kept_len(g, picks(g, max));
}

proof fn lemma_group_spans_all(s: Seq<NoteEvent>, j: int, tol: int)
    requires
        0 <= j < s.len(),
        forall|k: int| 0 <= k < s.len() ==> #[trigger] s[k].start_ms <= s[0].start_ms + tol,
    ensures
        group_end(s, 0, j, tol) == s.len() - 1,
    decreases s.len() - j,
{
    if j + 1 < s.len() {
        lemma_group_spans_all(s, j + 1, tol);
    }
}

/// Notes that all start within the tolerance of the first form one group:
/// with more of them than the limit, polyphony limiting leaves exactly `max`
/// notes, and every note kept is at least as high as every note dropped.
pub proof fn lemma_limit_one_group(s: Seq<NoteEvent>, max: int, tol: int)
    requires
        0 < max < s.len(),
        forall|k: int| 0 <= k < s.len() ==> #[trigger] s[k].start_ms <= s[0].start_ms + tol,
    ensures
        limited(s, max, tol) == keep_highest(s, max),
        limited(s, max, tol).len() == max,
        forall|a: int, b: int|
            0 <= a < s.len() && 0 <= b < s.len() && #[trigger] picks(s, max)[a] && !#[trigger] picks(s, max)[b]
                ==> s[a].note >= s[b].note,
{
    lemma_group_spans_all(s, 0, tol);
    lemma_keep_highest(s, max);
    assert(s.subrange(0, s.len() as int) =~= s);
    assert(limit_from(s, max, tol, s.len() as int) =~= Seq::<NoteEvent>::empty());
    assert(limit_from(s, max, tol, 0) =~= keep_highest(s, max) + Seq::<NoteEvent>::empty());
}

/// Polyphony limiting, seen at any group of the scan: from the position `i`
/// where a group starts, the output begins with the group's `max` highest
/// notes when it has more than `max`, else with the whole group, and goes on
/// from the first note after the group. A group over the limit keeps exactly
/// `max` notes, each at least as high as every note it drops.
pub proof fn lemma_limit_at_group(s: Seq<NoteEvent>, max: int, tol: int, i: int)
    requires
        0 < max,
        0 <= tol,
        0 <= i < s.len(),
    ensures
        ({
            let e = group_end(s, i, i, tol);
            let g = s.subrange(i, e + 1);
            &&& i <= e < s.len()
            &&& forall|k: int| i <= k <= e ==> #[trigger] s[k].start_ms <= s[i].start_ms + tol
            &&& e + 1 < s.len() ==> s[e + 1].start_ms > s[i].start_ms + tol
            &&& limit_from(s, max, tol, i) == (if g.len() > max {
                keep_highest(g, max)
            } else {
                g
            }) + limit_from(s, max, tol, e + 1)
            &&& g.len() > max ==> keep_highest(g, max).len() == max
            &&& g.len() > max ==> forall|a: int, b: int|
                0 <= a < g.len() && 0 <= b < g.len() && #[trigger] picks(g, max)[a] && !#[trigger] picks(g, max)[b]
                    ==> g[a].note >= g[b].note
        }),
{
    lemma_group_end(s, i, i, tol);
    lemma_group_window(s, i, i, tol);
    let e = group_end(s, i, i, tol);
    let g = s.subrange(i, e + 1);
    if g.len() > max {
        lemma_keep_highest(g, max);
    }
    if e + 1 >= s.len() {
        assert(limit_from(s, max, tol, e + 1) =~= Seq::<NoteEvent>::empty());
        assert(limit_from(s, max, tol, i) =~= (if g.len() > max {
            keep_highest(g, max)
        } else {
            g
        }) + Seq::<NoteEvent>::empty());
    }
}

proof fn lemma_group_window(s: Seq<NoteEvent>, first: int, j: int, tol: int)
    requires
        0 <= first <= j < s.len(),
        forall|k: int| first <= k <= j ==> #[trigger] s[k].start_ms <= s[first].start_ms + tol,
    ensures
        forall|k: int| first <= k <= group_end(s, first, j, tol) ==> #[trigger] s[k].start_ms <= s[first].start_ms + tol,
        group_end(s, first, j, tol) + 1 < s.len() ==> s[group_end(s, first, j, tol) + 1].start_ms > s[first].start_ms + tol,
    decreases s.len() - j,
{
    if j + 1 < s.len() && s[j + 1].start_ms <= s[first].start_ms + tol {
        assert forall|k: int| first <= k <= j + 1 implies #[trigger] s[k].start_ms <= s[first].start_ms + tol by {
            if k <= j {
            }
        }
        lemma_group_window(s, first, j + 1, tol);
    }
}

/// Append to `out` the `max` highest notes of `events[lo..=hi]`, in order.
fn keep_highest_into(events: &Vec<NoteEvent>, lo: usize, hi: usize, max: usize, out: &mut Vec<NoteEvent>)
    requires
        lo <= hi < events@.len(),
    ensures
        final(out)@ == old(out)@ + keep_highest(events@.subrange(lo as int, hi + 1), max as int),
{
    let ghost g = events@.subrange(lo as int, hi + 1);
    let total: usize = events.len();
    let n: usize = hi - lo + 1;
    let mut taken: Vec<bool> = Vec::new();
    while taken.len() < n
        invariant
            taken@.len() <= n,
            forall|k: int| 0 <= k < taken@.len() ==> !#[trigger] taken@[k],
        decreases n - taken@.len(),
    {
        taken.push(false);
    }
    assert(taken@ =~= picks(g, 0));
    let mut r: usize = 0;
    while r < max
        invariant
            g == events@.subrange(lo as int, hi + 1),
            lo <= hi < events@.len(),
            n == hi - lo + 1,
            n == g.len(),
            lo + n <= events@.len(),
            taken@ == picks(g, r as int),
            taken@.len() == n,
            r <= max,
        decreases max - r,
    {
        let mut b: usize = n;
        let mut k: usize = 0;
        while k < n
            invariant
                k <= n,
                n == g.len(),
                lo + n <= events@.len(),
                g == events@.subrange(lo as int, hi + 1),
                lo <= hi < events@.len(),
                n == hi - lo + 1,
                taken@.len() == n,
                b <= n,
                b < n ==> b < k,
                best_untaken(g, taken@, k as int) == if b == n { -1 } else { b as int },
            decreases n - k,
        {
            assert(g[k as int] == events@[lo + k]);
            if b < n {
                assert(g[b as int] == events@[lo + b]);
            }
            if !taken[k] && (b == n || events[lo + k].note > events[lo + b].note) {
                b = k;
            }
            k = k + 1;
        }
        if b < n {
            taken.set(b, true);
        }
        r = r + 1;
    }
    let ghost start = out@;
    let mut k: usize = 0;
    assert(g.subrange(0, 0) =~= Seq::<NoteEvent>::empty());
    while k < n
        invariant
            k <= n,
            n == g.len(),
            lo + n <= events@.len(),
            g == events@.subrange(lo as int, hi + 1),
            lo <= hi < events@.len(),
            n == hi - lo + 1,
            taken@.len() == n,
            taken@ == picks(g, max as int),
            out@ == start + kept(g.subrange(0, k as int), taken@.subrange(0, k as int)),
        decreases n - k,
    {
        assert(g.subrange(0, k + 1).drop_last() =~= g.subrange(0, k as int));
        assert(taken@.subrange(0, k + 1).drop_last() =~= taken@.subrange(0, k as int));
        assert(g[k as int] == events@[lo + k]);
        if taken[k] {
            out.push(events[lo + k]);
        }
        k = k + 1;
    }
    assert(g.subrange(0, n as int) =~= g);
    assert(taken@.subrange(0, n as int) =~= taken@);
}

/// Keep at most `max_notes` notes of each group of notes that start within
/// `tolerance_ms` of the group's first: the highest ones, in their order. A
/// limit of 0 changes nothing.
pub fn limit_polyphony(events: &mut Vec<NoteEvent>, max_notes: usize, tolerance_ms: u64)
    ensures
        final(events)@ == limited(old(events)@, max_notes as int, tolerance_ms as int),
{
    if max_notes == 0 || events.len() == 0 {
        return;
    }
    let len: usize = events.len();
    let ghost s = events@;
    let ghost tol = tolerance_ms as int;
    let mut out: Vec<NoteEvent> = Vec::new();
    let mut i: usize = 0;
    while i < events.len()
        invariant
            events@ == s,
            s.len() <= usize::MAX,
            max_notes > 0,
            tol == tolerance_ms,
            0 <= i <= s.len(),
            out@ + limit_from(s, max_notes as int, tol, i as int) == limit_from(s, max_notes as int, tol, 0),
        decreases s.len() - i,
    {
        let start = events[i].start_ms;
        let mut e: usize = i;
        while e + 1 < events.len() && events[e + 1].start_ms as u128 <= start as u128 + tolerance_ms as u128
            invariant
                events@ == s,
                s.len() <= usize::MAX,
                i <= e < s.len(),
                tol == tolerance_ms,
                start == s[i as int].start_ms,
                group_end(s, i as int, i as int, tol) == group_end(s, i as int, e as int, tol),
            decreases s.len() - e,
        {
            e = e + 1;
        }
        assert(group_end(s, i as int, e as int, tol) == e);
        let ghost before = out@;
        let ghost g = s.subrange(i as int, e + 1);
        if e - i + 1 > max_notes {
            keep_highest_into(events, i, e, max_notes, &mut out);
        } else {
            let mut k: usize = i;
            while k <= e
                invariant
                    events@ == s,
                    s.len() <= usize::MAX,
                    i <= k <= e + 1,
                    e < s.len(),
                    out@ == before + s.subrange(i as int, k as int),
                decreases e + 1 - k,
            {
                assert(s.subrange(i as int, k + 1) =~= s.subrange(i as int, k as int).push(s[k as int]));
                out.push(events[k]);
                k = k + 1;
            }
        }
        assert(before + limit_from(s, max_notes as int, tol, i as int) =~= out@ + limit_from(
            s,
            max_notes as int,
            tol,
            e + 1,
        ));
        i = e + 1;
    }
    assert(limit_from(s, max_notes as int, tol, i as int) =~= Seq::<NoteEvent>::empty());
    assert(out@ =~= limit_from(s, max_notes as int, tol, 0));
    *events = out;
}

} // verus!
