use vstd::prelude::*;

verus! {

/// Fixed-point unit of a knot value: `VALUE_ONE` stands for 1.0, the end of the sample.
pub const VALUE_ONE: u32 = 1_000_000_000;

/// A control point: `time` in grid steps, `value` a fixed-point fraction of `VALUE_ONE`.
#[derive(Clone, Copy, Debug, PartialEq, Eq, Structural)]
pub struct Knot {
    pub time: i64,
    pub value: u32,
    pub selected: bool,
}

/// Rounds `n / d` to the nearest integer, halves away from zero.
pub open spec fn round_div(n: int, d: int) -> int {
    if n >= 0 {
        (2 * n + d) / (2 * d)
    } else {
        -((-2 * n + d) / (2 * d))
    }
}

/// Snaps the raw time `raw_num / raw_den` bars to the nearest grid step of a
/// bar divided into `quantization` steps; `None` when that step does not fit an `i64`.
pub fn quantize(raw_num: i64, raw_den: u64, quantization: u32) -> (r: Option<i64>)
    requires
        raw_den > 0,
        quantization > 0,
    ensures
        r == (if i64::MIN <= round_div(raw_num * quantization, raw_den as int) <= i64::MAX {
            Some(round_div(raw_num * quantization, raw_den as int) as i64)
        } else {
            None::<i64>
        }),
{
    proof {
        let a = raw_num as int;
        let b = quantization as int;
        assert(-0x8000_0000_0000_0000_0000_0000 <= a * b <= 0x8000_0000_0000_0000_0000_0000) by (nonlinear_arith)
            requires
                -0x8000_0000_0000_0000 <= a <= 0x8000_0000_0000_0000,
                0 <= b <= 0x1_0000_0000,
        ;
    }
    let n: i128 = (raw_num as i128) * (quantization as i128);
    let d: i128 = raw_den as i128;
    let q: i128 = if n >= 0 {
        (2 * n + d) / (2 * d)
    } else {
        let m: i128 = -n;
        -((2 * m + d) / (2 * d))
    };
    if q < i64::MIN as i128 || q > i64::MAX as i128 {
        None
    } else {
        Some(q as i64)
    }
}


/// Clamps `x` into `[lo, hi]`; `lo` wins when the range is empty.
pub open spec fn clamp(x: int, lo: int, hi: int) -> int {
    if x < lo {
        lo
    } else if x > hi {
        hi
    } else {
        x
    }
}

/// Times strictly increase along the sequence.
pub open spec fn increasing(s: Seq<Knot>) -> bool {
    forall|i: int, j: int| 0 <= i < j < s.len() ==> #[trigger] s[i].time < #[trigger] s[j].time
}

/// Every value lies in `[0, VALUE_ONE]`.
pub open spec fn bounded(s: Seq<Knot>) -> bool {
    forall|i: int| 0 <= i < s.len() ==> #[trigger] s[i].value <= VALUE_ONE
}

/// A knot sequence whose first `guard` and last `guard` knots are sentinels:
/// sorted by time without duplicates, values in range, and room for the sentinels.
pub open spec fn seq_wf(s: Seq<Knot>, guard: int) -> bool {
    &&& guard >= 1
    &&& s.len() >= 2 * guard
    &&& increasing(s)
    &&& bounded(s)
}

/// `new` keeps the sentinel times of `old`, at both ends.
pub open spec fn sentinels_kept(old: Seq<Knot>, new: Seq<Knot>, guard: int) -> bool {
    &&& new.len() >= 2 * guard
    &&& forall|k: int|
        0 <= k < guard ==> #[trigger] new[k].time == old[k].time && new[new.len() - 1 - k].time
            == old[old.len() - 1 - k].time
}

/// First time open to edits: the last leading sentinel.
pub open spec fn first_time(s: Seq<Knot>, guard: int) -> int {
    s[guard - 1].time as int
}

/// Last time open to edits: the first trailing sentinel.
pub open spec fn last_time(s: Seq<Knot>, guard: int) -> int {
    s[s.len() - guard].time as int
}

/// An index whose time may change and which may be deleted.
pub open spec fn interior(s: Seq<Knot>, guard: int, i: int) -> bool {
    guard <= i < s.len() - guard
}

/// Value clamped into `[0, VALUE_ONE]`.
pub open spec fn clamp_value(v: int) -> u32 {
    clamp(v, 0, VALUE_ONE as int) as u32
}

/// Knot `i` after a move towards `(time, value)`: an interior knot's time is
/// clamped strictly between its neighbours, a sentinel's time stays; the value
/// is clamped into range; the selection stays.
pub open spec fn moved(s: Seq<Knot>, guard: int, i: int, time: int, value: int) -> Knot {
    Knot {
        time: if interior(s, guard, i) {
            clamp(time, s[i - 1].time + 1, s[i + 1].time - 1) as i64
        } else {
            s[i].time
        },
        value: clamp_value(value),
        selected: s[i].selected,
    }
}

/// Number of knots earlier than `t`, when `p` is that number.
pub open spec fn insert_point(s: Seq<Knot>, t: int, p: int) -> bool {
    &&& 0 <= p <= s.len()
    &&& forall|j: int| 0 <= j < p ==> #[trigger] s[j].time < t
    &&& p < s.len() ==> s[p].time >= t
}

/// The sequence after inserting `(t, v)` at `p`: the value of a knot at the
/// same time is overwritten, otherwise a new unselected knot goes in at `p`.
pub open spec fn inserted(s: Seq<Knot>, p: int, t: i64, v: u32) -> Seq<Knot> {
    if p < s.len() && s[p].time == t {
        s.update(p, Knot { time: t, value: clamp_value(v as int), selected: s[p].selected })
    } else {
        s.insert(p, Knot { time: t, value: clamp_value(v as int), selected: false })
    }
}

proof fn lemma_moved_wf(s: Seq<Knot>, guard: int, i: int, time: int, value: int)
    requires
        seq_wf(s, guard),
        0 <= i < s.len(),
    ensures
        seq_wf(s.update(i, moved(s, guard, i, time, value)), guard),
        sentinels_kept(s, s.update(i, moved(s, guard, i, time, value)), guard),
{
    let n = s.update(i, moved(s, guard, i, time, value));
    if interior(s, guard, i) {
        assert(s[i - 1].time < s[i].time < s[i + 1].time);
    }
    assert forall|a: int, b: int| 0 <= a < b < n.len() implies #[trigger] n[a].time < #[trigger] n[b].time by {
        if a == i && b > i + 1 {
            assert(s[i + 1].time < s[b].time);
        }
        if b == i && a < i - 1 {
            assert(s[a].time < s[i - 1].time);
        }
    }
}

/// Number of knots of `s` earlier than `t`.
pub open spec fn count_before(s: Seq<Knot>, t: int) -> int
    decreases s.len(),
{
    if s.len() == 0 {
        0
    } else {
        count_before(s.drop_last(), t) + if s.last().time < t {
            1int
        } else {
            0int
        }
    }
}

proof fn lemma_count_before(s: Seq<Knot>, t: int)
    requires
        increasing(s),
    ensures
        insert_point(s, t, count_before(s, t)),
        forall|p: int| #[trigger] insert_point(s, t, p) ==> p == count_before(s, t),
    decreases s.len(),
{
    if s.len() > 0 {
        let d = s.drop_last();
        assert(increasing(d)) by {
            assert forall|i: int, j: int| 0 <= i < j < d.len() implies #[trigger] d[i].time < #[trigger] d[j].time by {
                assert(s[i].time < s[j].time);
            }
        }
        lemma_count_before(d, t);
        let c = count_before(d, t);
        assert forall|j: int| 0 <= j < d.len() implies #[trigger] d[j] == s[j] by {}
        if s.last().time < t {
            assert(c == d.len()) by {
                if c < d.len() {
                    assert(d[c].time < s[s.len() - 1].time);
                }
            }
            assert forall|j: int| 0 <= j < c + 1 implies #[trigger] s[j].time < t by {
                if j < c {
                    assert(d[j].time < t);
                }
            }
        } else {
            assert forall|j: int| 0 <= j < c implies #[trigger] s[j].time < t by {
                assert(d[j].time < t);
            }
            if c < d.len() {
                assert(s[c] == d[c]);
            }
        }
    }
    let c = count_before(s, t);
    assert(insert_point(s, t, c));
    assert forall|p: int| #[trigger] insert_point(s, t, p) implies p == c by {
        if p < c {
            assert(s[p].time < t);
        }
        if c < p {
            assert(s[c].time < t);
        }
    }
}

/// Inserting at an editable time keeps a sequence well formed and its sentinels in place.
proof fn lemma_inserted_wf(s: Seq<Knot>, guard: int, t: i64, v: u32)
    requires
        seq_wf(s, guard),
        first_time(s, guard) <= t <= last_time(s, guard),
    ensures
        seq_wf(inserted(s, count_before(s, t as int), t, v), guard),
        sentinels_kept(s, inserted(s, count_before(s, t as int), t, v), guard),
{
    lemma_count_before(s, t as int);
    let p = count_before(s, t as int);
    let len = s.len();
    assert(guard - 1 <= p <= len - guard) by {
        if p < guard - 1 {
            assert(s[p].time < s[guard - 1].time);
        }
        if p > len - guard {
            assert(s[len - guard].time < t);
        }
    }
    let n = inserted(s, p, t, v);
    if !(p < len && s[p].time == t) {
        assert(p >= guard);
        assert forall|a: int, b: int| 0 <= a < b < n.len() implies #[trigger] n[a].time < #[trigger] n[b].time by {
            if a < p && b > p {
                assert(s[a].time < s[b - 1].time);
            }
            if a > p {
                assert(s[a - 1].time < s[b - 1].time);
            }
        }
        assert forall|k: int| 0 <= k < guard implies #[trigger] n[k].time == s[k].time && n[n.len() - 1 - k].time
            == s[s.len() - 1 - k].time by {
            assert(n[n.len() - 1 - k] == s[s.len() - 1 - k]);
        }
    }
}

/// Removing an interior knot keeps a sequence well formed and its sentinels in place.
proof fn lemma_removed_wf(s: Seq<Knot>, guard: int, i: int)
    requires
        seq_wf(s, guard),
        interior(s, guard, i),
    ensures
        seq_wf(s.remove(i), guard),
        sentinels_kept(s, s.remove(i), guard),
{
    let n = s.remove(i);
    assert forall|a: int, b: int| 0 <= a < b < n.len() implies #[trigger] n[a].time < #[trigger] n[b].time by {
        if a < i && b >= i {
            assert(s[a].time < s[b + 1].time);
        }
        if a >= i {
            assert(s[a + 1].time < s[b + 1].time);
        }
    }
    assert forall|j: int| 0 <= j < n.len() implies #[trigger] n[j].value <= VALUE_ONE by {
        if j >= i {
            assert(s[j + 1].value <= VALUE_ONE);
        }
    }
    assert forall|k: int| 0 <= k < guard implies #[trigger] n[k].time == s[k].time && n[n.len() - 1 - k].time
        == s[s.len() - 1 - k].time by {
        assert(n[n.len() - 1 - k] == s[s.len() - 1 - k]);
    }
}

/// One edit of a knot sequence.
pub enum KnotEdit {
    Insert { time: i64, value: u32 },
    Move { index: usize, to_time: i64, to_value: i64 },
    Delete { index: usize },
}

/// The sequence after one edit, as `insert_knot`, `move_knot` and
/// `delete_knot` perform it; a refused edit leaves it as it was.
pub open spec fn after_edit(s: Seq<Knot>, guard: int, e: KnotEdit) -> Seq<Knot> {
    match e {
        KnotEdit::Insert { time, value } => if first_time(s, guard) <= time <= last_time(s, guard) {
            inserted(s, count_before(s, time as int), time, value)
        } else {
            s
        },
        KnotEdit::Move { index, to_time, to_value } => if index < s.len() {
            s.update(index as int, moved(s, guard, index as int, to_time as int, to_value as int))
        } else {
            s
        },
        KnotEdit::Delete { index } => if interior(s, guard, index as int) {
            s.remove(index as int)
        } else {
            s
        },
    }
}

/// The sequence after a series of edits, first to last.
pub open spec fn after_edits(s: Seq<Knot>, guard: int, es: Seq<KnotEdit>) -> Seq<Knot>
    decreases es.len(),
{
    if es.len() == 0 {
        s
    } else {
        after_edit(after_edits(s, guard, es.drop_last()), guard, es.last())
    }
}

pub proof fn lemma_sentinels_trans(a: Seq<Knot>, b: Seq<Knot>, c: Seq<Knot>, guard: int)
    requires
        sentinels_kept(a, b, guard),
        sentinels_kept(b, c, guard),
    ensures
        sentinels_kept(a, c, guard),
{
    assert forall|k: int| 0 <= k < guard implies #[trigger] c[k].time == a[k].time && c[c.len() - 1 - k].time
        == a[a.len() - 1 - k].time by {
        assert(c[k].time == b[k].time);
        assert(b[k].time == a[k].time);
    }
}

/// After any series of inserts, moves and deletes, times still strictly
/// increase, and the sentinel knots are all still there with their times.
pub proof fn law_edits_keep_order(s: Seq<Knot>, guard: int, es: Seq<KnotEdit>)
    requires
        seq_wf(s, guard),
    ensures
        seq_wf(after_edits(s, guard, es), guard),
        increasing(after_edits(s, guard, es)),
        sentinels_kept(s, after_edits(s, guard, es), guard),
    decreases es.len(),
{
    if es.len() > 0 {
        law_edits_keep_order(s, guard, es.drop_last());
        let p = after_edits(s, guard, es.drop_last());
        let n = after_edits(s, guard, es);
        match es.last() {
            KnotEdit::Insert { time, value } => {
                if first_time(p, guard) <= time <= last_time(p, guard) {
                    lemma_inserted_wf(p, guard, time, value);
                }
            },
            KnotEdit::Move { index, to_time, to_value } => {
                if index < p.len() {
                    lemma_moved_wf(p, guard, index as int, to_time as int, to_value as int);
                }
            },
            KnotEdit::Delete { index } => {
                if interior(p, guard, index as int) {
                    lemma_removed_wf(p, guard, index as int);
                }
            },
        }
        assert(sentinels_kept(p, n, guard));
        lemma_sentinels_trans(s, p, n, guard);
        assert(sentinels_kept(s, n, guard));
    } else {
        assert(after_edits(s, guard, es) == s);
        assert(sentinels_kept(s, s, guard));
    }
}

/// Inserts a knot at grid time `time` with value `value` (clamped into range),
/// or overwrites the value of the knot already at that time. Refused, with
/// `None`, outside the editable range between the sentinels.
pub fn insert_knot(knots: &mut Vec<Knot>, guard: usize, time: i64, value: u32) -> (r: Option<usize>)
    requires
        seq_wf(old(knots)@, guard as int),
    ensures
        seq_wf(final(knots)@, guard as int),
        sentinels_kept(old(knots)@, final(knots)@, guard as int),
        r is Some <==> first_time(old(knots)@, guard as int) <= time <= last_time(
            old(knots)@,
            guard as int,
        ),
        r matches Some(p) ==> insert_point(old(knots)@, time as int, p as int) && p == count_before(
            old(knots)@,
            time as int,
        ) && final(knots)@ == inserted(old(knots)@, p as int, time, value),
        r is None ==> final(knots)@ == old(knots)@,
{
    let len = knots.len();
    if time < knots[guard - 1].time || time > knots[len - guard].time {
        return None;
    }
    let ghost s = knots@;
    let mut p: usize = 0;
    while p < len && knots[p].time < time
        invariant
            knots@ == s,
            len == s.len(),
            seq_wf(s, guard as int),
            first_time(s, guard as int) <= time <= last_time(s, guard as int),
            0 <= p <= len,
            forall|j: int| 0 <= j < p ==> #[trigger] s[j].time < time,
        decreases len - p,
    {
        p = p + 1;
    }
    proof {
        lemma_count_before(s, time as int);
        lemma_inserted_wf(s, guard as int, time, value);
    }
    let v: u32 = if value > VALUE_ONE { VALUE_ONE } else { value };
    if p < len && knots[p].time == time {
        let sel = knots[p].selected;
        knots.set(p, Knot { time, value: v, selected: sel });
    } else {
        knots.insert(p, Knot { time, value: v, selected: false });
    }
    Some(p)
}


/// Moves knot `index` towards `(time, value)`, as `moved` describes: the
/// sequence never reorders and sentinel times never change.
pub fn move_knot(knots: &mut Vec<Knot>, guard: usize, index: usize, time: i64, value: i64)
    requires
        seq_wf(old(knots)@, guard as int),
        index < old(knots)@.len(),
    ensures
        seq_wf(final(knots)@, guard as int),
        sentinels_kept(old(knots)@, final(knots)@, guard as int),
        final(knots)@ == old(knots)@.update(
            index as int,
            moved(old(knots)@, guard as int, index as int, time as int, value as int),
        ),
{
    place_knot(knots, guard, index, time as i128, value as i128);
}

fn place_knot(knots: &mut Vec<Knot>, guard: usize, index: usize, time: i128, value: i128)
    requires
        seq_wf(old(knots)@, guard as int),
        index < old(knots)@.len(),
    ensures
        seq_wf(final(knots)@, guard as int),
        sentinels_kept(old(knots)@, final(knots)@, guard as int),
        final(knots)@ == old(knots)@.update(
            index as int,
            moved(old(knots)@, guard as int, index as int, time as int, value as int),
        ),
{
    let ghost s = knots@;
    proof {
        lemma_moved_wf(s, guard as int, index as int, time as int, value as int);
    }
    let len = knots.len();
    let k = knots[index];
    let t: i64 = if guard <= index && index < len - guard {
        let lo = knots[index - 1].time;
        let hi = knots[index + 1].time;
        assert(lo < k.time < hi);
        if time < lo as i128 + 1 {
            lo + 1
        } else if time > hi as i128 - 1 {
            hi - 1
        } else {
            time as i64
        }
    } else {
        k.time
    };
    let v: u32 = if value < 0 {
        0
    } else if value > VALUE_ONE as i128 {
        VALUE_ONE
    } else {
        value as u32
    };
    knots.set(index, Knot { time: t, value: v, selected: k.selected });
}

/// Removes knot `index` when it is interior; a sentinel stays and `false` comes back.
pub fn delete_knot(knots: &mut Vec<Knot>, guard: usize, index: usize) -> (r: bool)
    requires
        seq_wf(old(knots)@, guard as int),
    ensures
        seq_wf(final(knots)@, guard as int),
        sentinels_kept(old(knots)@, final(knots)@, guard as int),
        r == interior(old(knots)@, guard as int, index as int),
        final(knots)@ == (if r {
            old(knots)@.remove(index as int)
        } else {
            old(knots)@
        }),
{
    let len = knots.len();
    if guard <= index && index < len - guard {
        proof {
            lemma_removed_wf(knots@, guard as int, index as int);
        }
        knots.remove(index);
        true
    } else {
        false
    }
}

/// The unselected knots of `s`.
pub open spec fn unselected(s: Seq<Knot>) -> Seq<Knot> {
    s.filter(|k: Knot| !k.selected)
}

/// `s` without its selected interior knots.
pub open spec fn without_selected(s: Seq<Knot>, guard: int) -> Seq<Knot> {
    s.subrange(0, guard) + unselected(s.subrange(guard, s.len() - guard)) + s.subrange(
        s.len() - guard,
        s.len() as int,
    )
}

/// Removes every selected interior knot; `true` when any was removed.
pub fn delete_selected(knots: &mut Vec<Knot>, guard: usize) -> (r: bool)
    requires
        seq_wf(old(knots)@, guard as int),
    ensures
        seq_wf(final(knots)@, guard as int),
        sentinels_kept(old(knots)@, final(knots)@, guard as int),
        final(knots)@ == without_selected(old(knots)@, guard as int),
        r == (final(knots)@.len() != old(knots)@.len()),
{
    let ghost s = knots@;
    let len = knots.len();
    let ghost mid = s.subrange(guard as int, len - guard);
    let mut out: Vec<Knot> = Vec::new();
    let mut i: usize = 0;
    while i < guard
        invariant
            knots@ == s,
            len == s.len(),
            seq_wf(s, guard as int),
            0 <= i <= guard,
            out@ == s.subrange(0, i as int),
        decreases guard - i,
    {
        out.push(knots[i]);
        i = i + 1;
        assert(out@ =~= s.subrange(0, i as int));
    }
    let ghost head = out@;
    let mut j: usize = guard;
    while j < len - guard
        invariant
            knots@ == s,
            len == s.len(),
            seq_wf(s, guard as int),
            guard <= j <= len - guard,
            mid == s.subrange(guard as int, len - guard),
            head == s.subrange(0, guard as int),
            out@ == head + unselected(mid.subrange(0, j - guard)),
            forall|a: int, b: int| 0 <= a < out@.len() && j <= b < len ==> #[trigger] out@[a].time < #[trigger] s[b].time,
            forall|a: int, b: int| 0 <= a < b < out@.len() ==> #[trigger] out@[a].time < #[trigger] out@[b].time,
            forall|a: int| 0 <= a < out@.len() ==> #[trigger] out@[a].value <= VALUE_ONE,
        decreases len - guard - j,
    {
        let ghost before = mid.subrange(0, j - guard);
        let k = knots[j];
        assert(mid.subrange(0, j + 1 - guard).drop_last() =~= before);
        assert(mid.subrange(0, j + 1 - guard).last() == k);
        reveal(Seq::filter);
        if !k.selected {
            out.push(k);
            assert(out@ =~= head + unselected(mid.subrange(0, j + 1 - guard)));
        } else {
            assert(out@ =~= head + unselected(mid.subrange(0, j + 1 - guard)));
        }
        j = j + 1;
        assert forall|a: int, b: int| 0 <= a < out@.len() && j <= b < len implies #[trigger] out@[a].time < #[trigger] s[b].time by {
            assert(s[j - 1].time < s[b].time);
        }
    }
    assert(mid.subrange(0, j - guard) =~= mid);
    let ghost body = out@;
    let mut m: usize = len - guard;
    while m < len
        invariant
            knots@ == s,
            len == s.len(),
            seq_wf(s, guard as int),
            len - guard <= m <= len,
            body == head + unselected(mid),
            head == s.subrange(0, guard as int),
            mid == s.subrange(guard as int, len - guard),
            out@ == body + s.subrange(len - guard, m as int),
            forall|a: int, b: int| 0 <= a < out@.len() && m <= b < len ==> #[trigger] out@[a].time < #[trigger] s[b].time,
            forall|a: int, b: int| 0 <= a < b < out@.len() ==> #[trigger] out@[a].time < #[trigger] out@[b].time,
            forall|a: int| 0 <= a < out@.len() ==> #[trigger] out@[a].value <= VALUE_ONE,
            out@.len() >= guard + m - (len - guard),
            forall|a: int| 0 <= a < guard ==> #[trigger] out@[a] == s[a],
        decreases len - m,
    {
        out.push(knots[m]);
        m = m + 1;
        assert(out@ =~= body + s.subrange(len - guard, m as int));
        assert forall|a: int, b: int| 0 <= a < out@.len() && m <= b < len implies #[trigger] out@[a].time < #[trigger] s[b].time by {
            assert(s[m - 1].time < s[b].time);
        }
    }
    let ghost n = out@;
    assert(n =~= without_selected(s, guard as int));
    assert forall|k: int| 0 <= k < guard implies #[trigger] n[k].time == s[k].time && n[n.len() - 1 - k].time
        == s[s.len() - 1 - k].time by {
        assert(n[n.len() - 1 - k] == s.subrange(len - guard, len as int)[guard - 1 - k]);
    }
    let changed = out.len() != len;
    *knots = out;
    changed
}


/// Knot `k` with its selection flipped.
pub open spec fn flipped(k: Knot) -> Knot {
    Knot { time: k.time, value: k.value, selected: !k.selected }
}

/// Knot `k` unselected.
pub open spec fn cleared(k: Knot) -> Knot {
    Knot { time: k.time, value: k.value, selected: false }
}

/// Whether a knot lies in the box `[t0, t1] x [v0, v1]`.
pub open spec fn in_box(k: Knot, t0: i64, t1: i64, v0: u32, v1: u32) -> bool {
    t0 <= k.time <= t1 && v0 <= k.value <= v1
}

proof fn lemma_same_times_wf(s: Seq<Knot>, n: Seq<Knot>, guard: int)
    requires
        seq_wf(s, guard),
        n.len() == s.len(),
        forall|i: int| 0 <= i < s.len() ==> (#[trigger] n[i]).time == s[i].time,
        bounded(n),
    ensures
        seq_wf(n, guard),
        sentinels_kept(s, n, guard),
{
    assert forall|a: int, b: int| 0 <= a < b < n.len() implies #[trigger] n[a].time < #[trigger] n[b].time by {
        assert(n[a].time == s[a].time && n[b].time == s[b].time);
    }
    assert forall|k: int| 0 <= k < guard implies #[trigger] n[k].time == s[k].time && n[n.len() - 1 - k].time
        == s[s.len() - 1 - k].time by {
        assert(n[n.len() - 1 - k].time == s[s.len() - 1 - k].time);
    }
}

/// Flips the selection of knot `index`.
pub fn toggle_select(knots: &mut Vec<Knot>, guard: usize, index: usize)
    requires
        seq_wf(old(knots)@, guard as int),
        index < old(knots)@.len(),
    ensures
        seq_wf(final(knots)@, guard as int),
        sentinels_kept(old(knots)@, final(knots)@, guard as int),
        final(knots)@ == old(knots)@.update(index as int, flipped(old(knots)@[index as int])),
{
    let k = knots[index];
    knots.set(index, Knot { time: k.time, value: k.value, selected: !k.selected });
    proof {
        lemma_same_times_wf(old(knots)@, knots@, guard as int);
    }
}

/// Unselects every knot; `true` when any was selected.
pub fn deselect_all(knots: &mut Vec<Knot>, guard: usize) -> (r: bool)
    requires
        seq_wf(old(knots)@, guard as int),
    ensures
        seq_wf(final(knots)@, guard as int),
        sentinels_kept(old(knots)@, final(knots)@, guard as int),
        final(knots)@ == old(knots)@.map_values(|k: Knot| cleared(k)),
        r == (final(knots)@ != old(knots)@),
{
    let ghost s = knots@;
    let len = knots.len();
    let mut any = false;
    let mut i: usize = 0;
    while i < len
        invariant
            len == s.len() == knots@.len(),
            0 <= i <= len,
            forall|j: int| 0 <= j < i ==> #[trigger] knots@[j] == cleared(s[j]),
            forall|j: int| i <= j < len ==> #[trigger] knots@[j] == s[j],
            any == exists|j: int| 0 <= j < i && #[trigger] s[j].selected,
        decreases len - i,
    {
        let k = knots[i];
        if k.selected {
            any = true;
        }
        knots.set(i, Knot { time: k.time, value: k.value, selected: false });
        i = i + 1;
    }
    assert(knots@ =~= s.map_values(|k: Knot| cleared(k)));
    proof {
        lemma_same_times_wf(s, knots@, guard as int);
        if any {
            let j = choose|j: int| 0 <= j < len && #[trigger] s[j].selected;
            assert(knots@[j] != s[j]);
        } else {
            assert forall|j: int| 0 <= j < len implies knots@[j] == s[j] by {
                assert(!s[j].selected);
            }
            assert(knots@ =~= s);
        }
    }
    any
}

/// Flips the selection of every knot in the box `[t0, t1] x [v0, v1]`;
/// `true` when any knot lies in it.
pub fn toggle_in_box(knots: &mut Vec<Knot>, guard: usize, t0: i64, t1: i64, v0: u32, v1: u32) -> (r: bool)
    requires
        seq_wf(old(knots)@, guard as int),
    ensures
        seq_wf(final(knots)@, guard as int),
        sentinels_kept(old(knots)@, final(knots)@, guard as int),
        final(knots)@ == old(knots)@.map_values(
            |k: Knot|
                if in_box(k, t0, t1, v0, v1) {
                    flipped(k)
                } else {
                    k
                },
        ),
        r == (final(knots)@ != old(knots)@),
{
    let ghost s = knots@;
    let len = knots.len();
    let mut any = false;
    let mut i: usize = 0;
    while i < len
        invariant
            len == s.len() == knots@.len(),
            0 <= i <= len,
            forall|j: int| 0 <= j < i ==> #[trigger] knots@[j] == (if in_box(s[j], t0, t1, v0, v1) {
                flipped(s[j])
            } else {
                s[j]
            }),
            forall|j: int| i <= j < len ==> #[trigger] knots@[j] == s[j],
            any == exists|j: int| 0 <= j < i && #[trigger] in_box(s[j], t0, t1, v0, v1),
        decreases len - i,
    {
        let k = knots[i];
        let inside = t0 <= k.time && k.time <= t1 && v0 <= k.value && k.value <= v1;
        assert(inside == in_box(s[i as int], t0, t1, v0, v1));
        if inside {
            any = true;
            knots.set(i, Knot { time: k.time, value: k.value, selected: !k.selected });
        }
        i = i + 1;
    }
    assert(knots@ =~= s.map_values(
        |k: Knot|
            if in_box(k, t0, t1, v0, v1) {
                flipped(k)
            } else {
                k
            },
    ));
    proof {
        lemma_same_times_wf(s, knots@, guard as int);
        if any {
            let j = choose|j: int| 0 <= j < len && #[trigger] in_box(s[j], t0, t1, v0, v1);
            assert(knots@[j] != s[j]);
        } else {
            assert(knots@ =~= s);
        }
    }
    any
}

/// Index visited at step `n` of a drag: right to left when moving right, so
/// that a knot never blocks its selected right neighbour, else left to right.
pub open spec fn drag_index(len: int, dt: int, n: int) -> int {
    if dt > 0 {
        len - 1 - n
    } else {
        n
    }
}

/// The sequence after the first `n` steps of dragging the selected knots of
/// `s` by `(dt, dv)` away from where `origin` has them.
pub open spec fn drag_steps(s: Seq<Knot>, origin: Seq<Knot>, guard: int, dt: int, dv: int, n: nat) -> Seq<Knot>
    decreases n,
{
    if n == 0 {
        s
    } else {
        let prev = drag_steps(s, origin, guard, dt, dv, (n - 1) as nat);
        let i = drag_index(s.len() as int, dt, n - 1);
        if prev[i].selected {
            prev.update(i, moved(prev, guard, i, origin[i].time + dt, origin[i].value + dv))
        } else {
            prev
        }
    }
}

proof fn lemma_drag_steps(s: Seq<Knot>, origin: Seq<Knot>, guard: int, dt: int, dv: int, n: nat)
    requires
        seq_wf(s, guard),
        origin.len() == s.len(),
        n <= s.len(),
    ensures
        seq_wf(drag_steps(s, origin, guard, dt, dv, n), guard),
        drag_steps(s, origin, guard, dt, dv, n).len() == s.len(),
        sentinels_kept(s, drag_steps(s, origin, guard, dt, dv, n), guard),
    decreases n,
{
    if n > 0 {
        let prev = drag_steps(s, origin, guard, dt, dv, (n - 1) as nat);
        lemma_drag_steps(s, origin, guard, dt, dv, (n - 1) as nat);
        let i = drag_index(s.len() as int, dt, n - 1);
        lemma_moved_wf(prev, guard, i, origin[i].time + dt, origin[i].value + dv);
    }
}

/// Drags every selected knot by `(dt, dv)` from its place in `origin`, the
/// sequence as the drag began; each step is a `moved`, so order is kept.
pub fn drag_selected(knots: &mut Vec<Knot>, origin: &Vec<Knot>, guard: usize, dt: i64, dv: i64)
    requires
        seq_wf(old(knots)@, guard as int),
        origin@.len() == old(knots)@.len(),
    ensures
        seq_wf(final(knots)@, guard as int),
        sentinels_kept(old(knots)@, final(knots)@, guard as int),
        final(knots)@.len() == old(knots)@.len(),
        final(knots)@ == drag_steps(
            old(knots)@,
            origin@,
            guard as int,
            dt as int,
            dv as int,
            old(knots)@.len() as nat,
        ),
{
    let ghost s = knots@;
    let len = knots.len();
    let mut n: usize = 0;
    while n < len
        invariant
            len == s.len() == origin@.len(),
            seq_wf(s, guard as int),
            0 <= n <= len,
            knots@ == drag_steps(s, origin@, guard as int, dt as int, dv as int, n as nat),
        decreases len - n,
    {
        proof {
            lemma_drag_steps(s, origin@, guard as int, dt as int, dv as int, n as nat);
        }
        let i: usize = if dt > 0 { len - 1 - n } else { n };
        if knots[i].selected {
            let o = origin[i];
            place_knot(knots, guard, i, o.time as i128 + dt as i128, o.value as i128 + dv as i128);
        }
        n = n + 1;
    }
    proof {
        lemma_drag_steps(s, origin@, guard as int, dt as int, dv as int, len as nat);
    }
}

/// Both end sentinels carry the value of their inner neighbour.
pub open spec fn is_aligned(s: Seq<Knot>) -> bool {
    s.len() >= 2 ==> s[0].value == s[1].value && s[s.len() - 1].value == s[s.len() - 2].value
}

/// `s` with its end sentinels given the values of their inner neighbours.
pub open spec fn aligned(s: Seq<Knot>) -> Seq<Knot> {
    if s.len() >= 2 {
        let t = s.update(0, Knot { time: s[0].time, value: s[1].value, selected: s[0].selected });
        t.update(
            s.len() - 1,
            Knot { time: s[s.len() - 1].time, value: t[s.len() - 2].value, selected: s[s.len() - 1].selected },
        )
    } else {
        s
    }
}

/// Gives the two end sentinels the values of their inner neighbours.
pub fn align_ends(knots: &mut Vec<Knot>, guard: usize)
    requires
        seq_wf(old(knots)@, guard as int),
    ensures
        seq_wf(final(knots)@, guard as int),
        sentinels_kept(old(knots)@, final(knots)@, guard as int),
        final(knots)@ == aligned(old(knots)@),
        final(knots)@.len() == old(knots)@.len(),
        is_aligned(final(knots)@),
{
    let len = knots.len();
    let a = knots[0];
    let b = knots[1];
    knots.set(0, Knot { time: a.time, value: b.value, selected: a.selected });
    let y = knots[len - 1];
    let x = knots[len - 2];
    knots.set(len - 1, Knot { time: y.time, value: x.value, selected: y.selected });
    proof {
        lemma_same_times_wf(old(knots)@, knots@, guard as int);
    }
}


/// Whether `knots` is a well-formed sequence with `guard` sentinels at each end.
pub fn is_well_formed(knots: &Vec<Knot>, guard: usize) -> (r: bool)
    ensures
        r == seq_wf(knots@, guard as int),
{
    let len = knots.len();
    if guard < 1 || len / 2 < guard {
        return false;
    }
    let mut i: usize = 0;
    while i < len
        invariant
            len == knots@.len(),
            0 <= i <= len,
            forall|a: int, b: int| 0 <= a < b < i ==> #[trigger] knots@[a].time < #[trigger] knots@[b].time,
            forall|a: int| 0 <= a < i ==> #[trigger] knots@[a].value <= VALUE_ONE,
        decreases len - i,
    {
        if knots[i].value > VALUE_ONE {
            return false;
        }
        if i > 0 && knots[i - 1].time >= knots[i].time {
            return false;
        }
        proof {
            if i > 0 {
                assert forall|a: int| 0 <= a < i implies #[trigger] knots@[a].time < knots@[i as int].time by {
                    if a < i - 1 {
                        assert(knots@[a].time < knots@[i - 1].time);
                    }
                }
            }
        }
        i = i + 1;
    }
    true
}

} // verus!
