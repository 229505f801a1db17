use vstd::prelude::*;

use crate::knot::{aligned, is_aligned, is_well_formed, lemma_sentinels_trans, sentinels_kept, seq_wf, Knot};

verus! {

/// The knots of both curves: the cut curve and the fader (gate) curve.
pub struct Curves {
    pub cut: Seq<Knot>,
    pub fader: Seq<Knot>,
}

/// Both curves are well formed: two sentinels at each end of the cut curve,
/// one at each end of the fader, and the cut's end sentinels aligned.
pub open spec fn curves_wf(c: Curves) -> bool {
    &&& seq_wf(c.cut, 2)
    &&& seq_wf(c.fader, 1)
    &&& is_aligned(c.cut)
}

/// What one checkpoint restores, as a mathematical value.
pub enum Entry {
    CutSnapshot(Seq<Knot>),
    FaderSnapshot(Seq<Knot>),
    CutKnotDelta(int, Knot),
    FaderKnotDelta(int, Knot),
}

/// A recorded prior state: a whole curve, or one knot of it at an index.
pub enum Checkpoint {
    CutSnapshot(Vec<Knot>),
    FaderSnapshot(Vec<Knot>),
    CutKnotDelta { index: usize, knot: Knot },
    FaderKnotDelta { index: usize, knot: Knot },
}

impl View for Checkpoint {
    type V = Entry;

    open spec fn view(&self) -> Entry {
        match self {
            Checkpoint::CutSnapshot(v) => Entry::CutSnapshot(v@),
            Checkpoint::FaderSnapshot(v) => Entry::FaderSnapshot(v@),
            Checkpoint::CutKnotDelta { index, knot } => Entry::CutKnotDelta(*index as int, *knot),
            Checkpoint::FaderKnotDelta { index, knot } => Entry::FaderKnotDelta(*index as int, *knot),
        }
    }
}

/// The entries of a group of checkpoints.
pub open spec fn group_view(g: Seq<Checkpoint>) -> Seq<Entry> {
    g.map_values(|e: Checkpoint| e@)
}

/// The groups of a stack of checkpoint groups, oldest first.
pub open spec fn stack_view(st: Seq<Vec<Checkpoint>>) -> Seq<Seq<Entry>> {
    st.map_values(|g: Vec<Checkpoint>| group_view(g@))
}

/// Whether the cut knot delta `(i, k)` may be restored onto `s`: the index
/// lies in the curve and the result, aligned, is well formed with the same
/// sentinel times.
pub open spec fn cut_delta_applies(s: Seq<Knot>, i: int, k: Knot) -> bool {
    &&& 0 <= i < s.len()
    &&& seq_wf(aligned(s.update(i, k)), 2)
    &&& sentinels_kept(s, aligned(s.update(i, k)), 2)
}

/// Whether the fader knot delta `(i, k)` may be restored onto `s`.
pub open spec fn fader_delta_applies(s: Seq<Knot>, i: int, k: Knot) -> bool {
    &&& 0 <= i < s.len()
    &&& seq_wf(s.update(i, k), 1)
    &&& sentinels_kept(s, s.update(i, k), 1)
}

/// Restoring one entry. The cut curve's end sentinels are aligned again after
/// it. A knot delta that would put knots out of order, move a sentinel, or
/// whose index lies outside its curve, restores nothing.
pub open spec fn apply_entry(s: Curves, e: Entry) -> Curves {
    match e {
        Entry::CutSnapshot(v) => Curves { cut: aligned(v), fader: s.fader },
        Entry::FaderSnapshot(v) => Curves { cut: s.cut, fader: v },
        Entry::CutKnotDelta(i, k) => if cut_delta_applies(s.cut, i, k) {
            Curves { cut: aligned(s.cut.update(i, k)), fader: s.fader }
        } else {
            s
        },
        Entry::FaderKnotDelta(i, k) => if fader_delta_applies(s.fader, i, k) {
            Curves { cut: s.cut, fader: s.fader.update(i, k) }
        } else {
            s
        },
    }
}

/// The entry that takes `apply_entry(s, e)` back to `s`.
pub open spec fn invert_entry(s: Curves, e: Entry) -> Entry {
    match e {
        Entry::CutSnapshot(_) => Entry::CutSnapshot(s.cut),
        Entry::FaderSnapshot(_) => Entry::FaderSnapshot(s.fader),
        Entry::CutKnotDelta(i, k) => if cut_delta_applies(s.cut, i, k) {
            Entry::CutKnotDelta(i, s.cut[i])
        } else {
            e
        },
        Entry::FaderKnotDelta(i, k) => if fader_delta_applies(s.fader, i, k) {
            Entry::FaderKnotDelta(i, s.fader[i])
        } else {
            e
        },
    }
}

/// An entry fit to be kept in a history: a snapshot is a well-formed curve
/// (a cut snapshot aligned too); a knot delta checks itself when restored.
/// Fitness does not depend on the curves `f` it is kept beside.
pub open spec fn entry_ok(e: Entry, f: Curves) -> bool {
    match e {
        Entry::CutSnapshot(v) => seq_wf(v, 2) && is_aligned(v),
        Entry::FaderSnapshot(v) => seq_wf(v, 1),
        _ => true,
    }
}

/// Every entry of the group is fit for curves with the sentinel times of `f`.
pub open spec fn group_ok(g: Seq<Entry>, f: Curves) -> bool {
    forall|j: int| 0 <= j < g.len() ==> entry_ok(#[trigger] g[j], f)
}

/// Every group of the stack is fit for curves with the sentinel times of `f`.
pub open spec fn stack_ok(st: Seq<Seq<Entry>>, f: Curves) -> bool {
    forall|i: int| 0 <= i < st.len() ==> group_ok(#[trigger] st[i], f)
}

/// Restoring a group: its entries in order, first to last.
pub open spec fn apply_group(s: Curves, g: Seq<Entry>) -> Curves
    decreases g.len(),
{
    if g.len() == 0 {
        s
    } else {
        apply_entry(apply_group(s, g.drop_last()), g.last())
    }
}

/// The group that takes `apply_group(s, g)` back to `s`: the inverse of each
/// entry, last entry first.
pub open spec fn invert_group(s: Curves, g: Seq<Entry>) -> Seq<Entry>
    decreases g.len(),
{
    if g.len() == 0 {
        Seq::empty()
    } else {
        seq![invert_entry(apply_group(s, g.drop_last()), g.last())] + invert_group(s, g.drop_last())
    }
}

pub proof fn lemma_aligned_fixed(s: Seq<Knot>)
    requires
        is_aligned(s),
    ensures
        aligned(s) == s,
{
    if s.len() >= 2 {
        assert(aligned(s) =~= s);
    }
}

/// Keeping sentinel times goes both ways.
pub proof fn lemma_kept_sym(a: Seq<Knot>, b: Seq<Knot>, guard: int)
    requires
        sentinels_kept(a, b, guard),
        a.len() >= 2 * guard,
    ensures
        sentinels_kept(b, a, guard),
{
    assert forall|k: int| 0 <= k < guard implies #[trigger] a[k].time == b[k].time && a[a.len() - 1 - k].time
        == b[b.len() - 1 - k].time by {
        assert(b[k].time == a[k].time);
    }
}

proof fn lemma_entry_ok_moves(e: Entry, a: Curves, b: Curves)
    requires
        entry_ok(e, a),
    ensures
        entry_ok(e, b),
{
}

proof fn lemma_group_ok_moves(g: Seq<Entry>, a: Curves, b: Curves)
    requires
        group_ok(g, a),
    ensures
        group_ok(g, b),
{
    assert forall|j: int| 0 <= j < g.len() implies entry_ok(#[trigger] g[j], b) by {
        lemma_entry_ok_moves(g[j], a, b);
    }
}

/// A stack fit beside `a` is fit beside any curves.
pub proof fn lemma_stack_ok_moves(st: Seq<Seq<Entry>>, a: Curves, b: Curves)
    requires
        stack_ok(st, a),
    ensures
        stack_ok(st, b),
{
    assert forall|i: int| 0 <= i < st.len() implies group_ok(#[trigger] st[i], b) by {
        lemma_group_ok_moves(st[i], a, b);
    }
}

/// Restoring a fit entry onto well-formed curves gives well-formed curves.
pub proof fn lemma_apply_entry_wf(s: Curves, e: Entry)
    requires
        curves_wf(s),
        entry_ok(e, s),
    ensures
        curves_wf(apply_entry(s, e)),
{
    match e {
        Entry::CutSnapshot(v) => {
            lemma_aligned_fixed(v);
        },
        _ => {},
    }
}

/// Restoring a fit group onto well-formed curves gives well-formed curves.
pub proof fn lemma_apply_group_wf(s: Curves, g: Seq<Entry>)
    requires
        curves_wf(s),
        group_ok(g, s),
    ensures
        curves_wf(apply_group(s, g)),
    decreases g.len(),
{
    if g.len() > 0 {
        let d = g.drop_last();
        assert(group_ok(d, s)) by {
            assert forall|j: int| 0 <= j < d.len() implies entry_ok(#[trigger] d[j], s) by {
                assert(d[j] == g[j]);
            }
        }
        lemma_apply_group_wf(s, d);
        let p = apply_group(s, d);
        assert(entry_ok(g[g.len() - 1], s));
        lemma_entry_ok_moves(g.last(), s, p);
        lemma_apply_entry_wf(p, g.last());
    }
}

/// Restoring a fit entry and then its inverse gives back the curves, and the
/// inverse is fit for the curves it is restored onto.
#[verifier::rlimit(60)]
pub proof fn lemma_entry_round_trip(s: Curves, e: Entry)
    requires
        curves_wf(s),
        entry_ok(e, s),
    ensures
        apply_entry(apply_entry(s, e), invert_entry(s, e)) == s,
        entry_ok(invert_entry(s, e), apply_entry(s, e)),
{
    lemma_aligned_fixed(s.cut);
    lemma_apply_entry_wf(s, e);
    let t = apply_entry(s, e);
    match e {
        Entry::CutSnapshot(v) => {},
        Entry::FaderSnapshot(v) => {
            assert(apply_entry(t, invert_entry(s, e)) =~= s);
        },
        Entry::CutKnotDelta(i, k) => {
            if cut_delta_applies(s.cut, i, k) {
                lemma_kept_sym(s.cut, t.cut, 2);
                let w = t.cut.update(i, s.cut[i]);
                assert(aligned(w) =~= s.cut);
                assert(cut_delta_applies(t.cut, i, s.cut[i]));
            }
        },
        Entry::FaderKnotDelta(i, k) => {
            if fader_delta_applies(s.fader, i, k) {
                lemma_kept_sym(s.fader, t.fader, 1);
                assert(t.fader.update(i, s.fader[i]) =~= s.fader);
                assert(fader_delta_applies(t.fader, i, s.fader[i]));
            }
        },
    }
}

/// Restoring a group leading with `a` is restoring `a`, then the rest.
proof fn lemma_apply_cons(s: Curves, a: Entry, rest: Seq<Entry>)
    ensures
        apply_group(s, seq![a] + rest) == apply_group(apply_entry(s, a), rest),
    decreases rest.len(),
{
    if rest.len() == 0 {
        assert((seq![a] + rest).drop_last() =~= Seq::<Entry>::empty());
        assert((seq![a] + rest).last() == a);
        assert(apply_group(s, Seq::<Entry>::empty()) == s);
    } else {
        assert((seq![a] + rest).drop_last() =~= seq![a] + rest.drop_last());
        assert((seq![a] + rest).last() == rest.last());
        lemma_apply_cons(s, a, rest.drop_last());
    }
}

/// Restoring a fit group and then its inverse gives back the curves, and the
/// inverse is fit for the curves it is restored onto.
pub proof fn lemma_group_round_trip(s: Curves, g: Seq<Entry>)
    requires
        curves_wf(s),
        group_ok(g, s),
    ensures
        apply_group(apply_group(s, g), invert_group(s, g)) == s,
        group_ok(invert_group(s, g), apply_group(s, g)),
    decreases g.len(),
{
    if g.len() > 0 {
        let d = g.drop_last();
        assert(group_ok(d, s)) by {
            assert forall|j: int| 0 <= j < d.len() implies entry_ok(#[trigger] d[j], s) by {
                assert(d[j] == g[j]);
            }
        }
        let prev = apply_group(s, d);
        let t = apply_group(s, g);
        lemma_apply_group_wf(s, d);
        assert(entry_ok(g[g.len() - 1], s));
        lemma_entry_ok_moves(g.last(), s, prev);
        lemma_entry_round_trip(prev, g.last());
        lemma_apply_entry_wf(prev, g.last());
        let a = invert_entry(prev, g.last());
        let rest = invert_group(s, d);
        lemma_apply_cons(t, a, rest);
        lemma_group_round_trip(s, d);
        lemma_group_ok_moves(rest, prev, t);
        assert(invert_group(s, g) == seq![a] + rest);
        assert forall|j: int| 0 <= j < invert_group(s, g).len() implies entry_ok(
            #[trigger] invert_group(s, g)[j],
            t,
        ) by {
            if j > 0 {
                assert(invert_group(s, g)[j] == rest[j - 1]);
            }
        }
    }
}

/// An editing history: the present curves, the undo groups (newest last) and
/// the redo groups (newest last).
pub struct History {
    pub now: Curves,
    pub undo: Seq<Seq<Entry>>,
    pub redo: Seq<Seq<Entry>>,
}

/// The present curves are well formed, and every group on either stack is
/// fit, so that undo and redo only ever reach well-formed curves.
pub open spec fn history_wf(h: History) -> bool {
    &&& curves_wf(h.now)
    &&& stack_ok(h.undo, h.now)
    &&& stack_ok(h.redo, h.now)
}

/// One undo: the newest undo group is restored, and its inverse becomes the
/// newest redo group. Nothing happens when there is nothing to undo.
pub open spec fn undone(h: History) -> History {
    if h.undo.len() == 0 {
        h
    } else {
        History {
            now: apply_group(h.now, h.undo.last()),
            undo: h.undo.drop_last(),
            redo: h.redo.push(invert_group(h.now, h.undo.last())),
        }
    }
}

/// One redo: the newest redo group is restored and leaves the redo stack;
/// the undo stack stays as it is. Nothing happens when there is nothing to redo.
pub open spec fn redone(h: History) -> History {
    if h.redo.len() == 0 {
        h
    } else {
        History { now: apply_group(h.now, h.redo.last()), undo: h.undo, redo: h.redo.drop_last() }
    }
}

/// `new` is `old` after one recorded edit: one group pushed that restores the
/// curves of `old`, and the redo stack cleared.
pub open spec fn records(old: History, new: History) -> bool {
    &&& new.undo.len() == old.undo.len() + 1
    &&& new.undo.drop_last() == old.undo
    &&& apply_group(new.now, new.undo.last()) == old.now
    &&& new.redo.len() == 0
}

/// `n` undos in a row.
pub open spec fn undo_n(h: History, n: nat) -> History
    decreases n,
{
    if n == 0 {
        h
    } else {
        undo_n(undone(h), (n - 1) as nat)
    }
}

/// `n` redos in a row.
pub open spec fn redo_n(h: History, n: nat) -> History
    decreases n,
{
    if n == 0 {
        h
    } else {
        redo_n(redone(h), (n - 1) as nat)
    }
}

proof fn lemma_stack_parts(st: Seq<Seq<Entry>>, f: Curves)
    requires
        stack_ok(st, f),
        st.len() > 0,
    ensures
        stack_ok(st.drop_last(), f),
        group_ok(st.last(), f),
{
    assert(group_ok(st[st.len() - 1], f));
    assert forall|i: int| 0 <= i < st.drop_last().len() implies group_ok(#[trigger] st.drop_last()[i], f) by {
        assert(st.drop_last()[i] == st[i]);
    }
}

proof fn lemma_stack_push(st: Seq<Seq<Entry>>, g: Seq<Entry>, f: Curves)
    requires
        stack_ok(st, f),
        group_ok(g, f),
    ensures
        stack_ok(st.push(g), f),
{
    assert forall|i: int| 0 <= i < st.push(g).len() implies group_ok(#[trigger] st.push(g)[i], f) by {
        if i < st.len() {
            assert(st.push(g)[i] == st[i]);
        }
    }
}

/// Undo keeps a history well formed and the sentinel times in place.
pub proof fn lemma_undone_wf(h: History)
    requires
        history_wf(h),
    ensures
        history_wf(undone(h)),
{
    if h.undo.len() > 0 {
        let g = h.undo.last();
        lemma_stack_parts(h.undo, h.now);
        lemma_apply_group_wf(h.now, g);
        lemma_group_round_trip(h.now, g);
        let n = apply_group(h.now, g);
        lemma_stack_ok_moves(h.undo.drop_last(), h.now, n);
        lemma_stack_ok_moves(h.redo, h.now, n);
        lemma_stack_push(h.redo, invert_group(h.now, g), n);
    }
}

/// Redo keeps a history well formed and the sentinel times in place.
pub proof fn lemma_redone_wf(h: History)
    requires
        history_wf(h),
    ensures
        history_wf(redone(h)),
{
    if h.redo.len() > 0 {
        let g = h.redo.last();
        lemma_stack_parts(h.redo, h.now);
        lemma_apply_group_wf(h.now, g);
        let n = apply_group(h.now, g);
        lemma_stack_ok_moves(h.redo.drop_last(), h.now, n);
        lemma_stack_ok_moves(h.undo, h.now, n);
    }
}

/// A recorded edit from a well-formed history, to well-formed curves with a
/// fit group, keeps the history well formed.
pub proof fn lemma_records_wf(old: History, new: History)
    requires
        history_wf(old),
        curves_wf(new.now),
        group_ok(new.undo.last(), new.now),
        records(old, new),
    ensures
        history_wf(new),
{
    lemma_stack_ok_moves(old.undo, old.now, new.now);
    lemma_stack_push(old.undo, new.undo.last(), new.now);
    assert(new.undo =~= old.undo.push(new.undo.last()));
}

proof fn lemma_redo_n_last(h: History, n: nat)
    ensures
        redo_n(h, n + 1) == redone(redo_n(h, n)),
    decreases n,
{
    if n == 0 {
        assert(redo_n(redone(h), 0) == redone(h));
    } else {
        lemma_redo_n_last(redone(h), (n - 1) as nat);
        assert(redo_n(h, n) == redo_n(redone(h), (n - 1) as nat));
        assert(redo_n(h, n + 1) == redo_n(redone(h), n));
    }
}

proof fn lemma_undo_n_ignores_redo(h: History, r: Seq<Seq<Entry>>, n: nat)
    ensures
        undo_n(h, n).now == undo_n(History { now: h.now, undo: h.undo, redo: r }, n).now,
        undo_n(h, n).undo == undo_n(History { now: h.now, undo: h.undo, redo: r }, n).undo,
    decreases n,
{
    if n > 0 {
        let h2 = History { now: h.now, undo: h.undo, redo: r };
        lemma_undo_n_ignores_redo(undone(h), undone(h2).redo, (n - 1) as nat);
        assert(undone(h2) == History { now: undone(h).now, undo: undone(h).undo, redo: undone(h2).redo });
    }
}

/// `n` undos followed by `n` redos bring back the present curves and the redo stack.
pub proof fn lemma_undo_n_redo_n(h: History, n: nat)
    requires
        history_wf(h),
        n <= h.undo.len(),
    ensures
        redo_n(undo_n(h, n), n).now == h.now,
        redo_n(undo_n(h, n), n).redo == h.redo,
    decreases n,
{
    if n > 0 {
        let h1 = undone(h);
        lemma_undone_wf(h);
        lemma_undo_n_redo_n(h1, (n - 1) as nat);
        let x = undo_n(h1, (n - 1) as nat);
        let y = redo_n(x, (n - 1) as nat);
        lemma_redo_n_last(x, (n - 1) as nat);
        let g = h.undo.last();
        lemma_stack_parts(h.undo, h.now);
        lemma_group_round_trip(h.now, g);
        assert(y.redo.last() == invert_group(h.now, g));
        assert(y.redo.drop_last() =~= h.redo);
    }
}

/// The undo half of the round trip: after the recorded edits that lead from
/// `hs[0]` to `hs.last()`, as many undos bring back the curves of `hs[0]`.
proof fn lemma_undo_edits(hs: Seq<History>)
    requires
        hs.len() >= 1,
        forall|i: int| 0 < i < hs.len() ==> records(hs[i - 1], #[trigger] hs[i]),
    ensures
        undo_n(hs.last(), (hs.len() - 1) as nat).now == hs[0].now,
    decreases hs.len(),
{
    if hs.len() > 1 {
        let n = (hs.len() - 1) as nat;
        let prev = hs.drop_last();
        assert forall|i: int| 0 < i < prev.len() implies records(prev[i - 1], #[trigger] prev[i]) by {
            assert(records(hs[i - 1], hs[i]));
        }
        lemma_undo_edits(prev);
        let h = hs.last();
        let p = hs[hs.len() - 2];
        assert(records(p, h));
        let u = undone(h);
        assert(u.now == p.now && u.undo =~= p.undo);
        lemma_undo_n_ignores_redo(p, u.redo, (n - 1) as nat);
        assert(History { now: p.now, undo: p.undo, redo: u.redo } == u);
    }
}

proof fn lemma_undo_len(hs: Seq<History>)
    requires
        hs.len() >= 1,
        forall|i: int| 0 < i < hs.len() ==> records(hs[i - 1], #[trigger] hs[i]),
    ensures
        hs.last().undo.len() == hs[0].undo.len() + hs.len() - 1,
    decreases hs.len(),
{
    if hs.len() > 1 {
        let prev = hs.drop_last();
        assert forall|i: int| 0 < i < prev.len() implies records(prev[i - 1], #[trigger] prev[i]) by {
            assert(records(hs[i - 1], hs[i]));
        }
        lemma_undo_len(prev);
        assert(records(hs[hs.len() - 2], hs[hs.len() - 1]));
    }
}

/// Undo/redo round trip: after any `n` recorded edits, `n` undos bring back
/// the curves from before the first edit, and `n` redos after them bring back
/// the curves after the last edit, knot for knot.
pub proof fn law_undo_redo_round_trip(hs: Seq<History>)
    requires
        hs.len() >= 1,
        forall|i: int| 0 <= i < hs.len() ==> history_wf(#[trigger] hs[i]),
        forall|i: int| 0 < i < hs.len() ==> records(hs[i - 1], #[trigger] hs[i]),
    ensures
        undo_n(hs.last(), (hs.len() - 1) as nat).now == hs[0].now,
        redo_n(undo_n(hs.last(), (hs.len() - 1) as nat), (hs.len() - 1) as nat).now == hs.last().now,
{
    lemma_undo_edits(hs);
    let n = (hs.len() - 1) as nat;
    let h = hs.last();
    assert(h == hs[hs.len() - 1]);
    assert(history_wf(h));
    assert(n <= h.undo.len()) by {
        lemma_undo_len(hs);
    }
    lemma_undo_n_redo_n(h, n);
}

/// A copy of the knots.
pub fn copy_knots(v: &Vec<Knot>) -> (r: Vec<Knot>)
    ensures
        r@ == v@,
{
    let mut r: Vec<Knot> = Vec::new();
    let mut i: usize = 0;
    while i < v.len()
        invariant
            0 <= i <= v@.len(),
            r@ == v@.subrange(0, i as int),
        decreases v@.len() - i,
    {
        r.push(v[i]);
        i = i + 1;
        assert(r@ =~= v@.subrange(0, i as int));
    }
    assert(r@ =~= v@);
    r
}

/// Gives the end knots the values of their inner neighbours, on any sequence.
pub fn align_values(v: &mut Vec<Knot>)
    ensures
        final(v)@ == aligned(old(v)@),
{
    let len = v.len();
    if len >= 2 {
        let a = v[0];
        let b = v[1];
        v.set(0, Knot { time: a.time, value: b.value, selected: a.selected });
        let y = v[len - 1];
        let x = v[len - 2];
        v.set(len - 1, Knot { time: y.time, value: x.value, selected: y.selected });
    }
}

/// Whether `b` has the sentinel times of `a`, where `a` has room for them.
pub fn same_ends(a: &Vec<Knot>, b: &Vec<Knot>, guard: usize) -> (r: bool)
    requires
        a@.len() >= 2 * guard,
    ensures
        r == sentinels_kept(a@, b@, guard as int),
{
    let la = a.len();
    let lb = b.len();
    if lb / 2 < guard {
        return false;
    }
    let mut k: usize = 0;
    while k < guard
        invariant
            la == a@.len() >= 2 * guard,
            lb == b@.len() >= 2 * guard,
            0 <= k <= guard,
            forall|j: int| 0 <= j < k ==> ends_agree(a@, b@, j),
        decreases guard - k,
    {
        if b[k].time != a[k].time || b[lb - 1 - k].time != a[la - 1 - k].time {
            assert(!ends_agree(a@, b@, k as int));
            return false;
        }
        assert(ends_agree(a@, b@, k as int));
        k = k + 1;
    }
    proof {
        lemma_ends_agree(a@, b@, guard as int);
    }
    true
}

proof fn lemma_ends_agree(a: Seq<Knot>, b: Seq<Knot>, guard: int)
    requires
        b.len() >= 2 * guard,
        forall|j: int| 0 <= j < guard ==> ends_agree(a, b, j),
    ensures
        sentinels_kept(a, b, guard),
{
    assert forall|k: int| 0 <= k < guard implies #[trigger] b[k].time == a[k].time && b[b.len() - 1 - k].time
        == a[a.len() - 1 - k].time by {
        assert(ends_agree(a, b, k));
    }
}

/// `a` and `b` have the same time `j` knots from either end.
pub open spec fn ends_agree(a: Seq<Knot>, b: Seq<Knot>, j: int) -> bool {
    b[j].time == a[j].time && b[b.len() - 1 - j].time == a[a.len() - 1 - j].time
}

/// Restores one fit checkpoint onto well-formed curves and returns its inverse.
pub fn apply_checkpoint(cut: &mut Vec<Knot>, fader: &mut Vec<Knot>, e: &Checkpoint) -> (inv: Checkpoint)
    requires
        curves_wf(Curves { cut: old(cut)@, fader: old(fader)@ }),
    ensures
        (Curves { cut: final(cut)@, fader: final(fader)@ }) == apply_entry(
            Curves { cut: old(cut)@, fader: old(fader)@ },
            e@,
        ),
        inv@ == invert_entry(Curves { cut: old(cut)@, fader: old(fader)@ }, e@),
{
    match e {
        Checkpoint::CutSnapshot(v) => {
            let prior = copy_knots(cut);
            *cut = copy_knots(v);
            align_values(cut);
            Checkpoint::CutSnapshot(prior)
        },
        Checkpoint::FaderSnapshot(v) => {
            let prior = copy_knots(fader);
            *fader = copy_knots(v);
            Checkpoint::FaderSnapshot(prior)
        },
        Checkpoint::CutKnotDelta { index, knot } => {
            let i = *index;
            if i < cut.len() {
                let mut candidate = copy_knots(cut);
                candidate.set(i, *knot);
                align_values(&mut candidate);
                if is_well_formed(&candidate, 2) && same_ends(cut, &candidate, 2) {
                    let prior = cut[i];
                    *cut = candidate;
                    return Checkpoint::CutKnotDelta { index: i, knot: prior };
                }
            }
            Checkpoint::CutKnotDelta { index: i, knot: *knot }
        },
        Checkpoint::FaderKnotDelta { index, knot } => {
            let i = *index;
            if i < fader.len() {
                let mut candidate = copy_knots(fader);
                candidate.set(i, *knot);
                if is_well_formed(&candidate, 1) && same_ends(fader, &candidate, 1) {
                    let prior = fader[i];
                    *fader = candidate;
                    return Checkpoint::FaderKnotDelta { index: i, knot: prior };
                }
            }
            Checkpoint::FaderKnotDelta { index: i, knot: *knot }
        },
    }
}

/// Restores a fit group of checkpoints onto well-formed curves, first to
/// last, and returns the inverse group.
pub fn apply_checkpoints(cut: &mut Vec<Knot>, fader: &mut Vec<Knot>, g: &Vec<Checkpoint>) -> (inv: Vec<Checkpoint>)
    requires
        curves_wf(Curves { cut: old(cut)@, fader: old(fader)@ }),
        group_ok(group_view(g@), Curves { cut: old(cut)@, fader: old(fader)@ }),
    ensures
        (Curves { cut: final(cut)@, fader: final(fader)@ }) == apply_group(
            Curves { cut: old(cut)@, fader: old(fader)@ },
            group_view(g@),
        ),
        group_view(inv@) == invert_group(Curves { cut: old(cut)@, fader: old(fader)@ }, group_view(g@)),
{
    let ghost s0 = Curves { cut: cut@, fader: fader@ };
    let ghost gv = group_view(g@);
    let mut inv: Vec<Checkpoint> = Vec::new();
    let mut i: usize = 0;
    assert(gv.subrange(0, 0) =~= Seq::<Entry>::empty());
    while i < g.len()
        invariant
            0 <= i <= g@.len(),
            gv == group_view(g@),
            curves_wf(s0),
            group_ok(gv, s0),
            (Curves { cut: cut@, fader: fader@ }) == apply_group(s0, gv.subrange(0, i as int)),
            group_view(inv@) == invert_group(s0, gv.subrange(0, i as int)),
        decreases g@.len() - i,
    {
        let ghost prev_inv = inv@;
        proof {
            let sub = gv.subrange(0, i as int);
            assert forall|j: int| 0 <= j < sub.len() implies entry_ok(#[trigger] sub[j], s0) by {
                assert(sub[j] == gv[j]);
            }
            lemma_apply_group_wf(s0, sub);
        }
        let e = apply_checkpoint(cut, fader, &g[i]);
        inv.insert(0, e);
        proof {
            let sub = gv.subrange(0, i + 1);
            assert(sub.drop_last() =~= gv.subrange(0, i as int));
            assert(sub.last() == g@[i as int]@);
            assert(group_view(inv@) =~= seq![e@] + group_view(prev_inv));
        }
        i = i + 1;
    }
    assert(gv.subrange(0, i as int) =~= gv);
    inv
}

/// Whether two knot sequences are equal.
pub fn same_knots(a: &Vec<Knot>, b: &Vec<Knot>) -> (r: bool)
    ensures
        r == (a@ == b@),
{
    if a.len() != b.len() {
        return false;
    }
    let mut i: usize = 0;
    while i < a.len()
        invariant
            a@.len() == b@.len(),
            0 <= i <= a@.len(),
            forall|j: int| 0 <= j < i ==> a@[j] == b@[j],
        decreases a@.len() - i,
    {
        if a[i] != b[i] {
            return false;
        }
        i = i + 1;
    }
    assert(a@ =~= b@);
    true
}

/// Snapshots of the curves of `prior` that changed: the cut's first.
pub open spec fn snapshots(prior: Curves, cut_changed: bool, fader_changed: bool) -> Seq<Entry> {
    (if cut_changed {
        seq![Entry::CutSnapshot(prior.cut)]
    } else {
        Seq::empty()
    }) + (if fader_changed {
        seq![Entry::FaderSnapshot(prior.fader)]
    } else {
        Seq::empty()
    })
}

/// A group of one entry restores that entry.
pub proof fn lemma_apply_single(s: Curves, e: Entry)
    ensures
        apply_group(s, seq![e]) == apply_entry(s, e),
{
    assert(seq![e].drop_last() =~= Seq::<Entry>::empty());
    assert(seq![e].last() == e);
    assert(apply_group(s, Seq::<Entry>::empty()) == s);
}

/// Snapshots of well-formed curves are fit.
pub proof fn lemma_snapshots_ok(now: Curves, prior: Curves, c: bool, f: bool)
    requires
        curves_wf(prior),
    ensures
        group_ok(snapshots(prior, c, f), now),
{
    let g = snapshots(prior, c, f);
    assert forall|j: int| 0 <= j < g.len() implies entry_ok(#[trigger] g[j], now) by {
        if c && j == 0 {
            assert(g[j] == Entry::CutSnapshot(prior.cut));
        } else {
            assert(g[j] == Entry::FaderSnapshot(prior.fader));
        }
    }
}

/// Snapshots of the changed curves restore `prior`.
pub proof fn lemma_snapshots_restore(now: Curves, prior: Curves, c: bool, f: bool)
    requires
        is_aligned(prior.cut),
        !c ==> now.cut == prior.cut,
        !f ==> now.fader == prior.fader,
    ensures
        apply_group(now, snapshots(prior, c, f)) == prior,
{
    lemma_aligned_fixed(prior.cut);
    let g = snapshots(prior, c, f);
    if c && f {
        assert(g.drop_last() =~= seq![Entry::CutSnapshot(prior.cut)]);
        lemma_apply_single(now, Entry::CutSnapshot(prior.cut));
        assert(apply_group(now, g) =~= prior);
    } else if c {
        assert(g =~= seq![Entry::CutSnapshot(prior.cut)]);
        lemma_apply_single(now, Entry::CutSnapshot(prior.cut));
        assert(apply_group(now, g) =~= prior);
    } else if f {
        assert(g =~= seq![Entry::FaderSnapshot(prior.fader)]);
        lemma_apply_single(now, Entry::FaderSnapshot(prior.fader));
        assert(apply_group(now, g) =~= prior);
    } else {
        assert(g =~= Seq::<Entry>::empty());
        assert(now =~= prior);
    }
}

} // verus!
