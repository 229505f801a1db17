use vstd::prelude::*;

use crate::checkpoint::{
    same_ends, stack_ok,
    entry_ok,
    group_ok, lemma_snapshots_ok,
    align_values, apply_checkpoints, apply_entry, apply_group, copy_knots, curves_wf, group_view, history_wf,
    invert_group, lemma_aligned_fixed, lemma_apply_single, lemma_entry_round_trip, lemma_records_wf,
    lemma_redone_wf, lemma_snapshots_restore, lemma_undone_wf, records, redone, same_knots, snapshots, stack_view,
    undone, Checkpoint, Curves, Entry, History,
};
use crate::knot::{
    align_ends, aligned, clamp, cleared, delete_knot, delete_selected, deselect_all, drag_selected, drag_steps,
    first_time, flipped, in_box, insert_knot, insert_point, inserted, interior, is_aligned, is_well_formed,
    last_time, move_knot, moved, seq_wf, toggle_in_box, toggle_select, without_selected, Knot, VALUE_ONE,
};

verus! {

/// What a `Cut` holds, as mathematical values.
pub struct CutView {
    pub history: History,
    pub dragging: bool,
    pub origin: Curves,
    pub looping: bool,
    pub warping: bool,
    pub quantization: u32,
    pub bars: u32,
}

/// An editing session on one cut: the cut curve, which maps bar time to a
/// position in the sample, the fader (gate) curve, their settings, and the
/// undo/redo history of both curves.
pub struct Cut {
    quantization: u32,
    bars: u32,
    cut_knots: Vec<Knot>,
    fader_knots: Vec<Knot>,
    looping: bool,
    warping: bool,
    undo: Vec<Vec<Checkpoint>>,
    redo: Vec<Vec<Checkpoint>>,
    dragging: bool,
    drag_cut: Vec<Knot>,
    drag_fader: Vec<Knot>,
}

impl View for Cut {
    type V = CutView;

    closed spec fn view(&self) -> CutView {
        CutView {
            history: History {
                now: Curves { cut: self.cut_knots@, fader: self.fader_knots@ },
                undo: stack_view(self.undo@),
                redo: stack_view(self.redo@),
            },
            dragging: self.dragging,
            origin: Curves { cut: self.drag_cut@, fader: self.drag_fader@ },
            looping: self.looping,
            warping: self.warping,
            quantization: self.quantization,
            bars: self.bars,
        }
    }
}

impl CutView {
    /// The present curves.
    pub open spec fn now(self) -> Curves {
        self.history.now
    }

    /// The history as it stands outside a drag: during a drag, the curves as
    /// the drag began take the place of the present ones.
    pub open spec fn base(self) -> History {
        if self.dragging {
            History { now: self.origin, undo: self.history.undo, redo: self.history.redo }
        } else {
            self.history
        }
    }

    /// The invariant of a session.
    pub open spec fn wf(self) -> bool {
        &&& self.quantization > 0
        &&& curves_wf(self.now())
        &&& history_wf(self.base())
        &&& self.dragging ==> self.origin.cut.len() == self.now().cut.len() && self.origin.fader.len()
            == self.now().fader.len()
    }

    /// `self` with its history replaced by `h`.
    pub open spec fn with_history(self, h: History) -> CutView {
        CutView { history: h, ..self }
    }

    /// `self` with the present curves replaced by `c`, after an edit outside a drag.
    pub open spec fn edited(self, c: Curves) -> CutView {
        CutView { history: History { now: c, ..self.history }, ..self }
    }
}

/// `new` is `old` after an edit that leaves the curves `c`: refused, with
/// nothing changed, during a drag; otherwise recorded as one undo group when
/// the curves changed, and not at all when they did not.
pub open spec fn edited_to(old: CutView, new: CutView, c: Curves) -> bool {
    if old.dragging {
        new == old
    } else {
        &&& new.history.now == c
        &&& new == old.edited(c).with_history(new.history)
        &&& if c == old.now() {
            new.history == old.history
        } else {
            records(old.history, new.history)
        }
    }
}

/// The first index at which two knot sequences of one length differ.
fn first_difference(a: &Vec<Knot>, b: &Vec<Knot>) -> (i: usize)
    requires
        a@.len() == b@.len(),
        a@ != b@,
    ensures
        i < a@.len(),
        a@[i as int] != b@[i as int],
        forall|j: int| 0 <= j < i ==> a@[j] == b@[j],
{
    let len = a.len();
    let mut i: usize = 0;
    while i < len
        invariant
            len == a@.len() == b@.len(),
            a@ != b@,
            0 <= i <= len,
            forall|j: int| 0 <= j < i ==> a@[j] == b@[j],
        decreases len - i,
    {
        if a[i] != b[i] {
            return i;
        }
        i = i + 1;
    }
    assert(a@ =~= b@);
    i
}

/// The checkpoint that takes the cut curve `now` back to `origin`: the one
/// knot that differs, or a snapshot when more differ.
fn cut_restore(now: &Vec<Knot>, origin: &Vec<Knot>) -> (e: Checkpoint)
    requires
        now@.len() == origin@.len(),
        now@ != origin@,
        is_aligned(origin@),
        seq_wf(origin@, 2),
        seq_wf(now@, 2),
    ensures
        forall|f: Seq<Knot>| #[trigger] apply_entry((Curves { cut: now@, fader: f }), e@) == (Curves { cut: origin@, fader: f }),
        forall|f: Seq<Knot>| #[trigger] entry_ok(e@, (Curves { cut: now@, fader: f })),
        (e@ is CutSnapshot) || (e@ is CutKnotDelta),
{
    let i = first_difference(now, origin);
    let mut candidate = copy_knots(now);
    candidate.set(i, origin[i]);
    align_values(&mut candidate);
    if same_knots(&candidate, origin) && same_ends(now, &candidate, 2) {
        Checkpoint::CutKnotDelta { index: i, knot: origin[i] }
    } else {
        proof {
            lemma_aligned_fixed(origin@);
        }
        Checkpoint::CutSnapshot(copy_knots(origin))
    }
}

/// The checkpoint that takes the fader curve `now` back to `origin`: the one
/// knot that differs, or a snapshot when more differ.
fn fader_restore(now: &Vec<Knot>, origin: &Vec<Knot>) -> (e: Checkpoint)
    requires
        now@.len() == origin@.len(),
        now@ != origin@,
        seq_wf(origin@, 1),
        seq_wf(now@, 1),
    ensures
        forall|c: Seq<Knot>| #[trigger] apply_entry((Curves { cut: c, fader: now@ }), e@) == (Curves { cut: c, fader: origin@ }),
        forall|c: Seq<Knot>| #[trigger] entry_ok(e@, (Curves { cut: c, fader: now@ })),
        (e@ is FaderSnapshot) || (e@ is FaderKnotDelta),
{
    let i = first_difference(now, origin);
    let mut candidate = copy_knots(now);
    candidate.set(i, origin[i]);
    if same_knots(&candidate, origin) && same_ends(now, &candidate, 1) {
        Checkpoint::FaderKnotDelta { index: i, knot: origin[i] }
    } else {
        Checkpoint::FaderSnapshot(copy_knots(origin))
    }
}

/// A raw curve value `y` made a position in the sample: with warping, a
/// value past the end comes back by one sample length and one before the
/// start goes forward by one; without, it is clamped to the sample.
pub open spec fn shaped(y: int, warping: bool) -> int {
    if warping {
        if y > VALUE_ONE {
            y - VALUE_ONE
        } else if y < 0 {
            y + VALUE_ONE
        } else {
            y
        }
    } else {
        clamp(y, 0, VALUE_ONE as int)
    }
}

/// Turns a raw curve value into a position in the sample, as `shaped` says.
pub fn shape_value(y: i64, warping: bool) -> (r: i64)
    ensures
        r == shaped(y as int, warping),
        !warping ==> 0 <= r <= VALUE_ONE,
{
    let one = VALUE_ONE as i64;
    if warping {
        if y > one {
            y - one
        } else if y < 0 {
            y + one
        } else {
            y
        }
    } else if y < 0 {
        0
    } else if y > one {
        one
    } else {
        y
    }
}

/// Whether the time `num / den` bars lies in `[lo, hi]` grid steps of
/// `1 / quantization` bar.
pub open spec fn time_within(num: int, den: int, quantization: int, lo: int, hi: int) -> bool {
    lo * den <= num * quantization <= hi * den
}

/// Spline keys `(time, value)` of a cut curve: every knot, the last two
/// given the value of the first when looping, so the curve closes smoothly.
/// The seam closes in the keys only: the stored knots keep their values, so
/// turning looping off gives the open curve back.
pub open spec fn cut_keys(s: Seq<Knot>, looping: bool) -> Seq<(i64, u32)> {
    Seq::new(
        s.len(),
        |i: int|
            (s[i].time, if looping && i >= s.len() - 2 {
                s[0].value
            } else {
                s[i].value
            }),
    )
}

/// Spline keys `(time, value)` of a fader curve: every knot, the last one
/// given the value of the first when looping, as the cut curve closes.
pub open spec fn fader_keys(s: Seq<Knot>, looping: bool) -> Seq<(i64, u32)> {
    Seq::new(
        s.len(),
        |i: int|
            (s[i].time, if looping && i == s.len() - 1 {
                s[0].value
            } else {
                s[i].value
            }),
    )
}

/// Grid steps per bar of a new cut.
pub const DEFAULT_QUANTIZATION: u32 = 16;

/// Bars of a new cut.
pub const DEFAULT_BARS: u32 = 2;

/// A knot that is not selected.
pub open spec fn knot(time: int, value: int) -> Knot {
    Knot { time: time as i64, value: value as u32, selected: false }
}

/// The cut curve of a new cut: a ramp from the start of the sample at bar 0
/// to its end at bar 2, with sentinels a quarter bar outside.
pub open spec fn default_cut_knots() -> Seq<Knot> {
    seq![knot(-4, 0), knot(0, 0), knot(16, VALUE_ONE as int / 2), knot(32, VALUE_ONE as int), knot(36, VALUE_ONE as int)]
}

/// The fader curve of a new cut: closed, open from bar 1 to bar 1.5. Times
/// strictly increase, so each of its two edges takes one grid step.
pub open spec fn default_fader_knots() -> Seq<Knot> {
    seq![knot(0, 0), knot(16, 0), knot(17, VALUE_ONE as int), knot(24, VALUE_ONE as int), knot(25, 0), knot(32, 0)]
}

impl Cut {
    /// A new cut with the default curves, an empty history, 16 steps per
    /// bar, 2 bars, neither looping nor warping.
    pub fn new() -> (r: Cut)
        ensures
            r.wf(),
            r@.now().cut == default_cut_knots(),
            r@.now().fader == default_fader_knots(),
            r@.history.undo.len() == 0,
            r@.history.redo.len() == 0,
            !r@.dragging,
            !r@.looping,
            !r@.warping,
            r@.quantization == DEFAULT_QUANTIZATION,
            r@.bars == DEFAULT_BARS,
    {
        let cut_knots = vec![
            Knot { time: -4, value: 0, selected: false },
            Knot { time: 0, value: 0, selected: false },
            Knot { time: 16, value: VALUE_ONE / 2, selected: false },
            Knot { time: 32, value: VALUE_ONE, selected: false },
            Knot { time: 36, value: VALUE_ONE, selected: false },
        ];
        let fader_knots = vec![
            Knot { time: 0, value: 0, selected: false },
            Knot { time: 16, value: 0, selected: false },
            Knot { time: 17, value: VALUE_ONE, selected: false },
            Knot { time: 24, value: VALUE_ONE, selected: false },
            Knot { time: 25, value: 0, selected: false },
            Knot { time: 32, value: 0, selected: false },
        ];
        assert(cut_knots@ =~= default_cut_knots());
        assert(fader_knots@ =~= default_fader_knots());
        let r = Cut {
            quantization: DEFAULT_QUANTIZATION,
            bars: DEFAULT_BARS,
            cut_knots,
            fader_knots,
            looping: false,
            warping: false,
            undo: Vec::new(),
            redo: Vec::new(),
            dragging: false,
            drag_cut: Vec::new(),
            drag_fader: Vec::new(),
        };
        assert(stack_view(r.undo@) =~= Seq::<Seq<Entry>>::empty());
        assert(stack_view(r.redo@) =~= Seq::<Seq<Entry>>::empty());
        r
    }

    pub open spec fn wf(&self) -> bool {
        self@.wf()
    }

    /// A cut from stored parts, with an empty history: `None` unless the cut
    /// curve has two sentinels at each end, the fader one, both are sorted by
    /// time without duplicates with values in range, and `quantization` is
    /// positive. Selections are cleared and the cut's end sentinels aligned.
    #[verifier::rlimit(100)]
    pub fn restore(
        cut_knots: Vec<Knot>,
        fader_knots: Vec<Knot>,
        quantization: u32,
        bars: u32,
        looping: bool,
        warping: bool,
    ) -> (r: Option<Cut>)
        ensures
            r is Some <==> seq_wf(cut_knots@, 2) && seq_wf(fader_knots@, 1) && quantization > 0,
            r matches Some(c) ==> {
                &&& c.wf()
                &&& c@.now().cut == aligned(cut_knots@.map_values(|k: Knot| cleared(k)))
                &&& c@.now().fader == fader_knots@.map_values(|k: Knot| cleared(k))
                &&& c@.history.undo.len() == 0
                &&& c@.history.redo.len() == 0
                &&& !c@.dragging
                &&& c@.quantization == quantization
                &&& c@.bars == bars
                &&& c@.looping == looping
                &&& c@.warping == warping
            },
    {
        if quantization == 0 || !is_well_formed(&cut_knots, 2) || !is_well_formed(&fader_knots, 1) {
            return None;
        }
        let mut cut_knots = cut_knots;
        let mut fader_knots = fader_knots;
        deselect_all(&mut cut_knots, 2);
        deselect_all(&mut fader_knots, 1);
        align_ends(&mut cut_knots, 2);
        let r = Cut {
            quantization,
            bars,
            cut_knots,
            fader_knots,
            looping,
            warping,
            undo: Vec::new(),
            redo: Vec::new(),
            dragging: false,
            drag_cut: Vec::new(),
            drag_fader: Vec::new(),
        };
        assert(stack_view(r.undo@) =~= Seq::<Seq<Entry>>::empty());
        assert(stack_view(r.redo@) =~= Seq::<Seq<Entry>>::empty());
        assert(stack_ok(Seq::<Seq<Entry>>::empty(), r@.history.now));
        Some(r)
    }

    /// Records, as one group, snapshots of the curves that differ from
    /// `prior_cut` and `prior_fader`, the curves as the edit began.
    fn record_snapshots(&mut self, prior_cut: Vec<Knot>, prior_fader: Vec<Knot>, Ghost(prior): Ghost<CutView>)
        requires
            prior.wf(),
            !prior.dragging,
            curves_wf(old(self)@.now()),
            old(self)@ == prior.edited(old(self)@.now()),
            prior_cut@ == prior.now().cut,
            prior_fader@ == prior.now().fader,
        ensures
            final(self).wf(),
            edited_to(prior, final(self)@, old(self)@.now()),
    {
        let c = !same_knots(&prior_cut, &self.cut_knots);
        let f = !same_knots(&prior_fader, &self.fader_knots);
        if !c && !f {
            assert(self@.now() =~= prior.now());
            assert(self@ == prior);
            return;
        }
        let ghost now = self@.now();
        let mut group: Vec<Checkpoint> = Vec::new();
        if c {
            group.push(Checkpoint::CutSnapshot(prior_cut));
        }
        if f {
            group.push(Checkpoint::FaderSnapshot(prior_fader));
        }
        proof {
            assert(group_view(group@) =~= snapshots(prior.now(), c, f));
            lemma_snapshots_restore(now, prior.now(), c, f);
            lemma_snapshots_ok(now, prior.now(), c, f);
        }
        self.push_group(group, Ghost(prior));
    }

    /// Pushes `group`, which takes the present curves back to those of
    /// `prior`, as the newest undo group, and clears redo.
    fn push_group(&mut self, group: Vec<Checkpoint>, Ghost(prior): Ghost<CutView>)
        requires
            prior.wf(),
            !prior.dragging,
            curves_wf(old(self)@.now()),
            old(self)@ == prior.edited(old(self)@.now()),
            old(self)@.now() != prior.now(),
            group_ok(group_view(group@), old(self)@.now()),
            apply_group(old(self)@.now(), group_view(group@)) == prior.now(),
        ensures
            final(self).wf(),
            edited_to(prior, final(self)@, old(self)@.now()),
    {
        let ghost g = group_view(group@);
        self.undo.push(group);
        self.redo = Vec::new();
        proof {
            assert(stack_view(self.undo@).drop_last() =~= prior.history.undo);
            assert(stack_view(self.undo@).last() == g);
            assert(stack_view(self.redo@) =~= Seq::<Seq<Entry>>::empty());
            lemma_records_wf(prior.history, self@.history);
        }
    }

    /// Inserts a cut knot at grid time `time` with value `value` (clamped
    /// into range), or overwrites the value of the knot at that time; then
    /// aligns the end sentinels. Refused with `None` outside the editable
    /// range between the sentinels, and during a drag.
    pub fn insert_cut_knot(&mut self, time: i64, value: u32) -> (r: Option<usize>)
        requires
            old(self).wf(),
        ensures
            final(self).wf(),
            r is Some <==> !old(self)@.dragging && first_time(old(self)@.now().cut, 2) <= time <= last_time(
                old(self)@.now().cut,
                2,
            ),
            r matches Some(p) ==> insert_point(old(self)@.now().cut, time as int, p as int) && edited_to(
                old(self)@,
                final(self)@,
                Curves {
                    cut: aligned(inserted(old(self)@.now().cut, p as int, time, value)),
                    fader: old(self)@.now().fader,
                },
            ),
            r is None ==> final(self)@ == old(self)@,
    {
        if self.dragging {
            return None;
        }
        let ghost prior = self@;
        let prior_cut = copy_knots(&self.cut_knots);
        let prior_fader = copy_knots(&self.fader_knots);
        let r = insert_knot(&mut self.cut_knots, 2, time, value);
        if r.is_none() {
            return None;
        }
        align_ends(&mut self.cut_knots, 2);
        self.record_snapshots(prior_cut, prior_fader, Ghost(prior));
        r
    }

    /// Inserts a fader knot at grid time `time` with value `value` (clamped
    /// into range), or overwrites the value of the knot at that time. Refused
    /// with `None` outside the range between the end knots, and during a drag.
    pub fn insert_fader_knot(&mut self, time: i64, value: u32) -> (r: Option<usize>)
        requires
            old(self).wf(),
        ensures
            final(self).wf(),
            r is Some <==> !old(self)@.dragging && first_time(old(self)@.now().fader, 1) <= time <= last_time(
                old(self)@.now().fader,
                1,
            ),
            r matches Some(p) ==> insert_point(old(self)@.now().fader, time as int, p as int) && edited_to(
                old(self)@,
                final(self)@,
                Curves {
                    cut: old(self)@.now().cut,
                    fader: inserted(old(self)@.now().fader, p as int, time, value),
                },
            ),
            r is None ==> final(self)@ == old(self)@,
    {
        if self.dragging {
            return None;
        }
        let ghost prior = self@;
        let prior_cut = copy_knots(&self.cut_knots);
        let prior_fader = copy_knots(&self.fader_knots);
        let r = insert_knot(&mut self.fader_knots, 1, time, value);
        if r.is_none() {
            return None;
        }
        self.record_snapshots(prior_cut, prior_fader, Ghost(prior));
        r
    }

    /// Deletes cut knot `index` when it is interior; the two sentinels at
    /// each end are never deleted.
    pub fn delete_cut_knot(&mut self, index: usize) -> (r: bool)
        requires
            old(self).wf(),
        ensures
            final(self).wf(),
            r == (!old(self)@.dragging && interior(old(self)@.now().cut, 2, index as int)),
            edited_to(
                old(self)@,
                final(self)@,
                Curves {
                    cut: if r {
                        old(self)@.now().cut.remove(index as int)
                    } else {
                        old(self)@.now().cut
                    },
                    fader: old(self)@.now().fader,
                },
            ),
    {
        if self.dragging {
            return false;
        }
        let ghost prior = self@;
        let prior_cut = copy_knots(&self.cut_knots);
        let prior_fader = copy_knots(&self.fader_knots);
        let r = delete_knot(&mut self.cut_knots, 2, index);
        proof {
            let s = prior.now().cut;
            let n = self.cut_knots@;
            if r {
                assert(n[0] == s[0] && n[1] == s[1]);
                assert(n[n.len() - 1] == s[s.len() - 1] && n[n.len() - 2] == s[s.len() - 2]);
            }
        }
        self.record_snapshots(prior_cut, prior_fader, Ghost(prior));
        r
    }

    /// Deletes fader knot `index` unless it is the first or the last. The
    /// first fader knot is kept as well as the last: both bound the fader's
    /// time range, like the cut curve's sentinels, and keeping both keeps at
    /// least two fader knots. Their times are fixed for the same reason.
    pub fn delete_fader_knot(&mut self, index: usize) -> (r: bool)
        requires
            old(self).wf(),
        ensures
            final(self).wf(),
            r == (!old(self)@.dragging && interior(old(self)@.now().fader, 1, index as int)),
            edited_to(
                old(self)@,
                final(self)@,
                Curves {
                    cut: old(self)@.now().cut,
                    fader: if r {
                        old(self)@.now().fader.remove(index as int)
                    } else {
                        old(self)@.now().fader
                    },
                },
            ),
    {
        if self.dragging {
            return false;
        }
        let ghost prior = self@;
        let prior_cut = copy_knots(&self.cut_knots);
        let prior_fader = copy_knots(&self.fader_knots);
        let r = delete_knot(&mut self.fader_knots, 1, index);
        self.record_snapshots(prior_cut, prior_fader, Ghost(prior));
        r
    }

    /// Moves cut knot `index` towards `(time, value)` as `moved` describes,
    /// then aligns the end sentinels; recorded as a one-knot checkpoint.
    /// An index past the end changes nothing.
    pub fn move_cut_knot(&mut self, index: usize, time: i64, value: i64) -> (r: bool)
        requires
            old(self).wf(),
        ensures
            final(self).wf(),
            edited_to(
                old(self)@,
                final(self)@,
                if index < old(self)@.now().cut.len() {
                    Curves {
                        cut: aligned(
                            old(self)@.now().cut.update(
                                index as int,
                                moved(old(self)@.now().cut, 2, index as int, time as int, value as int),
                            ),
                        ),
                        fader: old(self)@.now().fader,
                    }
                } else {
                    old(self)@.now()
                },
            ),
            r == (final(self)@.now() != old(self)@.now()),
    {
        if self.dragging || index >= self.cut_knots.len() {
            return false;
        }
        let ghost prior = self@;
        let prior_cut = copy_knots(&self.cut_knots);
        let prior_knot = self.cut_knots[index];
        move_knot(&mut self.cut_knots, 2, index, time, value);
        align_ends(&mut self.cut_knots, 2);
        if same_knots(&prior_cut, &self.cut_knots) {
            assert(self@.now() =~= prior.now());
            assert(self@ == prior);
            return false;
        }
        let ghost mk = moved(prior.now().cut, 2, index as int, time as int, value as int);
        proof {
            lemma_entry_round_trip(prior.now(), Entry::CutKnotDelta(index as int, mk));
            lemma_apply_single(self@.now(), Entry::CutKnotDelta(index as int, prior_knot));
        }
        let group = vec![Checkpoint::CutKnotDelta { index, knot: prior_knot }];
        assert(group_view(group@) =~= seq![Entry::CutKnotDelta(index as int, prior_knot)]);
        self.push_group(group, Ghost(prior));
        true
    }

    /// Moves fader knot `index` towards `(time, value)` as `moved` describes;
    /// recorded as a one-knot checkpoint. An index past the end changes nothing.
    pub fn move_fader_knot(&mut self, index: usize, time: i64, value: i64) -> (r: bool)
        requires
            old(self).wf(),
        ensures
            final(self).wf(),
            edited_to(
                old(self)@,
                final(self)@,
                if index < old(self)@.now().fader.len() {
                    Curves {
                        cut: old(self)@.now().cut,
                        fader: old(self)@.now().fader.update(
                            index as int,
                            moved(old(self)@.now().fader, 1, index as int, time as int, value as int),
                        ),
                    }
                } else {
                    old(self)@.now()
                },
            ),
            r == (final(self)@.now() != old(self)@.now()),
    {
        if self.dragging || index >= self.fader_knots.len() {
            return false;
        }
        let ghost prior = self@;
        let prior_fader = copy_knots(&self.fader_knots);
        let prior_knot = self.fader_knots[index];
        move_knot(&mut self.fader_knots, 1, index, time, value);
        if same_knots(&prior_fader, &self.fader_knots) {
            assert(self@.now() =~= prior.now());
            assert(self@ == prior);
            return false;
        }
        let ghost mk = moved(prior.now().fader, 1, index as int, time as int, value as int);
        proof {
            lemma_entry_round_trip(prior.now(), Entry::FaderKnotDelta(index as int, mk));
            lemma_apply_single(self@.now(), Entry::FaderKnotDelta(index as int, prior_knot));
        }
        let group = vec![Checkpoint::FaderKnotDelta { index, knot: prior_knot }];
        assert(group_view(group@) =~= seq![Entry::FaderKnotDelta(index as int, prior_knot)]);
        self.push_group(group, Ghost(prior));
        true
    }

    /// Flips the selection of cut knot `index`; recorded as a one-knot
    /// checkpoint. An index past the end changes nothing.
    pub fn toggle_cut_knot(&mut self, index: usize) -> (r: bool)
        requires
            old(self).wf(),
        ensures
            final(self).wf(),
            r == (!old(self)@.dragging && index < old(self)@.now().cut.len()),
            edited_to(
                old(self)@,
                final(self)@,
                if index < old(self)@.now().cut.len() {
                    Curves {
                        cut: old(self)@.now().cut.update(index as int, flipped(old(self)@.now().cut[index as int])),
                        fader: old(self)@.now().fader,
                    }
                } else {
                    old(self)@.now()
                },
            ),
    {
        if self.dragging || index >= self.cut_knots.len() {
            return false;
        }
        let ghost prior = self@;
        let prior_knot = self.cut_knots[index];
        toggle_select(&mut self.cut_knots, 2, index);
        let ghost fk = flipped(prior_knot);
        proof {
            let s = prior.now().cut;
            let n = self.cut_knots@;
            assert(n[0].value == s[0].value && n[1].value == s[1].value);
            assert(n[n.len() - 1].value == s[s.len() - 1].value && n[n.len() - 2].value == s[s.len() - 2].value);
            lemma_aligned_fixed(n);
            assert(n != s) by {
                assert(n[index as int] != s[index as int]);
            }
            lemma_entry_round_trip(prior.now(), Entry::CutKnotDelta(index as int, fk));
            lemma_apply_single(self@.now(), Entry::CutKnotDelta(index as int, prior_knot));
        }
        let group = vec![Checkpoint::CutKnotDelta { index, knot: prior_knot }];
        assert(group_view(group@) =~= seq![Entry::CutKnotDelta(index as int, prior_knot)]);
        self.push_group(group, Ghost(prior));
        true
    }

    /// Flips the selection of fader knot `index`; recorded as a one-knot
    /// checkpoint. An index past the end changes nothing.
    pub fn toggle_fader_knot(&mut self, index: usize) -> (r: bool)
        requires
            old(self).wf(),
        ensures
            final(self).wf(),
            r == (!old(self)@.dragging && index < old(self)@.now().fader.len()),
            edited_to(
                old(self)@,
                final(self)@,
                if index < old(self)@.now().fader.len() {
                    Curves {
                        cut: old(self)@.now().cut,
                        fader: old(self)@.now().fader.update(index as int, flipped(old(self)@.now().fader[index as int])),
                    }
                } else {
                    old(self)@.now()
                },
            ),
    {
        if self.dragging || index >= self.fader_knots.len() {
            return false;
        }
        let ghost prior = self@;
        let prior_knot = self.fader_knots[index];
        toggle_select(&mut self.fader_knots, 1, index);
        let ghost fk = flipped(prior_knot);
        proof {
            let s = prior.now().fader;
            let n = self.fader_knots@;
            assert(n != s) by {
                assert(n[index as int] != s[index as int]);
            }
            lemma_entry_round_trip(prior.now(), Entry::FaderKnotDelta(index as int, fk));
            lemma_apply_single(self@.now(), Entry::FaderKnotDelta(index as int, prior_knot));
        }
        let group = vec![Checkpoint::FaderKnotDelta { index, knot: prior_knot }];
        assert(group_view(group@) =~= seq![Entry::FaderKnotDelta(index as int, prior_knot)]);
        self.push_group(group, Ghost(prior));
        true
    }

    /// Unselects every knot of both curves, as one gesture; `true` when any
    /// knot was selected.
    pub fn deselect_all(&mut self) -> (r: bool)
        requires
            old(self).wf(),
        ensures
            final(self).wf(),
            edited_to(
                old(self)@,
                final(self)@,
                Curves {
                    cut: old(self)@.now().cut.map_values(|k: Knot| cleared(k)),
                    fader: old(self)@.now().fader.map_values(|k: Knot| cleared(k)),
                },
            ),
            r == (final(self)@.now() != old(self)@.now()),
    {
        if self.dragging {
            return false;
        }
        let ghost prior = self@;
        let prior_cut = copy_knots(&self.cut_knots);
        let prior_fader = copy_knots(&self.fader_knots);
        deselect_all(&mut self.cut_knots, 2);
        deselect_all(&mut self.fader_knots, 1);
        let changed = !(same_knots(&prior_cut, &self.cut_knots) && same_knots(&prior_fader, &self.fader_knots));
        proof {
            let s = prior.now().cut;
            let n = self.cut_knots@;
            assert(n[0].value == s[0].value && n[1].value == s[1].value);
            assert(n[n.len() - 1].value == s[s.len() - 1].value && n[n.len() - 2].value == s[s.len() - 2].value);
        }
        self.record_snapshots(prior_cut, prior_fader, Ghost(prior));
        changed
    }

    /// Flips the selection of every knot of both curves in the box
    /// `[t0, t1] x [v0, v1]` (grid steps, values), as one gesture.
    #[verifier::rlimit(60)]
    pub fn select_in_box(&mut self, t0: i64, t1: i64, v0: u32, v1: u32) -> (r: bool)
        requires
            old(self).wf(),
        ensures
            final(self).wf(),
            edited_to(
                old(self)@,
                final(self)@,
                Curves {
                    cut: old(self)@.now().cut.map_values(
                        |k: Knot|
                            if in_box(k, t0, t1, v0, v1) {
                                flipped(k)
                            } else {
                                k
                            },
                    ),
                    fader: old(self)@.now().fader.map_values(
                        |k: Knot|
                            if in_box(k, t0, t1, v0, v1) {
                                flipped(k)
                            } else {
                                k
                            },
                    ),
                },
            ),
            r == (final(self)@.now() != old(self)@.now()),
    {
        if self.dragging {
            return false;
        }
        let ghost prior = self@;
        let prior_cut = copy_knots(&self.cut_knots);
        let prior_fader = copy_knots(&self.fader_knots);
        toggle_in_box(&mut self.cut_knots, 2, t0, t1, v0, v1);
        toggle_in_box(&mut self.fader_knots, 1, t0, t1, v0, v1);
        let changed = !(same_knots(&prior_cut, &self.cut_knots) && same_knots(&prior_fader, &self.fader_knots));
        proof {
            let s = prior.now().cut;
            let n = self.cut_knots@;
            assert(n[0].value == s[0].value && n[1].value == s[1].value);
            assert(n[n.len() - 1].value == s[s.len() - 1].value && n[n.len() - 2].value == s[s.len() - 2].value);
        }
        self.record_snapshots(prior_cut, prior_fader, Ghost(prior));
        changed
    }

    /// The editable time range of the cut curve, in grid steps: from the
    /// second knot to the second to last. The curve is sampled only there.
    pub fn domain(&self) -> (r: (i64, i64))
        requires
            self.wf(),
        ensures
            r.0 == self@.now().cut[1].time,
            r.1 == self@.now().cut[self@.now().cut.len() - 2].time,
            r.0 < r.1,
    {
        let len = self.cut_knots.len();
        (self.cut_knots[1].time, self.cut_knots[len - 2].time)
    }

    /// Whether the time `num / den` bars lies in the editable range.
    pub fn contains_time(&self, num: i64, den: u64) -> (r: bool)
        requires
            self.wf(),
            den > 0,
        ensures
            r == time_within(
                num as int,
                den as int,
                self@.quantization as int,
                self@.now().cut[1].time as int,
                self@.now().cut[self@.now().cut.len() - 2].time as int,
            ),
    {
        let (lo, hi) = self.domain();
        let q = self.quantization as i128;
        let d = den as i128;
        let n = num as i128;
        proof {
            let (a, b, c, e) = (lo as int, hi as int, d as int, n as int);
            assert(i128::MIN <= a * c <= i128::MAX) by (nonlinear_arith)
                requires
                    i64::MIN <= a <= i64::MAX,
                    0 <= c <= u64::MAX,
            ;
            assert(i128::MIN <= b * c <= i128::MAX) by (nonlinear_arith)
                requires
                    i64::MIN <= b <= i64::MAX,
                    0 <= c <= u64::MAX,
            ;
            assert(-0x8000_0000_0000_0000_0000_0000_0000 <= e * (q as int) <= 0x8000_0000_0000_0000_0000_0000_0000) by (nonlinear_arith)
                requires
                    -0x8000_0000_0000_0000 <= e <= 0x8000_0000_0000_0000,
                    0 <= q <= 0x1_0000_0000,
            ;
        }
        lo as i128 * d <= n * q && n * q <= hi as i128 * d
    }

    /// The sample position of the cut curve at time `num / den` bars, given
    /// `raw`, the value the spline through `cut_spline_keys` takes there:
    /// `None` outside the editable range, else `raw` shaped by `shaped`.
    pub fn sample_value(&self, num: i64, den: u64, raw: i64) -> (r: Option<i64>)
        requires
            self.wf(),
            den > 0,
        ensures
            r == (if time_within(
                num as int,
                den as int,
                self@.quantization as int,
                self@.now().cut[1].time as int,
                self@.now().cut[self@.now().cut.len() - 2].time as int,
            ) {
                Some(shaped(raw as int, self@.warping) as i64)
            } else {
                None::<i64>
            }),
            r matches Some(y) ==> !self@.warping ==> 0 <= y <= VALUE_ONE,
    {
        if self.contains_time(num, den) {
            Some(shape_value(raw, self.warping))
        } else {
            None
        }
    }

    /// Level of the fader curve at time `num / den` bars.
    /// Here `raw` is what the linear spline through `fader_spline_keys` gives
    /// at that time. Outside the fader's time range this is `None`; inside it
    /// is `raw` clamped to `[0, VALUE_ONE]`.
    pub fn gate_value(&self, num: i64, den: u64, raw: i64) -> (r: Option<i64>)
        requires
            self.wf(),
            den > 0,
        ensures
            r == (if time_within(
                num as int,
                den as int,
                self@.quantization as int,
                self@.now().fader[0].time as int,
                self@.now().fader[self@.now().fader.len() - 1].time as int,
            ) {
                Some(clamp(raw as int, 0, VALUE_ONE as int) as i64)
            } else {
                None::<i64>
            }),
    {
        let len = self.fader_knots.len();
        let lo = self.fader_knots[0].time;
        let hi = self.fader_knots[len - 1].time;
        let q = self.quantization as i128;
        let d = den as i128;
        let n = num as i128;
        proof {
            let (a, b, c, e) = (lo as int, hi as int, d as int, n as int);
            assert(i128::MIN <= a * c <= i128::MAX) by (nonlinear_arith)
                requires
                    i64::MIN <= a <= i64::MAX,
                    0 <= c <= u64::MAX,
            ;
            assert(i128::MIN <= b * c <= i128::MAX) by (nonlinear_arith)
                requires
                    i64::MIN <= b <= i64::MAX,
                    0 <= c <= u64::MAX,
            ;
            assert(-0x8000_0000_0000_0000_0000_0000_0000 <= e * (q as int) <= 0x8000_0000_0000_0000_0000_0000_0000) by (nonlinear_arith)
                requires
                    -0x8000_0000_0000_0000 <= e <= 0x8000_0000_0000_0000,
                    0 <= q <= 0x1_0000_0000,
            ;
        }
        if lo as i128 * d <= n * q && n * q <= hi as i128 * d {
            Some(shape_value(raw, false))
        } else {
            None
        }
    }

    /// The keys for the cut curve's Catmull-Rom spline, as `cut_keys` says.
    pub fn cut_spline_keys(&self) -> (r: Vec<(i64, u32)>)
        requires
            self.wf(),
        ensures
            r@ == cut_keys(self@.now().cut, self@.looping),
    {
        let len = self.cut_knots.len();
        let first = self.cut_knots[0].value;
        let mut r: Vec<(i64, u32)> = Vec::new();
        let mut i: usize = 0;
        while i < len
            invariant
                len == self@.now().cut.len() >= 4,
                first == self@.now().cut[0].value,
                0 <= i <= len,
                r@ == cut_keys(self@.now().cut, self@.looping).subrange(0, i as int),
            decreases len - i,
        {
            let k = self.cut_knots[i];
            let v = if self.looping && i >= len - 2 { first } else { k.value };
            r.push((k.time, v));
            i = i + 1;
            assert(r@ =~= cut_keys(self@.now().cut, self@.looping).subrange(0, i as int));
        }
        assert(r@ =~= cut_keys(self@.now().cut, self@.looping));
        r
    }

    /// The keys for the fader curve's linear spline, as `fader_keys` says.
    pub fn fader_spline_keys(&self) -> (r: Vec<(i64, u32)>)
        requires
            self.wf(),
        ensures
            r@ == fader_keys(self@.now().fader, self@.looping),
    {
        let len = self.fader_knots.len();
        let first = self.fader_knots[0].value;
        let mut r: Vec<(i64, u32)> = Vec::new();
        let mut i: usize = 0;
        while i < len
            invariant
                len == self@.now().fader.len() >= 2,
                first == self@.now().fader[0].value,
                0 <= i <= len,
                r@ == fader_keys(self@.now().fader, self@.looping).subrange(0, i as int),
            decreases len - i,
        {
            let k = self.fader_knots[i];
            let v = if self.looping && i == len - 1 { first } else { k.value };
            r.push((k.time, v));
            i = i + 1;
            assert(r@ =~= fader_keys(self@.now().fader, self@.looping).subrange(0, i as int));
        }
        assert(r@ =~= fader_keys(self@.now().fader, self@.looping));
        r
    }

    /// Starts a drag gesture: the curves as they stand become its origin.
    /// Nothing happens when a drag is already in progress.
    pub fn begin_drag(&mut self)
        requires
            old(self).wf(),
        ensures
            final(self).wf(),
            old(self)@.dragging ==> final(self)@ == old(self)@,
            !old(self)@.dragging ==> final(self)@ == (CutView {
                dragging: true,
                origin: old(self)@.now(),
                ..old(self)@
            }),
    {
        if self.dragging {
            return;
        }
        self.drag_cut = copy_knots(&self.cut_knots);
        self.drag_fader = copy_knots(&self.fader_knots);
        self.dragging = true;
    }

    /// During a drag, moves every selected knot of both curves by `dt` grid
    /// steps and `dv` in value from where the drag began (see
    /// `drag_steps`), then aligns the cut's end sentinels. Outside a drag,
    /// nothing happens. Not recorded until the drag ends.
    pub fn drag_selected(&mut self, dt: i64, dv: i64)
        requires
            old(self).wf(),
        ensures
            final(self).wf(),
            !old(self)@.dragging ==> final(self)@ == old(self)@,
            old(self)@.dragging ==> final(self)@ == (CutView {
                history: History {
                    now: Curves {
                        cut: aligned(
                            drag_steps(
                                old(self)@.now().cut,
                                old(self)@.origin.cut,
                                2,
                                dt as int,
                                dv as int,
                                old(self)@.now().cut.len() as nat,
                            ),
                        ),
                        fader: drag_steps(
                            old(self)@.now().fader,
                            old(self)@.origin.fader,
                            1,
                            dt as int,
                            dv as int,
                            old(self)@.now().fader.len() as nat,
                        ),
                    },
                    ..old(self)@.history
                },
                ..old(self)@
            }),
    {
        if !self.dragging {
            return;
        }
        drag_selected(&mut self.cut_knots, &self.drag_cut, 2, dt, dv);
        align_ends(&mut self.cut_knots, 2);
        drag_selected(&mut self.fader_knots, &self.drag_fader, 1, dt, dv);
    }

    /// During a drag, moves cut knot `index` towards `(time, value)` as
    /// `moved` describes and aligns the end sentinels. Outside a drag, or
    /// with an index past the end, nothing happens. Not recorded until the
    /// drag ends.
    pub fn drag_cut_knot(&mut self, index: usize, time: i64, value: i64)
        requires
            old(self).wf(),
        ensures
            final(self).wf(),
            !(old(self)@.dragging && index < old(self)@.now().cut.len()) ==> final(self)@ == old(self)@,
            old(self)@.dragging && index < old(self)@.now().cut.len() ==> final(self)@ == (CutView {
                history: History {
                    now: Curves {
                        cut: aligned(
                            old(self)@.now().cut.update(
                                index as int,
                                moved(old(self)@.now().cut, 2, index as int, time as int, value as int),
                            ),
                        ),
                        fader: old(self)@.now().fader,
                    },
                    ..old(self)@.history
                },
                ..old(self)@
            }),
    {
        if !self.dragging || index >= self.cut_knots.len() {
            return;
        }
        move_knot(&mut self.cut_knots, 2, index, time, value);
        align_ends(&mut self.cut_knots, 2);
    }

    /// During a drag, moves fader knot `index` towards `(time, value)` as
    /// `moved` describes. Outside a drag, or with an index past the end,
    /// nothing happens. Not recorded until the drag ends.
    pub fn drag_fader_knot(&mut self, index: usize, time: i64, value: i64)
        requires
            old(self).wf(),
        ensures
            final(self).wf(),
            !(old(self)@.dragging && index < old(self)@.now().fader.len()) ==> final(self)@ == old(self)@,
            old(self)@.dragging && index < old(self)@.now().fader.len() ==> final(self)@ == (CutView {
                history: History {
                    now: Curves {
                        cut: old(self)@.now().cut,
                        fader: old(self)@.now().fader.update(
                            index as int,
                            moved(old(self)@.now().fader, 1, index as int, time as int, value as int),
                        ),
                    },
                    ..old(self)@.history
                },
                ..old(self)@
            }),
    {
        if !self.dragging || index >= self.fader_knots.len() {
            return;
        }
        move_knot(&mut self.fader_knots, 1, index, time, value);
    }

    /// Ends a drag gesture and records it as one undo group that restores
    /// the curves from where the drag began: a one-knot checkpoint for a
    /// curve in which one knot changed, a snapshot for one in which more did.
    /// Nothing is recorded when the drag changed nothing. `true` when a drag
    /// was in progress.
    pub fn end_drag(&mut self) -> (r: bool)
        requires
            old(self).wf(),
        ensures
            final(self).wf(),
            r == old(self)@.dragging,
            !old(self)@.dragging ==> final(self)@ == old(self)@,
            old(self)@.dragging ==> {
                &&& !final(self)@.dragging
                &&& final(self)@.now() == old(self)@.now()
                &&& final(self)@ == (CutView { dragging: false, history: final(self)@.history, ..old(self)@ })
                &&& if old(self)@.now() == old(self)@.origin {
                    final(self)@.history == old(self)@.history
                } else {
                    records(old(self)@.base(), final(self)@.history)
                }
            },
    {
        if !self.dragging {
            return false;
        }
        let ghost prior = self@.base();
        let ghost now = self@.now();
        self.dragging = false;
        let c = !same_knots(&self.drag_cut, &self.cut_knots);
        let f = !same_knots(&self.drag_fader, &self.fader_knots);
        if !c && !f {
            assert(now =~= prior.now);
            return true;
        }
        let mut group: Vec<Checkpoint> = Vec::new();
        if c {
            let e = cut_restore(&self.cut_knots, &self.drag_cut);
            group.push(e);
        }
        if f {
            let e = fader_restore(&self.fader_knots, &self.drag_fader);
            group.push(e);
        }
        proof {
            let g = group_view(group@);
            if c && f {
                let a = g[0];
                let b = g[1];
                assert(g.drop_last() =~= seq![a]);
                lemma_apply_single(now, a);
                assert(apply_group(now, g) == apply_entry(apply_entry(now, a), b));
                assert(apply_entry(now, a) == Curves { cut: prior.now.cut, fader: now.fader });
                assert(apply_group(now, g) =~= prior.now);
            } else if c {
                assert(g =~= seq![g[0]]);
                lemma_apply_single(now, g[0]);
                assert(apply_group(now, g) =~= prior.now);
            } else {
                assert(g =~= seq![g[0]]);
                lemma_apply_single(now, g[0]);
                assert(apply_group(now, g) =~= prior.now);
            }
        }
        let ghost mid = self@;
        assert(mid == (CutView { history: prior, ..mid }).edited(now));
        self.push_group(group, Ghost(CutView { history: prior, ..mid }));
        true
    }

    /// Undoes the newest undo group and makes its inverse the newest redo
    /// group. Refused during a drag; `true` when something was undone.
    pub fn undo(&mut self) -> (r: bool)
        requires
            old(self).wf(),
        ensures
            final(self).wf(),
            r == (!old(self)@.dragging && old(self)@.history.undo.len() > 0),
            r ==> final(self)@ == old(self)@.with_history(undone(old(self)@.history)),
            !r ==> final(self)@ == old(self)@,
    {
        if self.dragging || self.undo.len() == 0 {
            return false;
        }
        let ghost h = self@.history;
        proof {
            assert(group_ok(h.undo[h.undo.len() - 1], h.now));
        }
        let g = self.undo.pop().unwrap();
        proof {
            assert(group_view(g@) == h.undo.last());
        }
        let inv = apply_checkpoints(&mut self.cut_knots, &mut self.fader_knots, &g);
        self.redo.push(inv);
        proof {
            assert(stack_view(self.undo@) =~= h.undo.drop_last());
            assert(group_view(g@) == h.undo.last());
            assert(stack_view(self.redo@) =~= h.redo.push(invert_group(h.now, h.undo.last())));
            lemma_undone_wf(h);
            assert(self@.history == undone(h));
        }
        true
    }

    /// Redoes the newest redo group; the undo stack stays as it is, no fresh
    /// undo group is made. Refused during a drag; `true` when something was
    /// redone. An undo group may then meet curves other than those it was
    /// recorded against: a one-knot checkpoint that would put knots out of
    /// order or move a sentinel restores nothing (see `apply_entry`).
    pub fn redo(&mut self) -> (r: bool)
        requires
            old(self).wf(),
        ensures
            final(self).wf(),
            r == (!old(self)@.dragging && old(self)@.history.redo.len() > 0),
            r ==> final(self)@ == old(self)@.with_history(redone(old(self)@.history)),
            !r ==> final(self)@ == old(self)@,
    {
        if self.dragging || self.redo.len() == 0 {
            return false;
        }
        let ghost h = self@.history;
        proof {
            assert(group_ok(h.redo[h.redo.len() - 1], h.now));
        }
        let g = self.redo.pop().unwrap();
        proof {
            assert(group_view(g@) == h.redo.last());
        }
        let _ = apply_checkpoints(&mut self.cut_knots, &mut self.fader_knots, &g);
        proof {
            assert(stack_view(self.redo@) =~= h.redo.drop_last());
            lemma_redone_wf(h);
            assert(self@.history == redone(h));
        }
        true
    }

    /// Forgets the history: what stands now is the saved state.
    pub fn mark_saved(&mut self)
        requires
            old(self).wf(),
        ensures
            final(self).wf(),
            final(self)@ == old(self)@.with_history(
                History { now: old(self)@.now(), undo: Seq::empty(), redo: Seq::empty() },
            ),
    {
        self.undo = Vec::new();
        self.redo = Vec::new();
        assert(stack_view(self.undo@) =~= Seq::<Seq<Entry>>::empty());
        assert(stack_view(self.redo@) =~= Seq::<Seq<Entry>>::empty());
    }

    /// Deletes every selected interior knot of both curves, as one gesture.
    #[verifier::rlimit(60)]
    pub fn delete_selected(&mut self) -> (r: bool)
        requires
            old(self).wf(),
        ensures
            final(self).wf(),
            edited_to(
                old(self)@,
                final(self)@,
                Curves {
                    cut: without_selected(old(self)@.now().cut, 2),
                    fader: without_selected(old(self)@.now().fader, 1),
                },
            ),
            r == (final(self)@.now() != old(self)@.now()),
    {
        if self.dragging {
            return false;
        }
        let ghost prior = self@;
        let prior_cut = copy_knots(&self.cut_knots);
        let prior_fader = copy_knots(&self.fader_knots);
        delete_selected(&mut self.cut_knots, 2);
        delete_selected(&mut self.fader_knots, 1);
        let changed = !(same_knots(&prior_cut, &self.cut_knots) && same_knots(&prior_fader, &self.fader_knots));
        proof {
            let s = prior.now().cut;
            let n = self.cut_knots@;
            assert(n[0] == s[0] && n[1] == s[1]);
            assert(n[n.len() - 1] == s[s.len() - 1] && n[n.len() - 2] == s[s.len() - 2]);
        }
        self.record_snapshots(prior_cut, prior_fader, Ghost(prior));
        changed
    }

    /// Whether an edit since the last save can be undone.
    pub fn needs_save(&self) -> (r: bool)
        ensures
            r == (self@.history.undo.len() > 0),
    {
        self.undo.len() > 0
    }

    /// Number of undo groups.
    pub fn get_undo_len(&self) -> (r: usize)
        ensures
            r == self@.history.undo.len(),
    {
        self.undo.len()
    }

    /// Number of redo groups.
    pub fn get_redo_len(&self) -> (r: usize)
        ensures
            r == self@.history.redo.len(),
    {
        self.redo.len()
    }

    /// Grid steps per bar.
    pub fn quantization(&self) -> (r: u32)
        ensures
            r == self@.quantization,
    {
        self.quantization
    }

    /// Length of the cut in bars.
    pub fn bars(&self) -> (r: u32)
        ensures
            r == self@.bars,
    {
        self.bars
    }

    /// Whether the end of the cut curve is tied to its start.
    pub fn is_looped(&self) -> (r: bool)
        ensures
            r == self@.looping,
    {
        self.looping
    }

    /// Whether curve values past either end of the sample wrap around.
    pub fn is_warped(&self) -> (r: bool)
        ensures
            r == self@.warping,
    {
        self.warping
    }

    /// Sets looping.
    pub fn set_looping(&mut self, looping: bool)
        requires
            old(self).wf(),
        ensures
            final(self)@ == (CutView { looping, ..old(self)@ }),
            final(self).wf(),
    {
        self.looping = looping;
    }

    /// Sets warping.
    pub fn set_warping(&mut self, warping: bool)
        requires
            old(self).wf(),
        ensures
            final(self)@ == (CutView { warping, ..old(self)@ }),
            final(self).wf(),
    {
        self.warping = warping;
    }

    /// Whether a drag gesture is in progress.
    pub fn is_dragging(&self) -> (r: bool)
        ensures
            r == self@.dragging,
    {
        self.dragging
    }

    /// The knots of the cut curve.
    pub fn cut_knots(&self) -> (r: &Vec<Knot>)
        ensures
            r@ == self@.now().cut,
    {
        &self.cut_knots
    }

    /// The knots of the fader curve.
    pub fn fader_knots(&self) -> (r: &Vec<Knot>)
        ensures
            r@ == self@.now().fader,
    {
        &self.fader_knots
    }
}

impl Default for Cut {
    fn default() -> (r: Cut)
        ensures
            r.wf(),
            r@.now().cut == default_cut_knots(),
            r@.now().fader == default_fader_knots(),
            r@.history.undo.len() == 0,
            r@.history.redo.len() == 0,
    {
        Cut::new()
    }
}

/// In every session both curves are sorted strictly by time, the cut curve
/// keeps at least four knots and the fader two: every method of `Cut` keeps
/// `wf`, and undo and redo reach only well-formed curves.
pub proof fn law_curves_strictly_increasing(c: CutView)
    requires
        c.wf(),
    ensures
        forall|i: int, j: int|
            0 <= i < j < c.now().cut.len() ==> #[trigger] c.now().cut[i].time < #[trigger] c.now().cut[j].time,
        forall|i: int, j: int|
            0 <= i < j < c.now().fader.len() ==> #[trigger] c.now().fader[i].time < #[trigger] c.now().fader[j].time,
        c.now().cut.len() >= 4,
        c.now().fader.len() >= 2,
{
}

} // verus!
