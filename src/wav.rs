use vstd::prelude::*;

verus! {

/// Shortest stretch of the sample, in frames, that a length drag leaves.
pub const MIN_LEN: usize = 10_000;

/// The stretch of a sample that a cut plays: where it starts (wrapping
/// round the sample) and how many frames it spans.
#[derive(Clone, Copy, Debug, PartialEq, Eq, Structural)]
pub struct Span {
    pub offset: usize,
    pub len: usize,
}

/// The stretch of the sample in use, with its own undo and redo stacks of
/// earlier stretches.
pub struct Wav {
    data: Span,
    undo: Vec<Span>,
    redo: Vec<Span>,
}

/// What a `Wav` holds, as mathematical values.
pub struct WavView {
    pub data: Span,
    pub undo: Seq<Span>,
    pub redo: Seq<Span>,
}

/// Length after a drag by `delta` frames: `len - delta`, at least
/// `MIN_LEN` and at most `sample_len` (the sample's length wins).
pub open spec fn dragged_len(len: int, delta: int, sample_len: int) -> int {
    let l = if len - delta < MIN_LEN { MIN_LEN as int } else { len - delta };
    if l > sample_len {
        sample_len
    } else {
        l
    }
}

/// Offset after a drag by `delta` frames, wrapping round a sample of
/// `sample_len` frames.
pub open spec fn dragged_offset(offset: int, delta: int, sample_len: int) -> int {
    (offset - delta) % sample_len
}

impl View for Wav {
    type V = WavView;

    closed spec fn view(&self) -> WavView {
        WavView { data: self.data, undo: self.undo@, redo: self.redo@ }
    }
}

impl Wav {
    /// No stretch yet: offset 0, length 0, empty history.
    pub fn new() -> (r: Wav)
        ensures
            r@.data == (Span { offset: 0, len: 0 }),
            r@.undo.len() == 0,
            r@.redo.len() == 0,
    {
        Wav { data: Span { offset: 0, len: 0 }, undo: Vec::new(), redo: Vec::new() }
    }

    /// The stretch in use.
    pub fn span(&self) -> (r: Span)
        ensures
            r == self@.data,
    {
        self.data
    }

    /// Where the stretch starts.
    pub fn get_data_offset(&self) -> (r: usize)
        ensures
            r == self@.data.offset,
    {
        self.data.offset
    }

    /// Sets where the stretch starts, unrecorded.
    pub fn set_data_offset(&mut self, offset: usize)
        ensures
            final(self)@ == (WavView { data: Span { offset, len: old(self)@.data.len }, ..old(self)@ }),
    {
        self.data.offset = offset;
    }

    /// Sets the length of the stretch, unrecorded.
    pub fn set_data_len(&mut self, len: usize)
        ensures
            final(self)@ == (WavView { data: Span { offset: old(self)@.data.offset, len }, ..old(self)@ }),
    {
        self.data.len = len;
    }

    /// The length of the stretch.
    pub fn get_data_len(&self) -> (r: usize)
        ensures
            r == self@.data.len,
    {
        self.data.len
    }

    /// Number of undo entries.
    pub fn get_undo_len(&self) -> (r: usize)
        ensures
            r == self@.undo.len(),
    {
        self.undo.len()
    }

    /// Number of redo entries.
    pub fn get_redo_len(&self) -> (r: usize)
        ensures
            r == self@.redo.len(),
    {
        self.redo.len()
    }

    /// Whether there is a change to undo.
    pub fn needs_save(&self) -> (r: bool)
        ensures
            r == (self@.undo.len() > 0),
    {
        self.undo.len() > 0
    }

    /// Forgets the history.
    pub fn clear_undo_redo(&mut self)
        ensures
            final(self)@ == (WavView { data: old(self)@.data, undo: Seq::empty(), redo: Seq::empty() }),
    {
        self.undo = Vec::new();
        self.redo = Vec::new();
    }

    /// Starts a change: the stretch as it stands is pushed for undo and redo
    /// is cleared.
    pub fn begin_change(&mut self)
        ensures
            final(self)@ == (WavView { data: old(self)@.data, undo: old(self)@.undo.push(old(self)@.data), redo: Seq::empty() }),
    {
        self.undo.push(self.data);
        self.redo = Vec::new();
    }

    /// Drags the length by `delta` frames, as `dragged_len` says.
    pub fn drag_len(&mut self, delta: i64, sample_len: usize)
        ensures
            final(self)@ == (WavView {
                data: Span {
                    offset: old(self)@.data.offset,
                    len: dragged_len(old(self)@.data.len as int, delta as int, sample_len as int) as usize,
                },
                ..old(self)@
            }),
    {
        let l = self.data.len as i128 - delta as i128;
        let l = if l < MIN_LEN as i128 { MIN_LEN as i128 } else { l };
        let l = if l > sample_len as i128 { sample_len as i128 } else { l };
        self.data.len = l as usize;
    }

    /// Drags the offset by `delta` frames, wrapping round a sample of
    /// `sample_len` frames, as `dragged_offset` says.
    pub fn drag_offset(&mut self, delta: i64, sample_len: usize)
        requires
            sample_len > 0,
        ensures
            final(self)@ == (WavView {
                data: Span {
                    offset: dragged_offset(old(self)@.data.offset as int, delta as int, sample_len as int) as usize,
                    len: old(self)@.data.len,
                },
                ..old(self)@
            }),
    {
        let x = self.data.offset as i128 - delta as i128;
        let m = sample_len as u128;
        let o: u128 = if x >= 0 {
            (x as u128) % m
        } else {
            let n = (-x) as u128;
            let y = n % m;
            proof {
                let q = (n / m) as int;
                vstd::arithmetic::div_mod::lemma_fundamental_div_mod(n as int, m as int);
                if y == 0 {
                    assert(x == (-q) * m + 0) by (nonlinear_arith)
                        requires
                            n == q * m + y,
                            y == 0,
                            x == -n,
                    ;
                    vstd::arithmetic::div_mod::lemma_fundamental_div_mod_converse(x as int, m as int, -q, 0);
                } else {
                    assert(x == (-q - 1) * m + (m - y)) by (nonlinear_arith)
                        requires
                            n == q * m + y,
                            x == -n,
                    ;
                    vstd::arithmetic::div_mod::lemma_fundamental_div_mod_converse(
                        x as int,
                        m as int,
                        -q - 1,
                        m - y,
                    );
                }
            }
            if y == 0 {
                0
            } else {
                m - y
            }
        };
        self.data.offset = o as usize;
    }

    /// Returns to the newest undo entry; the stretch it replaces goes on the
    /// redo stack. `true` when there was one.
    pub fn undo(&mut self) -> (r: bool)
        ensures
            r == (old(self)@.undo.len() > 0),
            r ==> final(self)@ == (WavView {
                data: old(self)@.undo.last(),
                undo: old(self)@.undo.drop_last(),
                redo: old(self)@.redo.push(old(self)@.data),
            }),
            !r ==> final(self)@ == old(self)@,
    {
        match self.undo.pop() {
            Some(d) => {
                self.redo.push(self.data);
                self.data = d;
                true
            },
            None => false,
        }
    }

    /// Returns to the newest redo entry; the stretch it replaces goes on the
    /// undo stack. `true` when there was one.
    pub fn redo(&mut self) -> (r: bool)
        ensures
            r == (old(self)@.redo.len() > 0),
            r ==> final(self)@ == (WavView {
                data: old(self)@.redo.last(),
                undo: old(self)@.undo.push(old(self)@.data),
                redo: old(self)@.redo.drop_last(),
            }),
            !r ==> final(self)@ == old(self)@,
    {
        match self.redo.pop() {
            Some(d) => {
                self.undo.push(self.data);
                self.data = d;
                true
            },
            None => false,
        }
    }

    /// Frame of the sample that position `p` of the stretch plays:
    /// `p + offset`, or `None` when that does not fit a `usize`.
    pub fn sample_index(&self, p: usize) -> (r: Option<usize>)
        ensures
            r == (if p + self@.data.offset <= usize::MAX {
                Some((p + self@.data.offset) as usize)
            } else {
                None::<usize>
            }),
    {
        p.checked_add(self.data.offset)
    }
}

impl Default for Wav {
    fn default() -> (r: Wav)
        ensures
            r@.data == (Span { offset: 0, len: 0 }),
            r@.undo.len() == 0,
            r@.redo.len() == 0,
    {
        Wav::new()
    }
}

/// An undo followed by a redo gives back the stretch and both stacks.
pub proof fn law_wav_undo_redo(w: WavView)
    requires
        w.undo.len() > 0,
    ensures
        ({
            let u = WavView { data: w.undo.last(), undo: w.undo.drop_last(), redo: w.redo.push(w.data) };
            let back = WavView { data: u.redo.last(), undo: u.undo.push(u.data), redo: u.redo.drop_last() };
            back == w
        }),
{
    assert(w.redo.push(w.data).drop_last() =~= w.redo);
    assert(w.undo.drop_last().push(w.undo.last()) =~= w.undo);
}

} // verus!
