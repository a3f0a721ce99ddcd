//! What the two views show.
//!
//! [`Dashboard`] collects what comes from the pipeline and the decoder: the
//! rows of the classic waterfall, the skimmer's buffer, the list of decodes,
//! the level and the slot count. Painting is the caller's.

use vstd::prelude::*;
use std::collections::VecDeque;
use crate::decoder::Decode;
use crate::order::nth_key;
use crate::skimmer::SkimmerWaterfall;
use crate::text::signed;
use crate::time::{floor_div_mod, UtcTime, SLOT_SECS};

verus! {

/// Rows of waterfall history kept on screen.
pub const WF_HEIGHT: usize = 320;

/// Cap on the decode list.
pub const MAX_DECODES: usize = 500;

/// The classic waterfall's rows, newest first, each with its UTC.
pub struct Waterfall<R> {
    rows: VecDeque<(UtcTime, R)>,
}

impl<R> View for Waterfall<R> {
    type V = Seq<(UtcTime, R)>;

    closed spec fn view(&self) -> Seq<(UtcTime, R)> {
        self.rows@
    }
}

/// The rows once `row` has been put on top; the oldest makes way if there are
/// too many.
pub open spec fn on_top<R>(rows: Seq<(UtcTime, R)>, row: (UtcTime, R)) -> Seq<(UtcTime, R)> {
    let all = seq![row] + rows;
    if all.len() > WF_HEIGHT {
        all.take(WF_HEIGHT as int)
    } else {
        all
    }
}

/// The 15 s slot that a row falls into.
pub open spec fn block_of(t: UtcTime) -> int {
    crate::time::slot_index(t.secs as int)
}

/// A slot boundary on the waterfall.
#[derive(Clone, Copy, Debug, PartialEq, Eq, Structural)]
pub struct Marker {
    /// The boundary lies above this row.
    pub row: usize,
    /// Second of the minute at which the newer slot began.
    pub second: i64,
}

/// A boundary lies between row `i` and the one below it.
pub open spec fn is_boundary<R>(rows: Seq<(UtcTime, R)>, i: int) -> bool {
    block_of(rows[i].0) != block_of(rows[i + 1].0)
}

/// The boundaries among the first `n` gaps between rows, topmost first.
pub open spec fn markers_in<R>(rows: Seq<(UtcTime, R)>, n: int) -> Seq<Marker>
    decreases n,
{
    if n <= 0 {
        seq![]
    } else {
        let before = markers_in(rows, n - 1);
        if is_boundary(rows, n - 1) {
            before.push(
                Marker {
                    row: n as usize,
                    second: ((block_of(rows[n - 1].0) * SLOT_SECS) % 60) as i64,
                },
            )
        } else {
            before
        }
    }
}

impl<R> Waterfall<R> {
    #[verifier::type_invariant]
    spec fn inv(self) -> bool {
        self@.len() <= WF_HEIGHT
    }

    /// A waterfall without rows.
    pub fn new() -> (w: Self)
        ensures
            w@ == Seq::<(UtcTime, R)>::empty(),
    {
        Waterfall { rows: VecDeque::new() }
    }

    /// Puts a row on top; only the latest rows are kept.
    pub fn push(&mut self, utc: UtcTime, row: R)
        ensures
            final(self)@ == on_top(old(self)@, (utc, row)),
            final(self)@.len() <= WF_HEIGHT,
    {
        proof {
            use_type_invariant(&*self);
        }
        let ghost before = self@;
        let mut rows: VecDeque<(UtcTime, R)> = VecDeque::new();
        std::mem::swap(&mut rows, &mut self.rows);
        rows.push_front((utc, row));
        if rows.len() > WF_HEIGHT {
            let _ = rows.pop_back();
        }
        assert(rows@ == on_top(before, (utc, row)));
        self.rows = rows;
    }

    /// Forgets all rows.
    pub fn clear(&mut self)
        ensures
            final(self)@ == Seq::<(UtcTime, R)>::empty(),
    {
        self.rows = VecDeque::new();
    }

    /// Number of rows.
    pub fn len(&self) -> (n: usize)
        ensures
            n == self@.len(),
            n <= WF_HEIGHT,
    {
        proof {
            use_type_invariant(self);
        }
        self.rows.len()
    }

    /// The row at index `i`, newest first.
    pub fn row(&self, i: usize) -> (r: &(UtcTime, R))
        requires
            i < self@.len(),
        ensures
            *r == self@[i as int],
    {
        &self.rows[i]
    }

    /// Slot boundaries (`:00 :15 :30 :45`): wherever the 15 s slot changes
    /// from one row to the next, tagged with the second at which the newer
    /// row's slot began.
    pub fn slot_markers(&self) -> (out: Vec<Marker>)
        ensures
            out@ == markers_in(self@, self@.len() - 1),
    {
        let mut out: Vec<Marker> = Vec::new();
        let n: usize = self.rows.len();
        if n < 2 {
            assert(markers_in(self@, n - 1) == out@);
            return out;
        }
        let mut i: usize = 0;
        while i < n - 1
            invariant
                n == self.rows@.len(),
                n >= 2,
                i <= n - 1,
                out@ == markers_in(self@, i as int),
            decreases n - i,
        {
            let newer: i64 = self.rows[i].0.slot();
            let older: i64 = self.rows[i + 1].0.slot();
            assert(newer == block_of(self@[i as int].0));
            assert(older == block_of(self@[i + 1].0));
            if newer != older {
                // Four slots to the minute.
                let second: i64 = floor_div_mod(newer, 4).1 * SLOT_SECS;
                assert(second == (newer * SLOT_SECS) % 60);
                out.push(Marker { row: i + 1, second });
            }
            i += 1;
        }
        out
    }
}

/// Magnitude key of the noise floor of a column: its 15th percentile.
pub fn noise_key(keys: &[u32]) -> (m: u32)
    requires
        0 < keys@.len(),
        keys@.len() * 15 <= usize::MAX,
    ensures
        crate::order::is_nth(keys@, keys@.len() as int * 15 / 100, m),
{
    nth_key(keys, keys.len() * 15 / 100)
}

/// The latest [`MAX_DECODES`] entries of a list.
pub open spec fn latest<T>(all: Seq<T>) -> Seq<T> {
    if all.len() <= MAX_DECODES {
        all
    } else {
        all.skip(all.len() - MAX_DECODES)
    }
}

/// Appends a batch to the log; only the latest entries are kept.
pub fn extend_log<T>(log: &mut Vec<T>, batch: Vec<T>)
    ensures
        final(log)@ == latest(old(log)@ + batch@),
        final(log)@.len() <= MAX_DECODES,
{
    let mut batch = batch;
    log.append(&mut batch);
    let n: usize = log.len();
    if n > MAX_DECODES {
        let tail = log.split_off(n - MAX_DECODES);
        *log = tail;
    }
}

/// Batches come one after the other: how decodes are batched makes no
/// difference to what the log holds.
pub proof fn lemma_log_batches<T>(log: Seq<T>, a: Seq<T>, b: Seq<T>)
    ensures
        latest(latest(log + a) + b) == latest(log + (a + b)),
{
    assert(log + (a + b) == (log + a) + b);
    let all = log + (a + b);
    assert(latest(latest(log + a) + b) =~= latest(all));
}

/// One row of the decode table, as far as it is text.
pub struct TableRow {
    /// Index of the decode.
    pub index: usize,
    /// Time of day of its slot.
    pub utc: String,
    /// SNR with its sign.
    pub snr: String,
    /// How it was obtained.
    pub badge: String,
}

/// `row` shows decode `d`.
pub open spec fn shows<F>(row: TableRow, d: Decode<F>) -> bool {
    &&& row.utc@ == crate::time::clock_text(d.utc, seq![':'])
    &&& row.snr@ == crate::text::signed_of(d.snr_db as int)
    &&& row.badge@ == d.source.badge_text()
}

/// The rows of the decode table, newest first.
pub fn table_rows<F>(decodes: &[Decode<F>]) -> (rows: Vec<TableRow>)
    requires
        forall|i: int| 0 <= i < decodes@.len() ==> (#[trigger] decodes@[i]).utc.wf(),
    ensures
        rows@.len() == decodes@.len(),
        forall|k: int|
            0 <= k < rows@.len() ==> {
                &&& (#[trigger] rows@[k]).index == decodes@.len() - 1 - k
                &&& shows(rows@[k], decodes@[decodes@.len() - 1 - k])
            },
{
    let mut rows: Vec<TableRow> = Vec::new();
    let n: usize = decodes.len();
    while rows.len() < n
        invariant
            n == decodes@.len(),
            rows@.len() <= n,
            forall|i: int| 0 <= i < decodes@.len() ==> (#[trigger] decodes@[i]).utc.wf(),
            forall|k: int|
                0 <= k < rows@.len() ==> {
                    &&& (#[trigger] rows@[k]).index == n - 1 - k
                    &&& shows(rows@[k], decodes@[n - 1 - k])
                },
        decreases n - rows@.len(),
    {
        let index: usize = n - 1 - rows.len();
        let d = &decodes[index];
        rows.push(
            TableRow {
                index,
                utc: d.utc.clock(),
                snr: signed(d.snr_db),
                badge: d.source.badge(),
            },
        );
    }
    rows
}

/// Everything the views show.
pub struct Dashboard<F, R> {
    pub waterfall: Waterfall<R>,
    pub skimmer: SkimmerWaterfall<F>,
    pub decodes: Vec<Decode<F>>,
    pub slot_count: usize,
    pub level: F,
}

impl<F: Copy, R> Dashboard<F, R> {
    /// A dashboard with nothing to show; `zero` is the level and the
    /// magnitude of nothing.
    pub fn new(zero: F) -> (d: Self)
        ensures
            d.waterfall@.len() == 0,
            d.skimmer@.ok(),
            d.skimmer@.stripes.len() == 0,
            d.skimmer@ == d.skimmer@.restarted(None),
            d.skimmer@.zero == zero,
            d.decodes@.len() == 0,
            d.slot_count == 0,
            d.level == zero,
    {
        Dashboard {
            waterfall: Waterfall::new(),
            skimmer: SkimmerWaterfall::new(zero),
            decodes: Vec::new(),
            slot_count: 0,
            level: zero,
        }
    }

    /// Capture begins: the waterfalls and the slot count start afresh. The
    /// decodes stay.
    pub fn start(&mut self)
        ensures
            final(self).waterfall@.len() == 0,
            final(self).skimmer@.ok(),
            final(self).skimmer@ == (crate::skimmer::Buffer {
                stripes: seq![],
                ..old(self).skimmer@.restarted(None)
            }),
            final(self).slot_count == 0,
            final(self).decodes@ == old(self).decodes@,
            final(self).level == old(self).level,
    {
        self.waterfall.clear();
        self.skimmer.clear();
        self.slot_count = 0;
    }

    /// Takes in a waterfall column: its row for the classic view, and its
    /// magnitudes for the skimmer. `plus` and `mean` are as for
    /// [`SkimmerWaterfall::push_column`].
    pub fn take_spectrum<P: Fn(F, F) -> F, M: Fn(F, u32) -> F>(
        &mut self,
        utc: UtcTime,
        row: R,
        mags: &[F],
        plus: P,
        mean: M,
    )
        requires
            utc.nanos < 2_000_000_000,
            old(self).skimmer@.slot != Some(crate::time::slot_index(utc.secs as int) as i64)
                || old(self).skimmer@.counts[crate::skimmer::subcol_of(utc)] < u32::MAX,
            forall|a: F, b: F| call_requires(plus, (a, b)),
            forall|v: F, n: u32| call_requires(mean, (v, n)),
        ensures
            final(self).waterfall@ == on_top(old(self).waterfall@, (utc, row)),
            final(self).skimmer@.ok(),
            old(self).skimmer@.takes_column(utc, mags@, final(self).skimmer@, plus, mean),
            final(self).decodes@ == old(self).decodes@,
            final(self).slot_count == old(self).slot_count,
            final(self).level == old(self).level,
    {
        self.waterfall.push(utc, row);
        self.skimmer.push_column(utc, mags, plus, mean);
    }

    /// Takes in the level of the most recent chunk.
    pub fn take_level(&mut self, level: F)
        ensures
            final(self).level == level,
            final(self).waterfall@ == old(self).waterfall@,
            final(self).skimmer@ == old(self).skimmer@,
            final(self).decodes@ == old(self).decodes@,
            final(self).slot_count == old(self).slot_count,
    {
        self.level = level;
    }

    /// Counts a slot.
    pub fn take_slot(&mut self)
        requires
            old(self).slot_count < usize::MAX,
        ensures
            final(self).slot_count == old(self).slot_count + 1,
            final(self).waterfall@ == old(self).waterfall@,
            final(self).skimmer@ == old(self).skimmer@,
            final(self).decodes@ == old(self).decodes@,
            final(self).level == old(self).level,
    {
        self.slot_count = self.slot_count + 1;
    }

    /// Takes in a batch of decodes; only the latest are kept.
    pub fn take_decodes(&mut self, batch: Vec<Decode<F>>)
        ensures
            final(self).decodes@ == latest(old(self).decodes@ + batch@),
            final(self).waterfall@ == old(self).waterfall@,
            final(self).skimmer@ == old(self).skimmer@,
            final(self).slot_count == old(self).slot_count,
            final(self).level == old(self).level,
    {
        extend_log(&mut self.decodes, batch);
    }
}

} // verus!
