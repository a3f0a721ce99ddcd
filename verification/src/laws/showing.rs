//! What is shown: peaks, tracks, labels, markers, rows; and which input is
//! captured for it.

use vstd::prelude::*;
use crate::audio::{ConfigRange, Format};
use crate::decoder::{Decode, DecodeData};
use crate::time::UtcTime;
use crate::tracks::TrackData;

verus! {

/// The element at index `k` in sorted order: at most `k` are less than it, and
/// more than `k` are no greater.
pub proof fn lemma_nth_in_sorted_order(keys: Seq<u32>, k: int, m: u32)
    ensures
        crate::order::is_nth(keys, k, m) <==> keys.filter(|x: u32| x < m).len() <= k
            < keys.filter(|x: u32| x <= m).len(),
{
    lemma_counts(keys, m);
}

proof fn lemma_counts(keys: Seq<u32>, m: u32)
    ensures
        crate::order::count_le(keys, m - 1) == keys.filter(|x: u32| x < m).len(),
        crate::order::count_le(keys, m as int) == keys.filter(|x: u32| x <= m).len(),
    decreases keys.len(),
{
    reveal(Seq::filter);
    if keys.len() > 0 {
        lemma_counts(keys.drop_last(), m);
    }
}

/// Bin `i` is a peak: a local maximum, from bin 68 to bin 954 and two short of
/// the end, above the threshold, and a number.
pub open spec fn peaks_at(keys: Seq<u32>, threshold: u32, i: int) -> bool {
    &&& 68 <= i < 955
    &&& i < keys.len() - 2
    &&& keys[i - 1] < keys[i]
    &&& keys[i + 1] <= keys[i]
    &&& threshold < keys[i] <= 0x7F80_0000
}

/// Of all peaks of a spectrum the six loudest are reported, the loudest first,
/// and of two as loud the lower; where there are no more than six, all are.
pub proof fn lemma_loudest_peaks_are_reported(keys: Seq<u32>, threshold: u32, r: Seq<usize>)
    requires
        keys.len() >= 2,
        crate::decoder::are_foremost(keys, threshold, keys.len() as int, r),
    ensures
        r.len() <= 6,
        forall|a: int| 0 <= a < r.len() ==> peaks_at(keys, threshold, (#[trigger] r[a]) as int),
        forall|a: int, b: int|
            0 <= a < b < r.len() ==> keys[(#[trigger] r[a]) as int] > keys[(
            #[trigger] r[b]) as int] || keys[r[a] as int] == keys[r[b] as int] && r[a] < r[b],
        forall|i: int|
            #![trigger peaks_at(keys, threshold, i)]
            peaks_at(keys, threshold, i) && !r.contains(i as usize) ==> r.len() == 6 && (
            keys[r[5] as int] > keys[i] || keys[r[5] as int] == keys[i] && r[5] < i),
{
    assert forall|a: int| 0 <= a < r.len() implies peaks_at(
        keys,
        threshold,
        (#[trigger] r[a]) as int,
    ) by {
        assert(crate::decoder::is_peak(keys, threshold, r[a] as int));
    }
    assert forall|a: int, b: int| 0 <= a < b < r.len() implies keys[(#[trigger] r[a]) as int]
        > keys[(#[trigger] r[b]) as int] || keys[r[a] as int] == keys[r[b] as int] && r[a]
        < r[b] by {
        assert(crate::decoder::ahead(keys, r[a] as int, r[b] as int));
    }
    assert forall|i: int|
        #![trigger peaks_at(keys, threshold, i)]
        peaks_at(keys, threshold, i) && !r.contains(i as usize) implies r.len() == 6 && (
    keys[r[5] as int] > keys[i] || keys[r[5] as int] == keys[i] && r[5] < i) by {
        assert(crate::decoder::is_peak(keys, threshold, i));
    }
}

/// The stub decoder says of each peak its frequency, its estimate against the
/// median, the slot's time and that it is single-shot.
pub proof fn lemma_peaks_become_decodes<
    F,
    T: Fn(u32) -> u32,
    R: Fn(u32, u32) -> i32,
    H: Fn(usize) -> F,
>(
    out: Seq<Decode<F>>,
    utc: UtcTime,
    keys: Seq<u32>,
    median: u32,
    level: u32,
    peaks: Seq<usize>,
    threshold: T,
    snr: R,
    freq: H,
    dt: F,
    k: int,
)
    requires
        crate::decoder::reports_peaks(
            out,
            utc,
            keys,
            median,
            level,
            peaks,
            threshold,
            snr,
            freq,
            dt,
        ),
        0 <= k < out.len(),
    ensures
        keys.filter(|x: u32| x < median).len() <= keys.len() as int / 2 < keys.filter(
            |x: u32| x <= median,
        ).len(),
        call_ensures(threshold, (median,), level),
        out.len() == peaks.len(),
        crate::decoder::are_foremost(keys, level, keys.len() as int, peaks),
        ({
            let d: DecodeData<F> = out[k]@;
            &&& d.utc == utc
            &&& d.dt == dt
            &&& call_ensures(freq, (peaks[k],), d.freq_hz)
            &&& call_ensures(snr, (keys[peaks[k] as int], median), d.snr_db)
            &&& d.message == crate::decoder::STUB_MESSAGE@
            &&& d.source is SingleShot
            &&& d.contrib_tags.len() == 0
        }),
{
    lemma_nth_in_sorted_order(keys, keys.len() as int / 2, median);
    assert(crate::decoder::reports_peak(out[k]@, utc, keys, median, peaks[k], snr, freq, dt));
}

/// Decode `i` is on track `t`.
pub open spec fn is_on(t: TrackData, i: int) -> bool {
    exists|a: int| 0 <= a < t.members.len() && #[trigger] t.members[a] == i
}

/// Every decode from the oldest slot shown on is on a track, and no other is.
/// Two of them are on one track exactly if they have the same key, which is
/// the track's. On a track they are in the order of their times, and of the
/// list where these are the same.
pub proof fn lemma_tracks_follow_the_senders<F>(
    decodes: Seq<Decode<F>>,
    oldest: i64,
    tracks: Seq<TrackData>,
)
    requires
        decodes.len() <= usize::MAX,
        crate::tracks::is_grouping(decodes, decodes.len() as int, oldest, tracks),
    ensures
        forall|i: int|
            0 <= i < decodes.len() && (#[trigger] decodes[i]).utc.secs as int / 15 >= oldest
                ==> exists|t: int| 0 <= t < tracks.len() && is_on(#[trigger] tracks[t], i),
        forall|t: int, i: int|
            0 <= t < tracks.len() && #[trigger] is_on(tracks[t], i) ==> {
                &&& 0 <= i < decodes.len()
                &&& decodes[i].utc.secs as int / 15 >= oldest
                &&& tracks[t].key == crate::tracks::key_of(decodes[i]@.message)
            },
        forall|t: int, u: int|
            0 <= t < tracks.len() && 0 <= u < tracks.len() && (#[trigger] tracks[t]).key == (
            #[trigger] tracks[u]).key ==> t == u,
        forall|t: int, a: int, b: int|
            #![trigger tracks[t].members[a], tracks[t].members[b]]
            0 <= t < tracks.len() && 0 <= a < b < tracks[t].members.len() ==> {
                let (i, j) = (tracks[t].members[a] as int, tracks[t].members[b] as int);
                &&& decodes[i].utc.secs <= decodes[j].utc.secs
                &&& decodes[i].utc.secs == decodes[j].utc.secs ==> i < j
            },
        forall|t: int| 0 <= t < tracks.len() ==> (#[trigger] tracks[t]).members.len() > 0,
{
    assert forall|i: int|
        0 <= i < decodes.len() && (#[trigger] decodes[i]).utc.secs as int / 15
            >= oldest implies exists|t: int|
        0 <= t < tracks.len() && is_on(#[trigger] tracks[t], i) by {
        assert(crate::tracks::in_view(decodes, oldest, i));
        assert(crate::tracks::is_held(tracks, i));
        let t = choose|t: int|
            0 <= t < tracks.len() && (#[trigger] tracks[t]).members.contains(i as usize);
        let a = tracks[t].members.index_of(i as usize);
        assert(tracks[t].members[a] == i);
        assert(is_on(tracks[t], i));
    }
    assert forall|t: int, i: int| 0 <= t < tracks.len() && #[trigger] is_on(tracks[t], i) implies {
        &&& 0 <= i < decodes.len()
        &&& decodes[i].utc.secs as int / 15 >= oldest
        &&& tracks[t].key == crate::tracks::key_of(decodes[i]@.message)
    } by {
        assert(crate::tracks::is_track(decodes, decodes.len() as int, oldest, tracks[t]));
        let a = choose|a: int|
            0 <= a < tracks[t].members.len() && #[trigger] tracks[t].members[a] == i;
        assert(crate::tracks::in_view(decodes, oldest, tracks[t].members[a] as int));
    }
    assert forall|t: int, u: int|
        0 <= t < tracks.len() && 0 <= u < tracks.len() && (#[trigger] tracks[t]).key == (
        #[trigger] tracks[u]).key implies t == u by {
        if t < u {
            assert(tracks[t].key != tracks[u].key);
        } else if u < t {
            assert(tracks[u].key != tracks[t].key);
        }
    }
    assert forall|t: int, a: int, b: int|
        #![trigger tracks[t].members[a], tracks[t].members[b]]
        0 <= t < tracks.len() && 0 <= a < b < tracks[t].members.len() implies {
        let (i, j) = (tracks[t].members[a] as int, tracks[t].members[b] as int);
        &&& decodes[i].utc.secs <= decodes[j].utc.secs
        &&& decodes[i].utc.secs == decodes[j].utc.secs ==> i < j
    } by {
        assert(crate::tracks::is_track(decodes, decodes.len() as int, oldest, tracks[t]));
        assert(crate::tracks::comes_before(
            decodes,
            tracks[t].members[a] as int,
            tracks[t].members[b] as int,
        ));
    }
    assert forall|t: int| 0 <= t < tracks.len() implies (#[trigger] tracks[t]).members.len()
        > 0 by {
        assert(crate::tracks::is_track(decodes, decodes.len() as int, oldest, tracks[t]));
    }
}

/// Label `i` is in the order.
pub open spec fn is_listed(order: Seq<usize>, i: int) -> bool {
    exists|a: int| 0 <= a < order.len() && #[trigger] order[a] == i
}

/// Labels are placed from the topmost wish down, each once, in the order of
/// the list where two wish for the same height; and each is placed by its own
/// wish and where the one above it went.
pub proof fn lemma_labels_are_placed_from_the_top<F, P: Fn(F, F) -> F>(
    keys: Seq<u32>,
    order: Seq<usize>,
    wants: Seq<F>,
    top: F,
    place: P,
    placed: Seq<F>,
)
    requires
        keys.len() <= usize::MAX,
        crate::tracks::is_top_down(keys, keys.len() as int, order),
        crate::tracks::is_placing(wants, top, place, placed),
    ensures
        order.len() == keys.len(),
        forall|i: int| 0 <= i < keys.len() ==> #[trigger] is_listed(order, i),
        forall|a: int, b: int|
            0 <= a < b < order.len() ==> keys[(#[trigger] order[a]) as int] <= keys[(
            #[trigger] order[b]) as int] && (keys[order[a] as int] == keys[order[b] as int]
                ==> order[a] < order[b]),
        placed.len() == wants.len(),
        placed.len() > 0 ==> call_ensures(place, (top, wants[0]), placed[0]),
        forall|k: int|
            1 <= k < placed.len() ==> call_ensures(
                place,
                (placed[k - 1], wants[k]),
                #[trigger] placed[k],
            ),
{
    assert forall|i: int| 0 <= i < keys.len() implies #[trigger] is_listed(order, i) by {
        assert(order.contains(i as usize));
        let a = order.index_of(i as usize);
        assert(order[a] == i);
    }
    assert forall|a: int, b: int| 0 <= a < b < order.len() implies keys[(
    #[trigger] order[a]) as int] <= keys[(#[trigger] order[b]) as int] && (keys[order[a] as int]
        == keys[order[b] as int] ==> order[a] < order[b]) by {
        assert(crate::tracks::is_above(keys, order[a] as int, order[b] as int));
    }
    if placed.len() > 0 {
        assert(placed[0] == placed[0]);
    }
}

/// There is one marker for each pair of rows that a multiple of 15 s lies
/// between, from the top down, and no other: it carries the row below the
/// boundary and the second of the minute at which the upper row's slot began.
pub proof fn lemma_markers_are_the_boundaries<R>(rows: Seq<(UtcTime, R)>, n: int)
    requires
        0 <= n < rows.len() <= usize::MAX,
    ensures
        ({
            let ms = crate::view::markers_in(rows, n);
            &&& forall|k: int|
                0 <= k < ms.len() ==> {
                    let i = (#[trigger] ms[k]).row - 1;
                    &&& 0 <= i < n
                    &&& rows[i].0.secs as int / 15 != rows[i + 1].0.secs as int / 15
                    &&& ms[k].second == rows[i].0.secs as int % 60 - rows[i].0.secs as int % 15
                }
            &&& forall|k: int, l: int|
                0 <= k < l < ms.len() ==> (#[trigger] ms[k]).row < (#[trigger] ms[l]).row
            &&& forall|i: int|
                0 <= i < n && (#[trigger] rows[i]).0.secs as int / 15 != rows[i + 1].0.secs as int
                    / 15 ==> exists|k: int|
                    0 <= k < ms.len() && (#[trigger] ms[k]).row == i + 1
        }),
    decreases n,
{
    let ms = crate::view::markers_in(rows, n);
    if n > 0 {
        lemma_markers_are_the_boundaries(rows, n - 1);
        let before = crate::view::markers_in(rows, n - 1);
        let s = rows[n - 1].0.secs as int;
        let differ = s / 15 != rows[n].0.secs as int / 15;
        assert(crate::view::is_boundary(rows, n - 1) == differ);
        assert((s / 15 * 15) % 60 == s % 60 - s % 15);
        assert forall|k: int| 0 <= k < ms.len() implies {
            let i = (#[trigger] ms[k]).row - 1;
            &&& 0 <= i < n
            &&& rows[i].0.secs as int / 15 != rows[i + 1].0.secs as int / 15
            &&& ms[k].second == rows[i].0.secs as int % 60 - rows[i].0.secs as int % 15
        } by {
            if k < before.len() {
                assert(ms[k] == before[k]);
            }
        }
        assert forall|k: int, l: int| 0 <= k < l < ms.len() implies (#[trigger] ms[k]).row < (
        #[trigger] ms[l]).row by {
            assert(ms[k] == before[k]);
            if l < before.len() {
                assert(ms[l] == before[l]);
            }
        }
        assert forall|i: int|
            0 <= i < n && (#[trigger] rows[i]).0.secs as int / 15 != rows[i + 1].0.secs as int
                / 15 implies exists|k: int|
            0 <= k < ms.len() && (#[trigger] ms[k]).row == i + 1 by {
            if i < n - 1 {
                let k = choose|k: int|
                    0 <= k < before.len() && (#[trigger] before[k]).row == i + 1;
                assert(ms[k] == before[k]);
            } else {
                assert(ms[before.len() as int].row == n);
            }
        }
    }
}

/// A new row is the topmost, those before it move down by one, and none is
/// lost until there are 320.
pub proof fn lemma_rows_move_down<R>(rows: Seq<(UtcTime, R)>, row: (UtcTime, R))
    requires
        rows.len() <= 320,
    ensures
        ({
            let post = crate::view::on_top(rows, row);
            &&& post.len() == if rows.len() < 320 {
                rows.len() + 1
            } else {
                320
            }
            &&& post[0] == row
            &&& forall|i: int| 1 <= i < post.len() ==> #[trigger] post[i] == rows[i - 1]
        }),
{
}

/// The log holds its latest 500 entries, in order.
pub proof fn lemma_log_holds_the_latest<T>(all: Seq<T>)
    ensures
        ({
            let log = crate::view::latest(all);
            &&& log.len() == if all.len() < 500 {
                all.len()
            } else {
                500
            }
            &&& forall|k: int|
                0 <= k < log.len() ==> #[trigger] log[k] == all[all.len() - log.len() + k]
        }),
{
}

/// A row of the decode table shows the decode's time of day, its SNR and its
/// badge.
pub proof fn lemma_row_shows_the_decode<F>(row: crate::view::TableRow, d: Decode<F>)
    requires
        crate::view::shows(row, d),
    ensures
        row.utc@ == crate::time::clock_text(d.utc, seq![':']),
        row.snr@ == crate::text::signed_of(d.snr_db as int),
        row.badge@ == d.source.badge_text(),
{
}

/// A decode says what its fields hold, and a list of them what each says, in
/// order.
pub proof fn lemma_decodes_say_what_they_hold<F>(ds: Seq<Decode<F>>, k: int)
    requires
        0 <= k < ds.len(),
    ensures
        crate::decoder::said(ds).len() == ds.len(),
        ({
            let d: DecodeData<F> = crate::decoder::said(ds)[k];
            &&& d.utc == ds[k].utc
            &&& d.snr_db == ds[k].snr_db
            &&& d.dt == ds[k].dt
            &&& d.freq_hz == ds[k].freq_hz
            &&& d.message == ds[k].message@
            &&& d.source == ds[k].source
            &&& d.contrib_tags == ds[k].contrib_tags@
        }),
{
}

/// So does a spot.
pub proof fn lemma_spots_say_what_they_hold(s: crate::pskreporter::Spot)
    ensures
        s@.call == s.call@,
        s@.grid == s.grid@,
        s@.freq_hz == s.freq_hz,
        s@.snr == s.snr,
        s@.mode == s.mode@,
        s@.time == s.time,
{
}

/// So does a track, and a stripe.
pub proof fn lemma_tracks_and_stripes_say_what_they_hold<F>(
    t: crate::tracks::StationTrack,
    s: crate::skimmer::SkimmerStripe<F>,
    k: int,
)
    requires
        0 <= k < s.subcols@.len(),
    ensures
        t@.key == t.key@,
        t@.members == t.members@,
        s@.slot == s.slot,
        s@.subcols.len() == s.subcols@.len(),
        s@.subcols[k] == s.subcols@[k]@,
{
}

/// A message is grouped by its sender, and by its own text if it has none.
pub proof fn lemma_key_is_the_sender_or_the_text(message: Seq<char>)
    ensures
        crate::pskreporter::sender_of(message) matches Some(call) ==> crate::tracks::key_of(message)
            == call,
        crate::pskreporter::sender_of(message) is None ==> crate::tracks::key_of(message)
            == message,
{
}

/// How much a rate is wanted: the lower the more.
pub open spec fn rank(rate: u32) -> int {
    if rate == 48_000 {
        0
    } else if rate == 24_000 {
        1
    } else if rate == 12_000 {
        2
    } else if rate == 96_000 {
        3
    } else if rate == 44_100 {
        4
    } else {
        5
    }
}

/// A device can be captured from at `rate` with range `r`.
pub open spec fn captures(r: ConfigRange, rate: u32) -> bool {
    &&& r.channels > 0
    &&& r.min_rate <= rate
    &&& rate <= r.max_rate
    &&& r.format == Format::F32 || r.format == Format::I16 || r.format == Format::U16
}

/// The rate that is captured at is one of the five wanted, and no range
/// captures at one that is wanted more; of the ranges that capture at it the
/// first is taken. Where there is no choice, no range captures at any of them.
pub proof fn lemma_most_wanted_rate_is_captured(
    ranges: Seq<ConfigRange>,
    choice: Option<(usize, u32)>,
    i: int,
    rate: u32,
)
    requires
        crate::audio::is_choice(ranges, choice),
        0 <= i < ranges.len(),
        rank(rate) < 5,
        captures(ranges[i], rate),
    ensures
        choice is Some,
        ({
            let (at, got) = choice.unwrap();
            &&& at < ranges.len()
            &&& captures(ranges[at as int], got)
            &&& rank(got) <= rank(rate)
            &&& got == rate ==> at <= i
        }),
{
    let wanted = crate::audio::wanted_rates();
    assert(wanted[0] == 48_000 && wanted[1] == 24_000 && wanted[2] == 12_000 && wanted[3] == 96_000
        && wanted[4] == 44_100);
    let k = rank(rate);
    assert(wanted[k] == rate);
    assert(ranges[i].offers(rate));
    assert(crate::audio::some_offers(ranges, wanted[k]));
    if let Some((at, got)) = choice {
        assert(ranges[at as int].offers(got));
        let j = choose|j: int|
            {
                &&& 0 <= j < wanted.len()
                &&& #[trigger] wanted[j] == got
                &&& forall|l: int|
                    0 <= l < j ==> !crate::audio::some_offers(ranges, #[trigger] wanted[l])
            };
        assert(rank(got) == j);
        if k < j {
            assert(!crate::audio::some_offers(ranges, wanted[k]));
        }
    }
}

/// What is chosen can be captured, at a wanted rate.
pub proof fn lemma_choice_is_possible(ranges: Seq<ConfigRange>, choice: Option<(usize, u32)>)
    requires
        crate::audio::is_choice(ranges, choice),
    ensures
        choice matches Some((at, rate)) ==> at < ranges.len() && captures(
            ranges[at as int],
            rate,
        ) && rank(rate) < 5,
{
    let wanted = crate::audio::wanted_rates();
    if let Some((at, rate)) = choice {
        let j = choose|j: int|
            {
                &&& 0 <= j < wanted.len()
                &&& #[trigger] wanted[j] == rate
                &&& forall|l: int|
                    0 <= l < j ==> !crate::audio::some_offers(ranges, #[trigger] wanted[l])
            };
        assert(wanted[j] == rate);
        assert(wanted[0] == 48_000 && wanted[1] == 24_000 && wanted[2] == 12_000 && wanted[3]
            == 96_000 && wanted[4] == 44_100);
    }
}

/// A frame's first sample is what is kept of it.
pub proof fn lemma_first_channel_is_kept<S, T, C: Fn(S) -> T>(
    data: Seq<S>,
    channels: int,
    convert: C,
    k: int,
    v: T,
)
    requires
        channels > 0,
        crate::audio::is_mixed(data, channels, convert, k, v),
    ensures
        0 <= k * channels < data.len(),
        call_ensures(convert, (data[k * channels],), v),
{
}

/// There are as many frames as begin in the data.
pub proof fn lemma_every_frame_counts(len: int, channels: int)
    requires
        0 <= len,
        channels > 0,
    ensures
        len <= crate::audio::frames(len, channels) * channels < len + channels,
{
    let x = len + channels - 1;
    vstd::arithmetic::div_mod::lemma_fundamental_div_mod(x, channels);
    vstd::arithmetic::div_mod::lemma_mod_bound(x, channels);
    let f = crate::audio::frames(len, channels);
    assert(channels * f == f * channels) by (nonlinear_arith);
}

} // verus!
