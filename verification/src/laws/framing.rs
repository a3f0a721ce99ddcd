//! Slots and FFT windows: where in the stream they lie, and how they are
//! dated.

use vstd::prelude::*;
use crate::pipeline::Framed;
use crate::time::UtcTime;

verus! {

/// Nanoseconds since the epoch, leap seconds aside.
pub open spec fn nanos_of(t: UtcTime) -> int {
    t.secs * 1_000_000_000 + t.nanos
}

/// The first slot begins at the first multiple of 15 s past the second in
/// which the stream starts, twelve samples for each whole millisecond on.
pub proof fn lemma_first_slot_begins_at_the_next_boundary(start: UtcTime)
    requires
        start.wf(),
        start.nanos < 1_000_000_000,
        crate::slot::first_boundary(start) <= crate::time::MAX_SECS,
    ensures
        ({
            let b = crate::slot::first_boundary(start);
            let ns = b * 1_000_000_000 - nanos_of(start);
            &&& b % 15 == 0
            &&& start.secs < b <= start.secs + 15
            &&& ns > 0
            &&& crate::slot::lead_in(start) == ns / 1_000_000 * 12
        }),
{
    let s = start.secs as int;
    let b = crate::slot::first_boundary(start);
    assert(b == (s / 15 + 1) * 15);
    let boundary = UtcTime { secs: b as i64, nanos: 0 };
    let ns = b * 1_000_000_000 - nanos_of(start);
    assert(crate::time::nanos_between(boundary, start) == ns);
    assert(crate::time::millis_between(boundary, start) == ns / 1_000_000);
}

/// Adding milliseconds moves an instant on by just so much.
pub proof fn lemma_milliseconds_add(t: UtcTime, ms: int)
    requires
        t.nanos < 1_000_000_000,
        0 <= ms,
    ensures
        ({
            let (secs, nanos) = crate::time::millis_after(t, ms);
            &&& 0 <= nanos < 1_000_000_000
            &&& secs * 1_000_000_000 + nanos == nanos_of(t) + ms * 1_000_000
        }),
{
    let sum = t.nanos as int + (ms % 1000) * 1_000_000;
    assert(ms == (ms / 1000) * 1000 + ms % 1000);
    assert(sum == (sum / 1_000_000_000) * 1_000_000_000 + sum % 1_000_000_000);
}

/// The milliseconds between two instants are those of the nanoseconds between
/// them, the fraction dropped.
pub proof fn lemma_milliseconds_between(a: UtcTime, b: UtcTime)
    requires
        a.nanos < 1_000_000_000,
        b.nanos < 1_000_000_000,
    ensures
        nanos_of(a) >= nanos_of(b) ==> crate::time::millis_between(a, b) == (nanos_of(a) - nanos_of(
            b,
        )) / 1_000_000,
        crate::time::millis_between(a, b) == -crate::time::millis_between(b, a),
{
    assert(crate::time::nanos_between(a, b) == nanos_of(a) - nanos_of(b));
    assert(crate::time::nanos_between(b, a) == nanos_of(b) - nanos_of(a));
}

/// The number that two digits stand for.
pub open spec fn pair_at(s: Seq<char>, o: int) -> int {
    10 * (s[o] as int - '0' as int) + (s[o + 1] as int - '0' as int)
}

/// The time of day reads back as the second of the day: two digits each for
/// hour, minute and second, with `sep` in between. A leap second is the
/// sixtieth of its minute.
pub proof fn lemma_clock_reads_back(t: UtcTime, sep: Seq<char>)
    requires
        t.wf(),
    ensures
        ({
            let s = crate::time::clock_text(t, sep);
            let n = sep.len() as int;
            let (h, m, sec) = (pair_at(s, 0), pair_at(s, 2 + n), pair_at(s, 4 + 2 * n));
            &&& s.len() == 6 + 2 * n
            &&& s.subrange(2, 2 + n) == sep
            &&& s.subrange(4 + n, 4 + 2 * n) == sep
            &&& 0 <= h < 24 && 0 <= m < 60 && 0 <= sec <= 60
            &&& sec == 60 <==> t.nanos >= 1_000_000_000
            &&& h * 3600 + m * 60 + sec == t.secs as int % 86_400 + (if sec == 60 {
                1int
            } else {
                0
            })
        }),
{
    let s = crate::time::clock_text(t, sep);
    let n = sep.len() as int;
    let day = t.secs as int % 86_400;
    let leap: int = if t.nanos >= 1_000_000_000 {
        1
    } else {
        0
    };
    let (h, m, sec) = (day / 3600, day / 60 % 60, day % 60 + leap);
    assert(day % 60 == t.secs as int % 60);
    assert(crate::time::time_of_day(t) == (h, m, sec));
    lemma_two_digits(h);
    lemma_two_digits(m);
    lemma_two_digits(sec);
    let (a, b, c) = (
        crate::time::two_digits(h),
        crate::time::two_digits(m),
        crate::time::two_digits(sec),
    );
    assert(s == a + sep + b + sep + c);
    assert(s[0] == a[0] && s[1] == a[1]);
    assert(s[2 + n] == b[0] && s[2 + n + 1] == b[1]);
    assert(s[4 + 2 * n] == c[0] && s[4 + 2 * n + 1] == c[1]);
    assert(s.subrange(2, 2 + n) =~= sep);
    assert(s.subrange(4 + n, 4 + 2 * n) =~= sep);
    assert(h * 3600 + m * 60 + sec == day + leap);
}

proof fn lemma_two_digits(n: int)
    requires
        0 <= n < 100,
    ensures
        crate::time::two_digits(n).len() == 2,
        pair_at(crate::time::two_digits(n), 0) == n,
{
}

/// A slot holds the fifteen seconds from its index times fifteen on.
pub proof fn lemma_slot_holds_fifteen_seconds(secs: int)
    ensures
        15 * crate::time::slot_index(secs) <= secs < 15 * crate::time::slot_index(secs) + 15,
{
}

/// More samples are taken in as long as they can be counted, and the slots
/// that they complete be dated.
pub proof fn lemma_room_is_ample<S>(p: crate::pipeline::PipelineState<S>, input: Seq<S>)
    requires
        p.slots.ok(),
        p.slots.total() + input.len() <= 0x7FFF_FFFF_FFFF_FFFF,
        p.slots.next_start <= 0x7FFF_FFFF_FFFF_FFFF,
        p.columns.seen + input.len() <= 0x7FFF_FFFF_FFFF_FFFF,
        p.slots.next_secs + (p.slots.total() + input.len()) / 12_000 <= crate::time::MAX_SECS,
    ensures
        p.room_for(input),
{
    let n = p.slots.total() + input.len() - p.slots.next_start;
    if n >= 180_000 {
        assert(15 * (n / 180_000) <= n / 12_000);
    }
}

/// Both cuts of the stream are given the same samples.
pub proof fn lemma_both_cuts_see_the_samples<S>(
    p: crate::pipeline::PipelineState<S>,
    input: Seq<S>,
)
    ensures
        p.after(input).slots == p.slots.after(input),
        p.after(input).columns == p.columns.after(input),
        p.after(input).start == p.start,
{
}

/// Every FFT window that the chunks complete, taken in in turn.
pub open spec fn columns_of_all<S>(held: Framed<S>, chunks: Seq<Seq<S>>) -> Seq<(int, Seq<S>)>
    decreases chunks.len(),
{
    if chunks.len() == 0 {
        seq![]
    } else {
        columns_of_all(held, chunks.drop_last()) + after_all(held, chunks.drop_last()).columns(
            chunks.last(),
        )
    }
}

/// What is held once the chunks have been taken in, in turn.
pub open spec fn after_all<S>(held: Framed<S>, chunks: Seq<Seq<S>>) -> Framed<S>
    decreases chunks.len(),
{
    if chunks.len() == 0 {
        held
    } else {
        after_all(held, chunks.drop_last()).after(chunks.last())
    }
}

/// However the stream is cut into chunks, FFT windows of 4096 samples come
/// out of it every 1024 samples from its first one on, as many as fit, each
/// with the index of its centre and its own stretch of the stream.
pub proof fn lemma_windows_hop_along_the_stream<S>(chunks: Seq<Seq<S>>)
    ensures
        ({
            let start = Framed::<S> { acc: seq![], seen: 0 };
            let stream = chunks.flatten();
            let count = if stream.len() < 4096 {
                0
            } else {
                (stream.len() - 4096) / 1024 + 1
            };
            &&& columns_of_all(start, chunks).len() == count
            &&& forall|k: int|
                0 <= k < count ==> #[trigger] columns_of_all(start, chunks)[k] == (
                    1024 * k + 2048,
                    stream.subrange(1024 * k, 1024 * k + 4096),
                )
            &&& after_all(start, chunks).seen == stream.len()
        }),
{
    let start = Framed::<S> { acc: seq![], seen: 0 };
    let stream = chunks.flatten();
    lemma_windows_join(chunks);
    assert(Seq::<S>::empty() + stream == stream);
    assert(columns_of_all(start, chunks) == start.columns(stream));
}

proof fn lemma_windows_join<S>(chunks: Seq<Seq<S>>)
    ensures
        ({
            let start = Framed::<S> { acc: seq![], seen: 0 };
            &&& after_all(start, chunks).ok()
            &&& after_all(start, chunks) == start.after(chunks.flatten())
            &&& columns_of_all(start, chunks) == start.columns(chunks.flatten())
        }),
    decreases chunks.len(),
{
    let start = Framed::<S> { acc: seq![], seen: 0 };
    if chunks.len() == 0 {
        let none = Seq::<S>::empty();
        assert(chunks.flatten() == none);
        assert(start.count(0) == 0);
        assert(start.after(none) =~= start);
        assert(start.columns(none) =~= seq![]);
    } else {
        let front = chunks.drop_last();
        lemma_windows_join(front);
        crate::pipeline::lemma_column_chunking(start, front.flatten(), chunks.last());
        crate::pipeline::lemma_column_chunking(start, front.flatten() + chunks.last(), seq![]);
        front.lemma_flatten_push(chunks.last());
        assert(front.push(chunks.last()) == chunks);
    }
}

} // verus!
