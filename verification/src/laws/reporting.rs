//! Reports to PSK Reporter: what can be read back from the bytes that are
//! sent, what the queue holds after any run of spots, and when it is sent.

use vstd::prelude::*;
use crate::decoder::{Decode, DecodeData};
use crate::pskreporter::{ReporterState, SpotData};
use crate::time::UtcTime;

verus! {

/// The 16-bit number at `o`, most significant byte first.
pub open spec fn u16_at(b: Seq<u8>, o: int) -> int {
    b[o] * 256 + b[o + 1]
}

/// The 32-bit number at `o`, most significant byte first.
pub open spec fn u32_at(b: Seq<u8>, o: int) -> int {
    b[o] * 0x100_0000 + b[o + 1] * 0x1_0000 + b[o + 2] * 0x100 + b[o + 3]
}

/// The signed byte at `o`.
pub open spec fn i8_at(b: Seq<u8>, o: int) -> int {
    if b[o] < 128 {
        b[o] as int
    } else {
        b[o] - 256
    }
}

/// How many bytes of `s` a text field carries.
pub open spec fn carried(s: Seq<char>) -> int {
    let n = vstd::utf8::encode_utf8(s).len() as int;
    if n < 254 {
        n
    } else {
        254
    }
}

/// The text field at `o` ends before `end` and carries `s`: its length, and
/// that many bytes of its UTF-8 form.
pub open spec fn text_at(b: Seq<u8>, o: int, s: Seq<char>, end: int) -> bool {
    let n = carried(s);
    &&& end == o + 1 + n
    &&& end <= b.len()
    &&& b[o] == n
    &&& forall|i: int| 0 <= i < n ==> #[trigger] b[o + 1 + i] == vstd::utf8::encode_utf8(s)[i]
}

/// The SNR that is sent for a spot: nought if there is none, and no more than
/// a signed byte holds.
pub open spec fn sent_snr(snr: Option<i32>) -> int {
    match snr {
        None => 0,
        Some(db) => if db > 127 {
            127
        } else if db < -128 {
            -128
        } else {
            db as int
        },
    }
}

/// The bytes from `o` to `end` report spot `s`, field by field: callsign,
/// frequency, SNR, mode, locator, how it was gathered, time.
pub open spec fn spot_at(b: Seq<u8>, o: int, s: SpotData, end: int) -> bool {
    let f = o + 1 + carried(s.call);
    let m = f + 5;
    let g = m + 1 + carried(s.mode);
    let t = g + 1 + carried(s.grid);
    &&& 0 <= o
    &&& end == t + 5
    &&& end <= b.len()
    &&& text_at(b, o, s.call, f)
    &&& u32_at(b, f) == s.freq_hz
    &&& i8_at(b, f + 4) == sent_snr(s.snr)
    &&& text_at(b, m, s.mode, g)
    &&& text_at(b, g, s.grid, t)
    &&& b[t] == 1
    &&& u32_at(b, t + 1) == s.time
}

/// A piece `a` lies in `b` at `o`.
pub open spec fn lies_at(b: Seq<u8>, o: int, a: Seq<u8>) -> bool {
    &&& 0 <= o
    &&& o + a.len() <= b.len()
    &&& forall|i: int| 0 <= i < a.len() ==> #[trigger] b[o + i] == a[i]
}

proof fn lemma_lies_between(p: Seq<u8>, a: Seq<u8>, q: Seq<u8>)
    ensures
        lies_at(p + a + q, p.len() as int, a),
{
    let b = p + a + q;
    assert forall|i: int| 0 <= i < a.len() implies #[trigger] b[p.len() + i] == a[i] by {}
}

proof fn lemma_lies_within(b: Seq<u8>, o: int, a: Seq<u8>, k: int, c: Seq<u8>)
    requires
        lies_at(b, o, a),
        lies_at(a, k, c),
    ensures
        lies_at(b, o + k, c),
{
    assert forall|i: int| 0 <= i < c.len() implies #[trigger] b[o + k + i] == c[i] by {
        assert(a[k + i] == c[i]);
        assert(b[o + (k + i)] == a[k + i]);
    }
}

proof fn lemma_reads_u32(b: Seq<u8>, o: int, v: u32)
    requires
        lies_at(b, o, crate::pskreporter::be32(v)),
    ensures
        u32_at(b, o) == v,
{
    let a = crate::pskreporter::be32(v);
    assert(b[o + 0] == a[0] && b[o + 1] == a[1] && b[o + 2] == a[2] && b[o + 3] == a[3]);
    assert(v == (v / 0x100_0000) * 0x100_0000 + (v / 0x1_0000 % 256) * 0x1_0000 + (v / 0x100 % 256)
        * 0x100 + v % 256);
}

proof fn lemma_reads_u16(b: Seq<u8>, o: int, v: u16)
    requires
        lies_at(b, o, crate::pskreporter::be16(v)),
    ensures
        u16_at(b, o) == v,
{
    let a = crate::pskreporter::be16(v);
    assert(b[o + 0] == a[0] && b[o + 1] == a[1]);
}

proof fn lemma_reads_text(b: Seq<u8>, o: int, s: Seq<char>)
    requires
        lies_at(b, o, crate::pskreporter::str_field(s)),
    ensures
        text_at(b, o, s, o + 1 + carried(s)),
        crate::pskreporter::str_field(s).len() == 1 + carried(s),
{
    let a = crate::pskreporter::str_field(s);
    let n = carried(s);
    let utf = vstd::utf8::encode_utf8(s);
    assert(a.len() == 1 + n);
    assert(b[o + 0] == a[0]);
    assert forall|i: int| 0 <= i < n implies #[trigger] b[o + 1 + i] == utf[i] by {
        assert(b[o + (1 + i)] == a[1 + i]);
    }
}

/// Where seven pieces lie.
proof fn lemma_seven(
    a: Seq<u8>,
    b: Seq<u8>,
    c: Seq<u8>,
    d: Seq<u8>,
    e: Seq<u8>,
    f: Seq<u8>,
    g: Seq<u8>,
)
    ensures
        ({
            let all = a + b + c + d + e + f + g;
            let (i, j) = (a.len() as int, a.len() + b.len() as int);
            let (k, l) = (j + c.len(), j + c.len() + d.len());
            let (m, n) = (l + e.len(), l + e.len() + f.len());
            &&& lies_at(all, 0, a)
            &&& lies_at(all, i, b)
            &&& lies_at(all, j, c)
            &&& lies_at(all, k, d)
            &&& lies_at(all, l, e)
            &&& lies_at(all, m, f)
            &&& lies_at(all, n, g)
            &&& all.len() == n + g.len()
        }),
{
    let none = Seq::<u8>::empty();
    let all = a + b + c + d + e + f + g;
    lemma_lies_between(none, a, b + c + d + e + f + g);
    lemma_lies_between(a, b, c + d + e + f + g);
    lemma_lies_between(a + b, c, d + e + f + g);
    lemma_lies_between(a + b + c, d, e + f + g);
    lemma_lies_between(a + b + c + d, e, f + g);
    lemma_lies_between(a + b + c + d + e, f, g);
    lemma_lies_between(a + b + c + d + e + f, g, none);
    assert(none + a + (b + c + d + e + f + g) =~= all);
    assert(a + b + (c + d + e + f + g) =~= all);
    assert(a + b + c + (d + e + f + g) =~= all);
    assert(a + b + c + d + (e + f + g) =~= all);
    assert(a + b + c + d + e + (f + g) =~= all);
    assert(all + none =~= all);
}

proof fn lemma_spot_reads_back(b: Seq<u8>, o: int, s: SpotData)
    requires
        lies_at(b, o, crate::pskreporter::spot_record(s)),
    ensures
        spot_at(b, o, s, o + crate::pskreporter::spot_record(s).len()),
{
    let rec = crate::pskreporter::spot_record(s);
    let (call, mode, grid) = (
        crate::pskreporter::str_field(s.call),
        crate::pskreporter::str_field(s.mode),
        crate::pskreporter::str_field(s.grid),
    );
    let (freq, time) = (crate::pskreporter::be32(s.freq_hz), crate::pskreporter::be32(s.time));
    let snr = seq![crate::pskreporter::snr_byte(s.snr)];
    let one = seq![1u8];
    assert(freq.len() == 4 && time.len() == 4);
    lemma_seven(call, freq, snr, mode, grid, one, time);
    let i = call.len() as int;
    let k = i + 5;
    let l = k + mode.len();
    let m = l + grid.len();
    lemma_lies_within(b, o, rec, 0, call);
    lemma_lies_within(b, o, rec, i, freq);
    lemma_lies_within(b, o, rec, i + 4, snr);
    lemma_lies_within(b, o, rec, k, mode);
    lemma_lies_within(b, o, rec, l, grid);
    lemma_lies_within(b, o, rec, m, one);
    lemma_lies_within(b, o, rec, m + 1, time);
    lemma_reads_text(b, o, s.call);
    lemma_reads_u32(b, o + i, s.freq_hz);
    assert(b[o + (i + 4) + 0] == snr[0]);
    lemma_reads_text(b, o + k, s.mode);
    lemma_reads_text(b, o + l, s.grid);
    assert(b[o + m + 0] == one[0]);
    lemma_reads_u32(b, o + (m + 1), s.time);
}

/// `ends` says where each spot of `spots` is reported in `b`: from `ends[k]`
/// to `ends[k + 1]`, one behind the other from `from` to `to`.
pub open spec fn spots_at(
    b: Seq<u8>,
    from: int,
    spots: Seq<SpotData>,
    to: int,
    ends: Seq<int>,
) -> bool {
    &&& ends.len() == spots.len() + 1
    &&& ends[0] == from
    &&& ends[spots.len() as int] == to
    &&& forall|k: int|
        0 <= k < spots.len() ==> spot_at(b, ends[k], #[trigger] spots[k], ends[k + 1])
}

proof fn lemma_spots_read_back(b: Seq<u8>, o: int, spots: Seq<SpotData>) -> (ends: Seq<int>)
    requires
        lies_at(b, o, crate::pskreporter::spot_records(spots)),
    ensures
        spots_at(b, o, spots, o + crate::pskreporter::spot_records(spots).len(), ends),
    decreases spots.len(),
{
    if spots.len() == 0 {
        seq![o]
    } else {
        let fewer = spots.drop_last();
        let (front, last) = (
            crate::pskreporter::spot_records(fewer),
            crate::pskreporter::spot_record(spots.last()),
        );
        let all = crate::pskreporter::spot_records(spots);
        let none = Seq::<u8>::empty();
        lemma_lies_between(none, front, last);
        lemma_lies_between(front, last, none);
        assert(none + front + last =~= all);
        assert(front + last + none =~= all);
        lemma_lies_within(b, o, all, 0, front);
        lemma_lies_within(b, o, all, front.len() as int, last);
        let before = lemma_spots_read_back(b, o, fewer);
        lemma_spot_reads_back(b, o + front.len(), spots.last());
        let ends = before.push(o + all.len());
        assert forall|k: int| 0 <= k < spots.len() implies spot_at(
            b,
            ends[k],
            #[trigger] spots[k],
            ends[k + 1],
        ) by {
            if k < fewer.len() {
                assert(fewer[k] == spots[k]);
                assert(spot_at(b, before[k], fewer[k], before[k + 1]));
            }
        }
        ends
    }
}

/// A finished set is its id, its length, its body and padding.
proof fn lemma_set_parts(id: u16, body: Seq<u8>)
    ensures
        ({
            let set = crate::pskreporter::sealed(
                crate::pskreporter::be16(id) + crate::pskreporter::be16(0) + body,
            );
            &&& set.len() % 4 == 0
            &&& 4 + body.len() <= set.len() < 8 + body.len()
            &&& u16_at(set, 0) == id
            &&& u16_at(set, 2) == set.len() as int % 0x1_0000
            &&& lies_at(set, 4, body)
            &&& forall|i: int| 4 + body.len() <= i < set.len() ==> #[trigger] set[i] == 0
        }),
{
    let head = crate::pskreporter::be16(id) + crate::pskreporter::be16(0) + body;
    let set = crate::pskreporter::sealed(head);
    assert(head.len() == 4 + body.len());
    assert(set[0] == crate::pskreporter::be16(id)[0]);
    assert(set[1] == crate::pskreporter::be16(id)[1]);
    assert forall|i: int| 0 <= i < body.len() implies #[trigger] set[4 + i] == body[i] by {
        assert(head[4 + i] == body[i]);
    }
}

/// Every queued spot can be read back from the sender record, in order and
/// each once: its callsign, frequency, SNR, mode, locator and time. Behind the
/// last there are fewer than four bytes, all of them nought.
pub proof fn lemma_every_spot_is_sent(r: ReporterState)
    ensures
        ({
            let b = r.tx_bytes();
            &&& u16_at(b, 0) == 0x50E3
            &&& u16_at(b, 2) == b.len() as int % 0x1_0000
            &&& b.len() % 4 == 0
            &&& exists|ends: Seq<int>, to: int|
                {
                    &&& #[trigger] spots_at(b, 4, r.spots, to, ends)
                    &&& to <= b.len() < to + 4
                    &&& forall|i: int| to <= i < b.len() ==> #[trigger] b[i] == 0
                }
        }),
{
    let b = r.tx_bytes();
    let body = crate::pskreporter::spot_records(r.spots);
    lemma_set_parts(crate::pskreporter::TX_TEMPLATE_ID, body);
    let ends = lemma_spots_read_back(b, 4, r.spots);
    assert(spots_at(b, 4, r.spots, 4int + body.len(), ends));
}

/// The receiving station can be read back from the receiver record: its
/// callsign, its locator, the software and the antenna.
pub proof fn lemma_receiver_is_sent(r: ReporterState)
    ensures
        ({
            let b = r.rx_bytes();
            let g = 5 + carried(r.rx_call);
            let s = g + 1 + carried(r.rx_grid);
            let a = s + 1 + carried(crate::pskreporter::SOFTWARE@);
            let end = a + 1 + carried(r.rx_ant);
            &&& u16_at(b, 0) == 0x50E2
            &&& u16_at(b, 2) == b.len() as int % 0x1_0000
            &&& b.len() % 4 == 0
            &&& text_at(b, 4, r.rx_call, g)
            &&& text_at(b, g, r.rx_grid, s)
            &&& text_at(b, s, crate::pskreporter::SOFTWARE@, a)
            &&& text_at(b, a, r.rx_ant, end)
            &&& end <= b.len() < end + 4
            &&& forall|i: int| end <= i < b.len() ==> #[trigger] b[i] == 0
        }),
{
    let b = r.rx_bytes();
    let (call, grid, soft, ant) = (
        crate::pskreporter::str_field(r.rx_call),
        crate::pskreporter::str_field(r.rx_grid),
        crate::pskreporter::str_field(crate::pskreporter::SOFTWARE@),
        crate::pskreporter::str_field(r.rx_ant),
    );
    let none = Seq::<u8>::empty();
    let body = call + grid + soft + ant;
    let id = crate::pskreporter::RX_TEMPLATE_ID;
    lemma_set_parts(id, body);
    let head = crate::pskreporter::be16(id) + crate::pskreporter::be16(0);
    assert(head + call + grid + soft + ant =~= head + body);
    lemma_seven(call, grid, soft, ant, none, none, none);
    assert(body + none + none + none =~= body);
    let (i, j, k) = (
        call.len() as int,
        call.len() + grid.len() as int,
        call.len() + grid.len() + soft.len() as int,
    );
    lemma_lies_within(b, 4, body, 0, call);
    lemma_lies_within(b, 4, body, i, grid);
    lemma_lies_within(b, 4, body, j, soft);
    lemma_lies_within(b, 4, body, k, ant);
    lemma_reads_text(b, 4, r.rx_call);
    lemma_reads_text(b, 4 + i, r.rx_grid);
    lemma_reads_text(b, 4 + j, crate::pskreporter::SOFTWARE@);
    lemma_reads_text(b, 4 + k, r.rx_ant);
}

/// `d` is a datagram of `r`: its header holds the version, its length, the
/// time, the number and the observation id, and behind it the two templates,
/// the receiver record and the sender record follow one another to the end.
#[verifier::opaque]
pub open spec fn is_datagram(d: Seq<u8>, r: ReporterState, now_secs: u32) -> bool {
    &&& u16_at(d, 0) == 10
    &&& u16_at(d, 2) == d.len() as int % 0x1_0000
    &&& u32_at(d, 4) == now_secs
    &&& u32_at(d, 8) == r.sequence
    &&& u32_at(d, 12) == r.observation_id
    &&& lies_at(d, 16, crate::pskreporter::rx_template())
    &&& lies_at(d, 60, crate::pskreporter::tx_template())
    &&& lies_at(d, 120, r.rx_bytes())
    &&& lies_at(d, 120int + r.rx_bytes().len(), r.tx_bytes())
    &&& d.len() == 120 + r.rx_bytes().len() + r.tx_bytes().len()
    &&& d.len() % 4 == 0
}

/// A datagram's header can be read back, and so can where its parts lie.
pub proof fn lemma_datagram_reads_back(r: ReporterState, now_secs: u32)
    ensures
        is_datagram(r.datagram(now_secs), r, now_secs),
{
    reveal(is_datagram);
    crate::pskreporter::lemma_datagram_layout(r, now_secs);
    let d = r.datagram(now_secs);
    let (rx, tx) = (r.rx_bytes(), r.tx_bytes());
    let n = crate::pskreporter::wire_len(d.len() as int);
    lemma_part(d, 0, 2, crate::pskreporter::be16(10));
    lemma_part(d, 2, 4, crate::pskreporter::be16(n));
    lemma_part(d, 4, 8, crate::pskreporter::be32(now_secs));
    lemma_part(d, 8, 12, crate::pskreporter::be32(r.sequence));
    lemma_part(d, 12, 16, crate::pskreporter::be32(r.observation_id));
    lemma_part(d, 16, 60, crate::pskreporter::rx_template());
    lemma_part(d, 60, 120, crate::pskreporter::tx_template());
    lemma_part(d, 120, 120int + rx.len(), rx);
    lemma_part(d, 120int + rx.len(), d.len() as int, tx);
    lemma_reads_u16(d, 0, 10);
    lemma_reads_u16(d, 2, n);
    lemma_reads_u32(d, 4, now_secs);
    lemma_reads_u32(d, 8, r.sequence);
    lemma_reads_u32(d, 12, r.observation_id);
}

proof fn lemma_part(d: Seq<u8>, from: int, to: int, a: Seq<u8>)
    requires
        0 <= from <= to <= d.len(),
        d.subrange(from, to) == a,
    ensures
        lies_at(d, from, a),
{
    assert forall|i: int| 0 <= i < a.len() implies #[trigger] d[from + i] == a[i] by {
        assert(d.subrange(from, to)[i] == d[from + i]);
    }
}

/// Numbers and texts read back from the bytes that they are written as.
pub proof fn lemma_fields_read_back(a: u16, b: u32, s: Seq<char>)
    ensures
        crate::pskreporter::be16(a).len() == 2,
        u16_at(crate::pskreporter::be16(a), 0) == a,
        crate::pskreporter::be32(b).len() == 4,
        u32_at(crate::pskreporter::be32(b), 0) == b,
        text_at(crate::pskreporter::str_field(s), 0, s, 1 + carried(s)),
        crate::pskreporter::str_field(s).len() == 1 + carried(s),
{
    let (x, y, z) = (
        crate::pskreporter::be16(a),
        crate::pskreporter::be32(b),
        crate::pskreporter::str_field(s),
    );
    assert(lies_at(x, 0, x) && lies_at(y, 0, y) && lies_at(z, 0, z));
    lemma_reads_u16(x, 0, a);
    lemma_reads_u32(y, 0, b);
    lemma_reads_text(z, 0, s);
}

/// A field specifier of the enterprise: its element with the enterprise bit,
/// its length, and the enterprise's number.
pub proof fn lemma_field_specifier_reads_back(ie: u16, len: u16)
    requires
        ie < 0x8000,
    ensures
        ({
            let b = crate::pskreporter::ent_bytes(ie, len);
            &&& b.len() == 8
            &&& u16_at(b, 0) == 0x8000 + ie
            &&& u16_at(b, 2) == len
            &&& u32_at(b, 4) == 30351
        }),
{
    let e = (0x8000 + ie) as u16;
    let n = crate::pskreporter::ENTERPRISE;
    let (x, y, z) = (
        crate::pskreporter::be16(e),
        crate::pskreporter::be16(len),
        crate::pskreporter::be32(n),
    );
    let none = Seq::<u8>::empty();
    lemma_seven(x, y, z, none, none, none, none);
    let b = crate::pskreporter::ent_bytes(ie, len);
    assert(x + y + z + none + none + none + none =~= b);
    lemma_reads_u16(b, 0, e);
    lemma_reads_u16(b, 2, len);
    lemma_reads_u32(b, 4, n);
}

/// Finishing a set pads it with noughts to whole words of four bytes, writes
/// its length into bytes 2 and 3, and leaves every other byte alone.
pub proof fn lemma_finished_set(set: Seq<u8>)
    requires
        set.len() > 0,
    ensures
        ({
            let b = crate::pskreporter::sealed(set);
            &&& b.len() % 4 == 0
            &&& set.len() <= b.len() < set.len() + 4
            &&& u16_at(b, 2) == b.len() as int % 0x1_0000
            &&& forall|i: int|
                0 <= i < b.len() && i != 2 && i != 3 ==> #[trigger] b[i] == if i < set.len() {
                    set[i]
                } else {
                    0
                }
        }),
{
}

/// Padding is noughts up to the next word of four bytes, and none at its end.
pub proof fn lemma_padding(len: int)
    requires
        0 <= len,
    ensures
        crate::pskreporter::padding(len).len() < 4,
        (len + crate::pskreporter::padding(len).len()) % 4 == 0,
        forall|i: int|
            0 <= i < crate::pskreporter::padding(len).len() ==> #[trigger] crate::pskreporter::padding(
                len,
            )[i] == 0,
{
}

/// What `c` counts as where case does not matter.
pub open spec fn folded(c: char) -> u32 {
    if 'a' <= c <= 'z' {
        (c as u32 - 32) as u32
    } else {
        c as u32
    }
}

/// Two callsigns are the same, but for case.
pub open spec fn same_call(a: Seq<char>, b: Seq<char>) -> bool {
    &&& a.len() == b.len()
    &&& forall|i: int| 0 <= i < a.len() ==> folded(#[trigger] a[i]) == folded(b[i])
}

/// Our own station is recognised whatever the case.
pub proof fn lemma_own_call(r: ReporterState, spot: SpotData)
    ensures
        r.is_own(spot) <==> same_call(spot.call, r.rx_call),
{
    let (a, b) = (spot.call, r.rx_call);
    let (u, v) = (crate::text::upper(a), crate::text::upper(b));
    assert(u.len() == a.len() && v.len() == b.len());
    if u == v {
        assert forall|i: int| 0 <= i < a.len() implies folded(#[trigger] a[i]) == folded(b[i]) by {
            assert(u[i] == v[i]);
        }
    }
    if same_call(a, b) {
        assert forall|i: int| 0 <= i < u.len() implies #[trigger] u[i] == v[i] by {
            assert(folded(a[i]) == folded(b[i]));
            assert(u[i] as u32 == v[i] as u32);
        }
        assert(u =~= v);
    }
}

/// What is queued once the spots have been offered, in order.
pub open spec fn queue(r: ReporterState, offers: Seq<SpotData>) -> ReporterState
    decreases offers.len(),
{
    if offers.len() == 0 {
        r
    } else {
        queue(r, offers.drop_last()).offered(offers.last())
    }
}

/// The latest spot of station `call`.
pub open spec fn latest_spot(offers: Seq<SpotData>, call: Seq<char>) -> Option<SpotData>
    decreases offers.len(),
{
    if offers.len() == 0 {
        None
    } else if offers.last().call == call {
        Some(offers.last())
    } else {
        latest_spot(offers.drop_last(), call)
    }
}

/// The latest SNR that station `call` was heard with.
pub open spec fn latest_snr(offers: Seq<SpotData>, call: Seq<char>) -> Option<i32>
    decreases offers.len(),
{
    if offers.len() == 0 {
        None
    } else if offers.last().call == call && offers.last().snr is Some {
        offers.last().snr
    } else {
        latest_snr(offers.drop_last(), call)
    }
}

/// Entry `e` reports the station that `s` was the latest spot of, with SNR
/// `snr`.
pub open spec fn is_entry(e: SpotData, s: SpotData, snr: Option<i32>) -> bool {
    &&& e.call == s.call
    &&& e.grid == s.grid
    &&& e.freq_hz == s.freq_hz
    &&& e.mode == s.mode
    &&& e.time == s.time
    &&& e.snr == snr
}

/// Whatever is offered to an empty queue, as long as it cannot run full: each
/// station but our own has one entry, with what its latest spot says and the
/// latest SNR that it was ever heard with; and no other station has one.
pub proof fn lemma_queue_holds_each_station_once(
    r: ReporterState,
    offers: Seq<SpotData>,
    call: Seq<char>,
)
    requires
        r.spots.len() == 0,
        offers.len() <= 256,
    ensures
        queue(r, offers).spots.len() <= offers.len(),
        ({
            let q = queue(r, offers).spots;
            let s = latest_spot(offers, call);
            &&& s is Some && !same_call(call, r.rx_call) ==> exists|k: int|
                0 <= k < q.len() && is_entry(
                    #[trigger] q[k],
                    s.unwrap(),
                    latest_snr(offers, call),
                )
            &&& s is None || same_call(call, r.rx_call) ==> forall|k: int|
                0 <= k < q.len() ==> (#[trigger] q[k]).call != call
            &&& forall|i: int, j: int|
                0 <= i < j < q.len() ==> (#[trigger] q[i]).call != (#[trigger] q[j]).call
        }),
        queue(r, offers).rx_call == r.rx_call,
        queue(r, offers).rx_grid == r.rx_grid,
        queue(r, offers).rx_ant == r.rx_ant,
        queue(r, offers).observation_id == r.observation_id,
        queue(r, offers).sequence == r.sequence,
        queue(r, offers).last_send == r.last_send,
    decreases offers.len(),
{
    if offers.len() > 0 {
        let fewer = offers.drop_last();
        let spot = offers.last();
        lemma_queue_holds_each_station_once(r, fewer, call);
        lemma_queue_holds_each_station_once(r, fewer, spot.call);
        let was = queue(r, fewer);
        let post = queue(r, offers);
        lemma_own_call(was, spot);
        lemma_own_call(r, spot);
        assert(was.ok()) by {
            assert forall|i: int| 0 <= i < was.spots.len() implies crate::text::upper(
                (#[trigger] was.spots[i]).call,
            ) != crate::text::upper(was.rx_call) by {
                lemma_queue_holds_each_station_once(r, fewer, was.spots[i].call);
                lemma_own_call(was, was.spots[i]);
            }
        }
        crate::pskreporter::lemma_offer_keeps_ok(was, spot);
        if was.is_own(spot) {
            assert(post == was);
        } else {
            crate::pskreporter::lemma_latest_spot_counts(was, spot);
            let at = crate::pskreporter::position(was.spots, spot.call);
            let (q, o) = (post.spots, was.spots);
            assert(post == was.offered(spot));
            if spot.call == call {
                if at < o.len() {
                    assert(o[at].call == call) by {
                        lemma_found(o, spot.call);
                    }
                    let s = latest_spot(fewer, call);
                    if s is Some {
                        let k = choose|k: int|
                            0 <= k < o.len() && is_entry(
                                #[trigger] o[k],
                                s.unwrap(),
                                latest_snr(fewer, call),
                            );
                        lemma_latest_is_of(fewer, call);
                        assert(k == at);
                    }
                } else {
                    assert(latest_spot(fewer, call) is None) by {
                        if latest_spot(fewer, call) is Some {
                            let s = latest_spot(fewer, call);
                            let k = choose|k: int|
                                0 <= k < o.len() && is_entry(
                                    #[trigger] o[k],
                                    s.unwrap(),
                                    latest_snr(fewer, call),
                                );
                            lemma_latest_is_of(fewer, call);
                            lemma_not_found(o, spot.call, k);
                        }
                    }
                    lemma_no_snr(fewer, call);
                }
                assert(is_entry(q[at], spot, latest_snr(offers, call)));
            } else {
                let s = latest_spot(fewer, call);
                if s is Some && !same_call(call, r.rx_call) {
                    let k = choose|k: int|
                        0 <= k < o.len() && is_entry(
                            #[trigger] o[k],
                            s.unwrap(),
                            latest_snr(fewer, call),
                        );
                    lemma_latest_is_of(fewer, call);
                    if at < o.len() {
                        lemma_found(o, spot.call);
                    }
                    assert(k != at);
                    assert(q[k] == o[k]);
                } else {
                    assert forall|k: int| 0 <= k < q.len() implies (#[trigger] q[k]).call
                        != call by {
                        if k != at {
                            assert(k < o.len());
                            assert(q[k] == o[k]);
                        }
                    }
                }
            }
        }
    }
}

proof fn lemma_found(spots: Seq<SpotData>, call: Seq<char>)
    requires
        crate::pskreporter::position(spots, call) < spots.len(),
    ensures
        0 <= crate::pskreporter::position(spots, call),
        spots[crate::pskreporter::position(spots, call)].call == call,
    decreases spots.len(),
{
    if spots.len() > 0 && spots[0].call != call {
        lemma_found(spots.drop_first(), call);
    }
}

proof fn lemma_not_found(spots: Seq<SpotData>, call: Seq<char>, k: int)
    requires
        0 <= k < spots.len(),
        spots[k].call == call,
    ensures
        crate::pskreporter::position(spots, call) < spots.len(),
    decreases spots.len(),
{
    if spots[0].call != call {
        assert(spots.drop_first()[k - 1] == spots[k]);
        lemma_not_found(spots.drop_first(), call, k - 1);
    }
}

proof fn lemma_latest_is_of(offers: Seq<SpotData>, call: Seq<char>)
    ensures
        latest_spot(offers, call) matches Some(s) ==> s.call == call,
    decreases offers.len(),
{
    if offers.len() > 0 && offers.last().call != call {
        lemma_latest_is_of(offers.drop_last(), call);
    }
}

proof fn lemma_no_snr(offers: Seq<SpotData>, call: Seq<char>)
    requires
        latest_spot(offers, call) is None,
    ensures
        latest_snr(offers, call) is None,
    decreases offers.len(),
{
    if offers.len() > 0 {
        lemma_no_snr(offers.drop_last(), call);
    }
}

/// A full queue takes in no further station, but still what is heard of those
/// that it holds.
pub proof fn lemma_full_queue(r: ReporterState, spot: SpotData)
    requires
        r.ok(),
        r.spots.len() == 256,
        forall|k: int| 0 <= k < r.spots.len() ==> (#[trigger] r.spots[k]).call != spot.call,
    ensures
        r.offered(spot) == r,
{
    let at = crate::pskreporter::position(r.spots, spot.call);
    if at < r.spots.len() {
        lemma_found(r.spots, spot.call);
    }
}

/// What a tick at `now` makes of `r`, and what it sends: nothing, and nothing
/// changes, within five minutes of the last tick that found its window run
/// out. After that it opens a new window; and if there is anything queued it
/// sends it, under the next number, and keeps it until the sending is known
/// to have worked.
pub open spec fn is_tick(
    r: ReporterState,
    now: u64,
    now_secs: u32,
    post: ReporterState,
    sent: Option<Seq<u8>>,
) -> bool {
    let due = now >= r.last_send + 300_000_000_000;
    &&& !due ==> sent is None && post == r
    &&& due ==> post.last_send == now
    &&& due && r.spots.len() == 0 ==> sent is None && post.sequence == r.sequence
    &&& due && r.spots.len() > 0 ==> {
        &&& sent is Some
        &&& post.sequence as int == (r.sequence + 1) % 0x1_0000_0000
        &&& is_datagram(sent.unwrap(), post, now_secs)
    }
    &&& post.spots == r.spots
    &&& post.rx_call == r.rx_call
    &&& post.rx_grid == r.rx_grid
    &&& post.rx_ant == r.rx_ant
    &&& post.observation_id == r.observation_id
}

/// A tick sends what is queued when its time has come.
pub proof fn lemma_tick_sends_when_due(r: ReporterState, now: u64, now_secs: u32)
    ensures
        is_tick(r, now, now_secs, r.ticked(now, now_secs).0, r.ticked(now, now_secs).1),
{
    let opened = ReporterState { last_send: now, ..r };
    let d = opened.numbered().datagram(now_secs);
    lemma_datagram_reads_back(opened.numbered(), now_secs);
    lemma_ticked(r, now, now_secs, d);
    lemma_tick_facts(r, now, now_secs, d);
}

proof fn lemma_tick_facts(r: ReporterState, now: u64, now_secs: u32, d: Seq<u8>)
    requires
        is_datagram(d, (ReporterState { last_send: now, ..r }).numbered(), now_secs),
    ensures
        ({
            let opened = ReporterState { last_send: now, ..r };
            let due = now >= r.last_send + 300_000_000_000;
            &&& !due ==> is_tick(r, now, now_secs, r, None)
            &&& due && r.spots.len() == 0 ==> is_tick(r, now, now_secs, opened, None)
            &&& due && r.spots.len() > 0 ==> is_tick(
                r,
                now,
                now_secs,
                opened.numbered(),
                Some(d),
            )
        }),
{
}

proof fn lemma_ticked(r: ReporterState, now: u64, now_secs: u32, d: Seq<u8>)
    requires
        d == (ReporterState { last_send: now, ..r }).numbered().datagram(now_secs),
    ensures
        ({
            let opened = ReporterState { last_send: now, ..r };
            let due = now >= r.last_send + 300_000_000_000;
            r.ticked(now, now_secs) == if !due {
                (r, None)
            } else if r.spots.len() == 0 {
                (opened, None)
            } else {
                (opened.numbered(), Some(d))
            }
        }),
{
}

/// The spot that a decode gives rise to: the station and locator that its
/// message names, heard as far above the dial frequency as the decode lies in
/// the passband, at the slot's time. Its SNR goes along unless it was only
/// obtained by accumulation.
pub proof fn lemma_spot_follows_the_decode<F>(
    d: DecodeData<F>,
    offset: u64,
    dial: u64,
    utc: UtcTime,
)
    ensures
        ({
            let spot = crate::cycle::spot_from(d, offset, dial, utc);
            &&& spot is Some <==> crate::pskreporter::spot_of(d.message) is Some
            &&& spot is Some ==> {
                let s = spot.unwrap();
                &&& crate::pskreporter::spot_of(d.message) == Some((s.call, s.grid))
                &&& dial + offset < 0x1_0000_0000 ==> s.freq_hz == dial + offset
                &&& (dial + offset - s.freq_hz) % 0x1_0000_0000 == 0
                &&& s.snr is None <==> d.source is Accumulated
                &&& s.snr is Some ==> s.snr == Some(d.snr_db)
                &&& s.mode == seq!['F', 'T', '8']
                &&& utc.secs <= 0 ==> s.time == 0
                &&& 0 <= utc.secs < 0x1_0000_0000 ==> s.time == utc.secs
                &&& 0 <= utc.secs ==> (utc.secs - s.time) % 0x1_0000_0000 == 0
            }
        }),
{
    reveal_strlit("FT8");
    assert("FT8"@ =~= seq!['F', 'T', '8']);
}

/// `offers` are the spots that the decodes give rise to, none left out, in
/// order: `from` says which decode each comes from.
pub open spec fn are_spots_of<F>(
    offers: Seq<SpotData>,
    from: Seq<int>,
    decodes: Seq<Decode<F>>,
    offsets: Seq<u64>,
    dial: u64,
    utc: UtcTime,
) -> bool {
    &&& from.len() == offers.len()
    &&& forall|i: int, j: int| 0 <= i < j < from.len() ==> from[i] < from[j]
    &&& forall|i: int|
        0 <= i < from.len() ==> 0 <= #[trigger] from[i] < decodes.len() && Some(offers[i])
            == crate::cycle::spot_from(decodes[from[i]]@, offsets[from[i]], dial, utc)
    &&& forall|k: int|
        0 <= k < decodes.len() && crate::cycle::spot_from(
            (#[trigger] decodes[k])@,
            offsets[k],
            dial,
            utc,
        ) is Some ==> from.contains(k)
}

/// Every decode of a slot that names a station and its locator is offered to
/// the queue, in order.
pub proof fn lemma_every_decode_is_offered<F>(
    r: ReporterState,
    decodes: Seq<Decode<F>>,
    offsets: Seq<u64>,
    dial: u64,
    utc: UtcTime,
)
    ensures
        exists|offers: Seq<SpotData>, from: Seq<int>|
            {
                &&& #[trigger] are_spots_of(offers, from, decodes, offsets, dial, utc)
                &&& crate::cycle::offered_all(r, decodes, offsets, dial, utc) == queue(r, offers)
            },
    decreases decodes.len(),
{
    if decodes.len() == 0 {
        assert(are_spots_of(Seq::<SpotData>::empty(), Seq::<int>::empty(), decodes, offsets, dial, utc));
        assert(queue(r, Seq::<SpotData>::empty()) == r);
    } else {
        let n = decodes.len() - 1;
        let fewer = decodes.drop_last();
        lemma_every_decode_is_offered(r, fewer, offsets, dial, utc);
        let (before, at) = choose|offers: Seq<SpotData>, from: Seq<int>|
            {
                &&& #[trigger] are_spots_of(offers, from, fewer, offsets, dial, utc)
                &&& crate::cycle::offered_all(r, fewer, offsets, dial, utc) == queue(r, offers)
            };
        let spot = crate::cycle::spot_from(decodes[n]@, offsets[n], dial, utc);
        let (offers, from) = match spot {
            Some(s) => (before.push(s), at.push(n)),
            None => (before, at),
        };
        assert forall|i: int| 0 <= i < from.len() implies 0 <= #[trigger] from[i] < decodes.len()
            && Some(offers[i]) == crate::cycle::spot_from(
            decodes[from[i]]@,
            offsets[from[i]],
            dial,
            utc,
        ) by {
            if i < at.len() {
                assert(at[i] == from[i]);
                assert(fewer[at[i]] == decodes[from[i]]);
            }
        }
        assert forall|k: int|
            0 <= k < decodes.len() && crate::cycle::spot_from(
                (#[trigger] decodes[k])@,
                offsets[k],
                dial,
                utc,
            ) is Some implies from.contains(k) by {
            if k < n {
                assert(fewer[k] == decodes[k]);
                let i = at.index_of(k);
                assert(from[i] == k);
            } else {
                assert(from[at.len() as int] == n);
            }
        }
        assert(are_spots_of(offers, from, decodes, offsets, dial, utc));
        if spot is Some {
            assert(offers.drop_last() =~= before);
        }
    }
}

} // verus!
