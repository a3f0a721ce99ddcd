//! What the capture database holds.
//!
//! Every decode, and every period's soft-LLR evidence, becomes one row. The
//! rows are made here; the connection is the caller's.
//!
//! Soft evidence is kept for the negative cases too: periods that never
//! produced a decode by any route. Each LLR is stored in single precision,
//! 696 bytes per period, as the little-endian bytes of its bit pattern.
//! Accumulation gain is set by LLR sign and rough magnitude, so more
//! precision would buy nothing.

use vstd::prelude::*;
use crate::accumulate::LLR_LEN;
use crate::decoder::{Decode, DecodeSource};
use crate::time::UtcTime;

verus! {

/// Bytes in a stored LLR vector.
pub const BLOB_LEN: usize = 696;

/// A 15 s period's soft evidence.
#[derive(Clone, Debug)]
pub struct PeriodSoft<F, X> {
    /// UTC of the slot this period belongs to.
    pub utc: UtcTime,
    /// Candidate audio frequency, Hz.
    pub freq_hz: F,
    /// Candidate time offset, seconds.
    pub dt: F,
    /// Sync metric of the candidate.
    pub sync: i32,
    /// The 174-element scaled soft-LLR vector.
    pub llr: Vec<X>,
    /// True if this period produced a CRC-valid decode single-shot.
    pub decoded: bool,
}

/// One row of the table of decodes.
pub struct DecodeRow<F> {
    pub session_id: i64,
    pub utc: String,
    pub snr_db: i32,
    pub dt: F,
    pub freq_hz: F,
    pub message: String,
    /// `single`, `accum` or `both`.
    pub source: String,
    /// Combined period count of an accumulated decode.
    pub depth: Option<i64>,
}

/// One row of the table of periods.
pub struct PeriodRow<F> {
    pub session_id: i64,
    pub utc: String,
    pub freq_hz: F,
    pub dt: F,
    pub sync: i32,
    /// 1 if this period decoded single-shot, else 0.
    pub decoded: i64,
    /// The LLR vector, see [`blob_of`].
    pub llr: Vec<u8>,
}

/// How a decode's source is written: its name and its depth.
pub open spec fn source_columns(source: DecodeSource) -> (Seq<char>, Option<i64>) {
    match source {
        DecodeSource::SingleShot => ("single"@, None),
        DecodeSource::Accumulated(n) => ("accum"@, Some(n as i64)),
        DecodeSource::Both(n) => ("both"@, Some(n as i64)),
    }
}

/// Byte `k` of a 32-bit word, least significant first.
pub open spec fn le_byte(word: u32, k: int) -> u8 {
    if k == 0 {
        (word % 256) as u8
    } else if k == 1 {
        (word / 0x100 % 256) as u8
    } else if k == 2 {
        (word / 0x1_0000 % 256) as u8
    } else {
        (word / 0x100_0000) as u8
    }
}

/// The word with these bytes, least significant first.
pub open spec fn le_word(b: Seq<u8>) -> u32 {
    (b[0] + 0x100 * b[1] + 0x1_0000 * b[2] + 0x100_0000 * b[3]) as u32
}

/// Word `k` of a vector; zero past its end.
pub open spec fn word_at(words: Seq<u32>, k: int) -> u32 {
    if k < words.len() {
        words[k]
    } else {
        0
    }
}

/// A vector as it is stored: the first 174 words, short vectors padded with
/// zeros, as little-endian bytes.
pub open spec fn blob_of(words: Seq<u32>) -> Seq<u8> {
    Seq::new(BLOB_LEN as nat, |i: int| le_byte(word_at(words, i / 4), i % 4))
}

/// The words that a stored vector holds.
pub open spec fn words_in(blob: Seq<u8>) -> Seq<u32> {
    Seq::new(LLR_LEN as nat, |k: int| le_word(blob.subrange(4 * k, 4 * k + 4)))
}

/// Packs the words of an LLR vector for storage.
pub fn pack_llr(words: &[u32]) -> (blob: Vec<u8>)
    ensures
        blob@ == blob_of(words@),
        blob@.len() == BLOB_LEN,
{
    let mut blob: Vec<u8> = Vec::new();
    let mut k: usize = 0;
    while k < LLR_LEN
        invariant
            k <= LLR_LEN,
            blob@.len() == 4 * k,
            blob@ == blob_of(words@).take(4 * k),
        decreases LLR_LEN - k,
    {
        let w: u32 = if k < words.len() {
            words[k]
        } else {
            0
        };
        blob.push((w % 256) as u8);
        blob.push((w / 0x100 % 256) as u8);
        blob.push((w / 0x1_0000 % 256) as u8);
        blob.push((w / 0x100_0000) as u8);
        k += 1;
        assert(blob@ == blob_of(words@).take(4 * k));
    }
    assert(blob_of(words@).take(BLOB_LEN as int) == blob_of(words@));
    blob
}

/// The words of a stored LLR vector; `None` if the length is wrong.
pub fn unpack_llr(blob: &[u8]) -> (res: Option<Vec<u32>>)
    ensures
        match res {
            Some(words) => blob@.len() == BLOB_LEN && words@ == words_in(blob@),
            None => blob@.len() != BLOB_LEN,
        },
{
    if blob.len() != BLOB_LEN {
        return None;
    }
    let mut words: Vec<u32> = Vec::new();
    let mut k: usize = 0;
    while k < LLR_LEN
        invariant
            k <= LLR_LEN,
            blob@.len() == BLOB_LEN,
            words@ == words_in(blob@).take(k as int),
        decreases LLR_LEN - k,
    {
        let i: usize = 4 * k;
        let w: u32 = blob[i] as u32 + 0x100 * (blob[i + 1] as u32) + 0x1_0000 * (blob[i
            + 2] as u32) + 0x100_0000 * (blob[i + 3] as u32);
        words.push(w);
        k += 1;
    }
    assert(words_in(blob@).take(LLR_LEN as int) == words_in(blob@));
    Some(words)
}

/// What one run of the capture store writes under.
pub struct Store {
    session_id: i64,
    /// When false, `record_period` gives no row: a lean run that keeps the
    /// decodes but skips the bulky soft-LLR capture.
    capture_soft: bool,
}

/// What a [`Store`] holds.
pub struct StoreState {
    pub session_id: i64,
    pub capture_soft: bool,
}

impl View for Store {
    type V = StoreState;

    closed spec fn view(&self) -> StoreState {
        StoreState { session_id: self.session_id, capture_soft: self.capture_soft }
    }
}

/// `words` are what `bits` gives for the first 174 values of `llr`.
pub open spec fn words_of<X, B: Fn(X) -> u32>(llr: Seq<X>, bits: B, words: Seq<u32>) -> bool {
    &&& words.len() == if llr.len() < LLR_LEN {
        llr.len() as int
    } else {
        LLR_LEN as int
    }
    &&& forall|k: int|
        0 <= k < words.len() ==> call_ensures(bits, (llr[k],), #[trigger] words[k])
}

impl Store {
    /// A store that writes under session `session_id`. `capture_soft` gates
    /// the table of periods.
    pub fn new(session_id: i64, capture_soft: bool) -> (s: Self)
        ensures
            s@ == (StoreState { session_id, capture_soft }),
    {
        Store { session_id, capture_soft }
    }

    /// The current session's row id.
    pub fn session_id(&self) -> (id: i64)
        ensures
            id == self@.session_id,
    {
        self.session_id
    }

    /// Whether soft-LLR capture is enabled for this run.
    pub fn capture_soft(&self) -> (r: bool)
        ensures
            r == self@.capture_soft,
    {
        self.capture_soft
    }

    /// The row for one emitted decode.
    pub fn record_decode<F: Copy>(&self, d: &Decode<F>) -> (row: DecodeRow<F>)
        requires
            d.utc.wf(),
        ensures
            row.session_id == self@.session_id,
            row.utc@ == crate::time::rfc3339_text(d.utc.secs, d.utc.nanos),
            row.snr_db == d.snr_db,
            row.dt == d.dt,
            row.freq_hz == d.freq_hz,
            row.message@ == d.message@,
            (row.source@, row.depth) == source_columns(d.source),
    {
        let (source, depth): (&str, Option<i64>) = match d.source {
            DecodeSource::SingleShot => ("single", None),
            DecodeSource::Accumulated(n) => ("accum", Some(n as i64)),
            DecodeSource::Both(n) => ("both", Some(n as i64)),
        };
        DecodeRow {
            session_id: self.session_id,
            utc: d.utc.to_rfc3339(),
            snr_db: d.snr_db,
            dt: d.dt,
            freq_hz: d.freq_hz,
            message: d.message.clone(),
            source: source.to_owned(),
            depth,
        }
    }

    /// The row for one period's soft-LLR evidence, or `None` when soft
    /// capture is disabled. `bits` gives the bit pattern of a value in single
    /// precision.
    pub fn record_period<F: Copy, X: Copy, B: Fn(X) -> u32>(
        &self,
        p: &PeriodSoft<F, X>,
        bits: B,
    ) -> (res: Option<PeriodRow<F>>)
        requires
            p.utc.wf(),
            forall|x: X| call_requires(bits, (x,)),
        ensures
            res is Some <==> self@.capture_soft,
            res matches Some(row) ==> {
                &&& row.session_id == self@.session_id
                &&& row.utc@ == crate::time::rfc3339_text(p.utc.secs, p.utc.nanos)
                &&& row.freq_hz == p.freq_hz
                &&& row.dt == p.dt
                &&& row.sync == p.sync
                &&& row.decoded == if p.decoded {
                    1i64
                } else {
                    0i64
                }
                &&& row.llr@.len() == BLOB_LEN
                &&& exists|words: Seq<u32>|
                    #[trigger] words_of(p.llr@, bits, words) && row.llr@ == blob_of(words)
            },
    {
        if !self.capture_soft {
            return None;
        }
        let mut words: Vec<u32> = Vec::new();
        let mut k: usize = 0;
        while k < p.llr.len() && k < LLR_LEN
            invariant
                k <= p.llr@.len(),
                k <= LLR_LEN,
                words@.len() == k,
                forall|x: X| call_requires(bits, (x,)),
                forall|j: int|
                    0 <= j < k ==> call_ensures(bits, (p.llr@[j],), #[trigger] words@[j]),
            decreases p.llr@.len() - k,
        {
            words.push(bits(p.llr[k]));
            k += 1;
        }
        assert(words_of(p.llr@, bits, words@));
        let llr = pack_llr(words.as_slice());
        let decoded: i64 = if p.decoded {
            1
        } else {
            0
        };
        Some(
            PeriodRow {
                session_id: self.session_id,
                utc: p.utc.to_rfc3339(),
                freq_hz: p.freq_hz,
                dt: p.dt,
                sync: p.sync,
                decoded,
                llr,
            },
        )
    }
}

proof fn lemma_word_bytes(w: u32)
    ensures
        le_word(seq![le_byte(w, 0), le_byte(w, 1), le_byte(w, 2), le_byte(w, 3)]) == w,
{
}

/// A stored vector reads back as it was: word for word, cut or padded with
/// zeros to 174.
pub proof fn lemma_blob_round_trip(words: Seq<u32>)
    ensures
        blob_of(words).len() == BLOB_LEN,
        words_in(blob_of(words)) == Seq::new(LLR_LEN as nat, |k: int| word_at(words, k)),
{
    let blob = blob_of(words);
    assert forall|k: int| 0 <= k < LLR_LEN implies #[trigger] words_in(blob)[k] == word_at(
        words,
        k,
    ) by {
        let w = word_at(words, k);
        lemma_word_bytes(w);
        assert(blob.subrange(4 * k, 4 * k + 4) == seq![
            le_byte(w, 0),
            le_byte(w, 1),
            le_byte(w, 2),
            le_byte(w, 3),
        ]) by {
            assert((4 * k) / 4 == k && (4 * k) % 4 == 0);
            assert((4 * k + 1) / 4 == k && (4 * k + 1) % 4 == 1);
            assert((4 * k + 2) / 4 == k && (4 * k + 2) % 4 == 2);
            assert((4 * k + 3) / 4 == k && (4 * k + 3) % 4 == 3);
        }
    }
}

} // verus!
