//! Choosing an input configuration and down-mixing captured frames.

use vstd::prelude::*;

verus! {

/// The rates that are tried, most wanted first: those that divide down to
/// 12 kHz come before 44.1 kHz.
pub open spec fn wanted_rates() -> Seq<u32> {
    seq![48_000u32, 24_000u32, 12_000u32, 96_000u32, 44_100u32]
}

/// Sample formats of a capture stream.
#[derive(Clone, Copy, Debug, PartialEq, Eq, Structural)]
pub enum Format {
    F32,
    I16,
    U16,
    /// Any format that cannot be captured.
    Other,
}

/// A range of configurations that a device supports.
#[derive(Clone, Copy, Debug, PartialEq, Eq, Structural)]
pub struct ConfigRange {
    pub channels: u16,
    pub min_rate: u32,
    pub max_rate: u32,
    pub format: Format,
}

impl ConfigRange {
    /// The range can be captured from at `rate`.
    pub open spec fn offers(self, rate: u32) -> bool {
        &&& self.channels >= 1
        &&& self.min_rate <= rate <= self.max_rate
        &&& self.format != Format::Other
    }
}

/// Some range offers `rate`.
pub open spec fn some_offers(ranges: Seq<ConfigRange>, rate: u32) -> bool {
    exists|i: int| 0 <= i < ranges.len() && (#[trigger] ranges[i]).offers(rate)
}

/// `choice` is the first range that offers the most wanted rate that any
/// range offers.
pub open spec fn is_choice(ranges: Seq<ConfigRange>, choice: Option<(usize, u32)>) -> bool {
    match choice {
        Some((at, rate)) => {
            &&& at < ranges.len()
            &&& ranges[at as int].offers(rate)
            &&& forall|i: int| 0 <= i < at ==> !(#[trigger] ranges[i]).offers(rate)
            &&& exists|k: int|
                {
                    &&& 0 <= k < wanted_rates().len()
                    &&& #[trigger] wanted_rates()[k] == rate
                    &&& forall|j: int|
                        0 <= j < k ==> !some_offers(ranges, #[trigger] wanted_rates()[j])
                }
        },
        None => forall|j: int|
            0 <= j < wanted_rates().len() ==> !some_offers(ranges, #[trigger] wanted_rates()[j]),
    }
}

/// The first range that offers `rate`.
fn first_offer(ranges: &[ConfigRange], rate: u32) -> (res: Option<usize>)
    ensures
        match res {
            Some(at) => {
                &&& at < ranges@.len()
                &&& ranges@[at as int].offers(rate)
                &&& forall|i: int| 0 <= i < at ==> !(#[trigger] ranges@[i]).offers(rate)
            },
            None => !some_offers(ranges@, rate),
        },
{
    let mut i: usize = 0;
    while i < ranges.len()
        invariant
            i <= ranges@.len(),
            forall|j: int| 0 <= j < i ==> !(#[trigger] ranges@[j]).offers(rate),
        decreases ranges@.len() - i,
    {
        let r: ConfigRange = ranges[i];
        let usable: bool = match r.format {
            Format::Other => false,
            _ => true,
        };
        if r.channels >= 1 && r.min_rate <= rate && rate <= r.max_rate && usable {
            return Some(i);
        }
        i += 1;
    }
    None
}

/// Choose a supported input configuration, preferring rates that divide down
/// to 12 kHz: the index of a range, and the rate to use it at. `None` leaves
/// the device's default.
pub fn pick_config(ranges: &[ConfigRange]) -> (choice: Option<(usize, u32)>)
    ensures
        is_choice(ranges@, choice),
{
    let wanted: [u32; 5] = [48_000, 24_000, 12_000, 96_000, 44_100];
    assert(wanted@ == wanted_rates());
    let mut k: usize = 0;
    while k < 5
        invariant
            k <= 5,
            wanted@ == wanted_rates(),
            forall|j: int| 0 <= j < k ==> !some_offers(ranges@, #[trigger] wanted_rates()[j]),
        decreases 5 - k,
    {
        let rate: u32 = wanted[k];
        assert(wanted_rates()[k as int] == rate);
        if let Some(at) = first_offer(ranges, rate) {
            return Some((at, rate));
        }
        k += 1;
    }
    None
}

/// Number of frames in `len` samples; a frame cut short at the end still
/// counts.
pub open spec fn frames(len: int, channels: int) -> int {
    (len + channels - 1) / channels
}

/// `v` is what the first channel of frame `k` is converted to.
pub open spec fn is_mixed<S, T, C: Fn(S) -> T>(
    data: Seq<S>,
    channels: int,
    convert: C,
    k: int,
    v: T,
) -> bool {
    &&& 0 <= k * channels < data.len()
    &&& call_ensures(convert, (data[k * channels],), v)
}

proof fn lemma_frames(len: int, channels: int, k: int)
    requires
        channels >= 1,
        0 <= len,
        0 <= k,
        len <= k * channels,
        k > 0 ==> (k - 1) * channels < len,
    ensures
        frames(len, channels) == k,
{
    let x = len + channels - 1;
    vstd::arithmetic::div_mod::lemma_fundamental_div_mod(x, channels);
    vstd::arithmetic::div_mod::lemma_mod_bound(x, channels);
    let q = x / channels;
    let r = x % channels;
    assert(q == k) by (nonlinear_arith)
        requires
            x == channels * q + r,
            0 <= r < channels,
            x == len + channels - 1,
            0 <= len <= k * channels,
            0 <= k,
            k > 0 ==> (k - 1) * channels < len,
    ;
}

/// Down-mixes interleaved frames to their first channel, converting each
/// sample.
pub fn down_mix<S: Copy, T, C: Fn(S) -> T>(data: &[S], channels: usize, convert: C) -> (mono: Vec<
    T,
>)
    requires
        channels > 0,
        forall|s: S| call_requires(convert, (s,)),
    ensures
        mono@.len() == frames(data@.len() as int, channels as int),
        forall|k: int|
            0 <= k < mono@.len() ==> is_mixed(
                data@,
                channels as int,
                convert,
                k,
                #[trigger] mono@[k],
            ),
{
    let mut mono: Vec<T> = Vec::new();
    let mut i: usize = 0;
    let n: usize = data.len();
    let mut more: bool = n > 0;
    while more
        invariant
            n == data@.len(),
            channels > 0,
            forall|s: S| call_requires(convert, (s,)),
            more ==> i < n && i == mono@.len() * channels,
            !more ==> n <= mono@.len() * channels,
            mono@.len() > 0 ==> (mono@.len() - 1) * channels < n,
            forall|k: int|
                0 <= k < mono@.len() ==> is_mixed(
                    data@,
                    channels as int,
                    convert,
                    k,
                    #[trigger] mono@[k],
                ),
        decreases n - i + if more {
            1int
        } else {
            0int
        },
    {
        let ghost k = mono@.len() as int;
        let v: T = convert(data[i]);
        assert(is_mixed(data@, channels as int, convert, k, v));
        mono.push(v);
        assert((k + 1) * channels == k * channels + channels) by (nonlinear_arith);
        if channels < n - i {
            i = i + channels;
        } else {
            more = false;
        }
    }
    proof {
        lemma_frames(n as int, channels as int, mono@.len() as int);
    }
    mono
}

} // verus!
