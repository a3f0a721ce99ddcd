//! Slot framing.

use ft8mon::slot::{SlotAssembler, SAMPLE_RATE, SLOT_SAMPLES};
use ft8mon::time::{UtcTime, MAX_SECS};

fn at(secs: i64) -> UtcTime {
    UtcTime::from_timestamp(secs, 0).unwrap()
}

#[test]
fn slots_align_to_utc_boundaries() {
    // 1_700_000_003 mod 15 == 8, so the first boundary is +7 s away.
    let start = at(1_700_000_003);
    let mut framer = SlotAssembler::new(start);

    let first_boundary = at(1_700_000_010);
    assert_eq!(framer.next_slot_utc(), first_boundary);

    // 7 s of lead-in (84 000 samples): not enough for a slot yet.
    assert!(framer.push(&vec![0.0; 7 * SAMPLE_RATE]).is_empty());

    // One full slot worth -> exactly one slot emitted.
    let slots = framer.push(&vec![0.1; SLOT_SAMPLES]);
    assert_eq!(slots.len(), 1);
    assert_eq!(slots[0].utc, first_boundary);
    assert_eq!(slots[0].samples.len(), SLOT_SAMPLES);

    // Another slot's worth -> next boundary, 15 s later.
    let slots = framer.push(&vec![0.2; SLOT_SAMPLES]);
    assert_eq!(slots.len(), 1);
    assert_eq!(slots[0].utc, at(1_700_000_025));
}

#[test]
fn multiple_slots_emit_in_one_push() {
    // 1_700_000_010 is exactly on a 15 s boundary, so the first emitted slot
    // is the next boundary, +15 s away.
    let start = at(1_700_000_010);
    let mut framer = SlotAssembler::new(start);
    // Push the 15 s lead-in plus three slots in one call.
    let big = vec![0.0; 15 * SAMPLE_RATE + 3 * SLOT_SAMPLES];
    let slots = framer.push(&big);
    assert_eq!(slots.len(), 3);
    for (i, s) in slots.iter().enumerate() {
        let expect = at(1_700_000_025 + i as i64 * 15);
        assert_eq!(s.utc, expect);
        assert_eq!(s.samples.len(), SLOT_SAMPLES);
    }
}

#[test]
fn arbitrary_chunking_is_stable() {
    // Feeding the same total in odd-sized chunks must give identical slots.
    let start = at(1_700_000_010);
    let mut framer = SlotAssembler::new(start);
    let total = 15 * SAMPLE_RATE + 2 * SLOT_SAMPLES;
    let data: Vec<f32> = (0..total).map(|i| i as f32).collect();
    let mut collected = Vec::new();
    for chunk in data.chunks(777) {
        collected.extend(framer.push(chunk));
    }
    assert_eq!(collected.len(), 2);
    // First slot's first sample is sample index 15*12000.
    assert_eq!(collected[0].samples[0], (15 * SAMPLE_RATE) as f32);
}

#[test]
fn lead_in_is_cut_to_whole_milliseconds() {
    // 2.5004 s before the boundary: 2500 ms, 30 000 samples.
    let start = UtcTime::from_timestamp(1_700_000_007, 499_600_000).unwrap();
    let mut framer = SlotAssembler::new(start);
    let data: Vec<u32> = (0..30_000 + SLOT_SAMPLES as u32).collect();
    let slots = framer.push(&data);
    assert_eq!(slots.len(), 1);
    assert_eq!(slots[0].samples[0], 30_000);
    assert_eq!(*slots[0].samples.last().unwrap(), 30_000 + SLOT_SAMPLES as u32 - 1);
}

#[test]
fn consecutive_slots_share_no_sample() {
    let mut framer = SlotAssembler::new(at(1_700_000_000));
    let lead = 10 * SAMPLE_RATE;
    let data: Vec<u32> = (0..(lead + 2 * SLOT_SAMPLES) as u32).collect();
    let slots = framer.push(&data);
    assert_eq!(slots.len(), 2);
    assert_eq!(slots[0].samples[0], lead as u32);
    assert_eq!(slots[1].samples[0], slots[0].samples[SLOT_SAMPLES - 1] + 1);
}

#[test]
fn an_assembler_says_what_it_accepts() {
    let framer: SlotAssembler<f32> = SlotAssembler::new(at(1_700_000_000));
    assert!(framer.accepts(0));
    assert!(framer.accepts(1_000_000_000));
    // The last boundary that can be dated is close to the end of time.
    let last: SlotAssembler<f32> = SlotAssembler::new(at(MAX_SECS - 20));
    assert!(last.accepts(SAMPLE_RATE));
    assert!(!last.accepts(15 * SAMPLE_RATE + SLOT_SAMPLES));
}

#[test]
fn any_chunking_gives_the_same_slots() {
    let start = at(1_700_000_003);
    let lead = 7 * SAMPLE_RATE;
    let stream: Vec<u32> = (0..(lead + 2 * SLOT_SAMPLES + 5_000) as u32).collect();
    for sizes in [vec![1usize, 0, 83_999, 180_000], vec![400_000], vec![17, 179_983, 0]] {
        let mut framer = SlotAssembler::new(start);
        let mut slots = Vec::new();
        let mut rest = &stream[..];
        let mut k = 0;
        while !rest.is_empty() {
            let (chunk, more) = rest.split_at(sizes[k % sizes.len()].min(rest.len()));
            slots.extend(framer.push(chunk));
            rest = more;
            k += 1;
        }
        assert_eq!(slots.len(), 2);
        for (k, slot) in slots.iter().enumerate() {
            let from = lead + k * SLOT_SAMPLES;
            assert_eq!(slot.utc, at(1_700_000_010 + 15 * k as i64));
            assert_eq!(slot.samples, &stream[from..from + SLOT_SAMPLES]);
        }
        assert_eq!(framer.next_slot_utc(), at(1_700_000_040));
    }
}
