//! Which GPS times the codec takes, and what it gives back of those it does.

use std::io::Cursor;

use laz::laszip::{LazItemRecordBuilder, LazItemType};
use laz::{LasZipCompressor, LasZipDecompressor, LazVlrBuilder};
use voxelkloud::write::gps::can_code_times;

/// Records of format 6 with some times, each in a scanner channel.
fn records(times: &[(u64, u8)]) -> Vec<u8> {
    let mut out = Vec::new();
    for (bits, channel) in times {
        let mut record = vec![0u8; 30];
        record[14] = 0x11;
        record[15] = channel << 4;
        record[22..30].copy_from_slice(&bits.to_le_bytes());
        out.extend(record);
    }
    out
}

fn in_one(times: &[u64]) -> Vec<u8> {
    records(&times.iter().map(|t| (*t, 0)).collect::<Vec<_>>())
}

fn coded(records: &[u8]) -> bool {
    can_code_times(records, 30, 0xffff_ffff)
}

/// Records through the codec and back.
fn through(records: &[u8]) -> Vec<u8> {
    let mut fields = LazItemRecordBuilder::new();
    fields.add_item(LazItemType::Point14);
    let vlr = LazVlrBuilder::new(fields.build()).with_variable_chunk_size().build();
    let mut out = LasZipCompressor::new(Cursor::new(Vec::new()), vlr.clone()).expect("starts");
    out.compress_many(records).expect("compresses");
    out.done().expect("finishes");
    let mut bytes = out.into_inner();
    bytes.set_position(0);
    let mut back = vec![0u8; records.len()];
    let mut from = LasZipDecompressor::new(bytes, vlr).expect("opens");
    from.decompress_many(&mut back).expect("decompresses");
    back
}

#[test]
fn ordinary_times_are_coded() {
    let times: Vec<u64> = (0..1000).map(|i| (2.5e8 + f64::from(i) * 1e-5).to_bits()).collect();
    assert!(coded(&in_one(&times)));
    assert_eq!(through(&in_one(&times)), in_one(&times));
    assert!(coded(&[]));
    assert!(coded(&in_one(&[0; 5])));
}

#[test]
fn a_distance_with_no_room_in_64_bits_is_not_coded() {
    let start = 1e8f64.to_bits();
    let below = (-1.0f64).to_bits();
    assert!(!coded(&in_one(&[start, start + 1, below])));
    // Without a usual distance the codec wraps, and it starts anew in a chunk.
    assert!(coded(&in_one(&[start, below])));
    assert!(can_code_times(&in_one(&[start, start + 1, below]), 30, 2));
    assert!(!can_code_times(&in_one(&[start, start + 1, below]), 30, 3));
}

#[test]
fn a_distance_times_five_hundred_has_room_in_32_bits() {
    let start = 1e8f64.to_bits();
    let near = start + 4_299_261;
    assert!(!coded(&in_one(&[start, near, near + 2_147_483_647])));
    let near = start + 4_000_000;
    let times = in_one(&[start, near, near + 2_147_483_647]);
    assert!(coded(&times));
    assert_eq!(through(&times), times);
}

#[test]
fn every_channel_has_times_of_its_own() {
    let start = 1e8f64.to_bits();
    let below = (-1.0f64).to_bits();
    let apart = records(&[(start, 0), (start + 1, 0), (below, 1)]);
    assert!(coded(&apart));
    assert_eq!(through(&apart), apart);
    assert!(!coded(&records(&[(start, 2), (start + 1, 2), (below, 2)])));
}

#[test]
fn what_can_be_coded_comes_back() {
    let mut seed = 0x1234_5678_9abc_def1u64;
    let mut next = |n: u64| {
        seed ^= seed << 13;
        seed ^= seed >> 7;
        seed ^= seed << 17;
        seed % n
    };
    let mut taken = 0;
    for _ in 0..150 {
        let mut times = Vec::new();
        let mut at = 1e8f64.to_bits();
        for _ in 0..next(12) + 2 {
            let step = match next(6) {
                0 => next(100),
                1 => next(5_000_000),
                2 => next(1 << 31),
                3 => next(1 << 34),
                4 => 4_294_000 + next(12_000),
                _ => next(u64::MAX),
            };
            at = if next(2) == 0 { at.wrapping_add(step) } else { at.wrapping_sub(step) };
            times.push((at, next(3) as u8));
        }
        let all = records(&times);
        if coded(&all) {
            taken += 1;
            assert_eq!(through(&all), all);
        }
    }
    assert!(taken > 40, "{taken}");
}
