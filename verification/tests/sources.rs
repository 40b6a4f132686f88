use voxelkloud::bounds::Bounds;
use voxelkloud::double::Real;
use voxelkloud::e57::{measure, Decoded, PointBatch, ReadReport, Reading};
use voxelkloud::error::Error;
use voxelkloud::read::{whole_records, Drain, LasProgress};
use voxelkloud::record::scan_angle;
use voxelkloud::source::{
    check_range, prefix_len, resolve, whole_len, MemorySource, SeekTo, SourceCursor,
};
use voxelkloud::text::replace;
use voxelkloud::warning::Warning;

fn double(value: f64) -> Real {
    Real { bits: value.to_bits() }
}

fn reals(p: [f64; 3]) -> [Real; 3] {
    p.map(double)
}

#[test]
fn a_path_stays_below_its_root() {
    assert_eq!(resolve("/data", "a/b.bin").unwrap(), vec!["a", "b.bin"]);
    assert_eq!(resolve("/data", "./a//b").unwrap(), vec!["a", "b"]);
    assert!(resolve("/data", "../x").is_err());
    assert!(resolve("/data", "a/../../x").is_err());
}

#[test]
fn a_range_is_inside_what_it_reads() {
    assert!(check_range(0, 10, 10, "x").is_ok());
    assert!(matches!(check_range(1, 10, 10, "x"), Err(Error::Truncated { .. })));
    assert!(check_range(u64::MAX, 2, 10, "x").is_err());
    assert_eq!(prefix_len(8, 3), 3);
    assert_eq!(prefix_len(3, 8), 3);
    assert_eq!(whole_len(77, "f").unwrap(), 77);
}

#[test]
fn memory_reads_what_it_holds() {
    let source = MemorySource::new((0..20).collect(), "mem".to_string());
    assert_eq!(source.size(), 20);
    assert_eq!(source.read_at(5, 3).unwrap(), vec![5, 6, 7]);
    assert!(source.read_at(18, 3).is_err());
    assert_eq!(source.read_prefix(100).len(), 20);
    assert_eq!(source.read_all().len(), 20);
}

#[test]
fn a_cursor_reads_a_source_front_to_back() {
    let bytes: Vec<u8> = (0..=255).collect();
    let source = MemorySource::new(bytes.clone(), "mem".to_string());
    let mut cursor = SourceCursor::new(source.size());
    let mut out = Vec::new();
    loop {
        if let Some((at, len)) = cursor.wants() {
            cursor.fill(source.read_at(at, len).unwrap());
        }
        let got = cursor.take(7);
        if got.is_empty() {
            break;
        }
        out.extend(got);
    }
    assert_eq!(out, bytes);
    assert_eq!(cursor.seek(SeekTo::Start(3)), Some(3));
    assert_eq!(cursor.seek(SeekTo::Current(4)), Some(7));
    assert_eq!(cursor.seek(SeekTo::End(-6)), Some(250));
    assert_eq!(cursor.seek(SeekTo::Current(-300)), None);
}

#[test]
fn a_pass_over_a_file_ends() {
    let mut progress = LasProgress::new(10);
    assert_eq!(progress.want(4), 4);
    progress.got(4, 4);
    assert_eq!(progress.want(100), 6);
    // A file that ends early ends the pass.
    progress.got(6, 2);
    assert_eq!(progress.want(100), 0);
    assert_eq!(whole_records(65, 20), 3);
}

fn batch(n: usize) -> PointBatch {
    let mut reading = Reading::new(100, false, false);
    for i in 0..n {
        let position = Some(reals([i as f64, 0.0, 0.0]));
        assert!(reading.take(Decoded { position, color: None, intensity: None }, 1).is_none());
    }
    reading.finish().0.unwrap_or_else(PointBatch::new)
}

#[test]
fn a_batch_is_drained_in_order() {
    let mut drain = Drain::new();
    assert!(drain.is_spent());
    assert!(drain.load(batch(5)));
    assert_eq!(drain.next(3), (0, 3));
    assert!(!drain.is_spent());
    assert_eq!(drain.next(3), (3, 5));
    assert!(drain.is_spent());
    assert!(!drain.load(PointBatch::new()));
}

#[test]
fn every_point_of_a_scan_is_accounted_for() {
    let mut reading = Reading::new(2, true, true);
    let point = |x: Option<f64>, color| Decoded {
        position: x.map(|v| reals([v, 0.0, 0.0])),
        color,
        intensity: Some(9),
    };
    assert!(reading.take(point(Some(1.0), Some([1, 2, 3])), 1).is_none());
    assert!(reading.take(point(None, None), 1).is_none());
    let full = reading.take(point(Some(2.0), None), 2).expect("a batch is full");
    assert_eq!(full.len(), 2);
    assert_eq!(full.source_id, vec![1, 2]);
    assert_eq!(full.rgb, vec![[1, 2, 3], [65535; 3]]);
    assert_eq!(full.intensity, vec![9, 9]);
    let (rest, report) = reading.finish();
    assert!(rest.is_none());
    assert_eq!((report.points, report.dropped, report.colourless), (2, 1, 1));
}

#[test]
fn a_file_without_points_cannot_be_measured() {
    let report = ReadReport { points: 0, dropped: 3, colourless: 0 };
    assert!(measure(Bounds::empty(), report).is_err());
}

#[test]
fn boxes_grow_and_join() {
    let mut b = Bounds::empty();
    assert!(b.is_empty());
    b.grow(reals([1.0, -2.0, 3.0]));
    assert!(!b.is_empty());
    assert_eq!(b.min.map(|r| r.bits), reals([1.0, -2.0, 3.0]).map(|r| r.bits));
    b.grow(reals([-1.0, 5.0, 3.0]));
    assert!(b.contains(reals([0.0, 0.0, 3.0])));
    assert!(!b.contains(reals([0.0, 0.0, 3.5])));
    let far = Bounds::new(reals([10.0; 3]), reals([11.0; 3]));
    let both = b.union(&far);
    assert!(both.contains(reals([-1.0, 5.0, 3.0])) && both.contains(reals([11.0; 3])));
    assert_eq!(f64::from_bits(both.min[1].bits), -2.0);
}

#[test]
fn doubles_are_ordered_by_their_bits() {
    let values = [
        f64::NEG_INFINITY,
        -1.5,
        -f64::MIN_POSITIVE,
        -0.0,
        0.0,
        5e-324,
        1.0,
        1.0000000000000002,
        f64::INFINITY,
        f64::NAN,
    ];
    for a in values {
        for b in values {
            assert_eq!(double(a).is_below(double(b)), a < b, "{a} {b}");
            assert_eq!(double(a).is_at_most(double(b)), a <= b, "{a} {b}");
        }
        assert_eq!(double(a).is_positive(), a.is_finite() && a > 0.0, "{a}");
        assert_eq!(double(a).is_finite(), a.is_finite(), "{a}");
    }
    for n in [0u32, 1, 2, 3, 255, 256, 65_537, 1 << 31, u32::MAX] {
        assert_eq!(f64::from_bits(Real::whole(n).bits), f64::from(n));
    }
}

#[test]
fn a_scan_angle_rank_is_rounded_as_a_double_would_be() {
    for rank in i8::MIN..=i8::MAX {
        let want = (f64::from(rank) / 0.006).round().clamp(-30_000.0, 30_000.0) as i16;
        assert_eq!(scan_angle(rank), want, "{rank}");
    }
}

#[test]
fn text_is_replaced_wherever_it_stands() {
    assert_eq!(replace("{x}/{x}.{y}", "{x}", "12"), "12/12.{y}");
    assert_eq!(replace("aaa", "aa", "b"), "ba");
    assert_eq!(replace("abc", "z", "q"), "abc");
}

#[test]
fn errors_say_what_happened() {
    assert_eq!(
        Error::not_format("a LAZ file", "no record".to_string()).to_text(),
        "not a LAZ file: no record"
    );
    assert_eq!(Error::Unsupported("that".to_string()).to_text(), "unsupported: that");
    assert_eq!(
        Error::manifest("m.json".to_string(), "bad".to_string()).to_text(),
        "m.json: bad"
    );
    assert_eq!(Error::Codec("x".to_string()).to_text(), "decode failed: x");
    assert_eq!(Error::Source("s".to_string()).to_text(), "s");
    assert_eq!(Error::Io("i".to_string()).to_text(), "i");
    let w = Warning::new("code", "p".to_string(), "message".to_string());
    assert!(w.to_text().contains("message"));
}
