use peak_matrix::chunk::chunk_iter;
use peak_matrix::decimal::{decimal_number, parse_i64, parse_u64};
use peak_matrix::record::{narrow_fields, region_set, BedRecord, PeakRecord, Strand};

fn fields(v: &[&str]) -> Vec<Vec<u8>> {
    v.iter().map(|s| s.as_bytes().to_vec()).collect()
}

fn peak_line() -> Vec<Vec<u8>> {
    fields(&["chr1", "100", "250", "peak_1", "870", "+", "12.5", "8.31", "6.02", "75"])
}

#[test]
fn bed_round_trip_full() {
    let f = fields(&["chr2", "10", "20", "n1", "500", "-"]);
    let r = BedRecord::from_fields(&f).unwrap();
    assert_eq!(r.chrom, b"chr2".to_vec());
    assert_eq!(r.start, 10);
    assert_eq!(r.end, 20);
    assert_eq!(r.name, Some(b"n1".to_vec()));
    assert_eq!(r.score, Some(500));
    assert_eq!(r.strand, Some(Strand::Reverse));
    assert_eq!(r.to_fields(), f);
    let again = BedRecord::from_fields(&r.to_fields()).unwrap();
    assert_eq!(again.to_fields(), f);
}

#[test]
fn bed_round_trip_minimal() {
    let f = fields(&["chrX", "0", "1"]);
    let r = BedRecord::from_fields(&f).unwrap();
    assert_eq!(r.name, None);
    assert_eq!(r.score, None);
    assert_eq!(r.strand, None);
    assert_eq!(r.to_fields(), f);
}

#[test]
fn bed_rejects_bad_fields() {
    assert!(BedRecord::from_fields(&fields(&["chr1", "10"])).is_none());
    assert!(BedRecord::from_fields(&fields(&["chr1", "20", "10"])).is_none());
    assert!(BedRecord::from_fields(&fields(&["chr1", "10", "10"])).is_none());
    assert!(BedRecord::from_fields(&fields(&["chr1", "1x", "10"])).is_none());
    assert!(BedRecord::from_fields(&fields(&["", "1", "10"])).is_none());
    assert!(BedRecord::from_fields(&fields(&["chr1", "1", "10", "n", "5", "*"])).is_none());
    assert!(BedRecord::from_fields(&fields(&["chr1", "1", "10", "n", "high"])).is_none());
}

#[test]
fn bed_ignores_columns_after_strand() {
    let f = fields(&["chr1", "1", "10", "n", "5", ".", "extra", "more"]);
    let r = BedRecord::from_fields(&f).unwrap();
    assert_eq!(r.strand, Some(Strand::Unknown));
    assert_eq!(r.to_fields(), fields(&["chr1", "1", "10", "n", "5", "."]));
}

#[test]
fn peak_round_trip() {
    let f = peak_line();
    let p = PeakRecord::from_fields(&f).unwrap();
    assert_eq!(p.start, 100);
    assert_eq!(p.end, 250);
    assert_eq!(p.score, 870);
    assert_eq!(p.strand, Strand::Forward);
    assert_eq!(p.signal_value, b"12.5".to_vec());
    assert_eq!(p.peak, 75);
    assert_eq!(p.to_fields(), f);
}

#[test]
fn peak_round_trip_negative_summit() {
    let f = fields(&["chr3", "5", "9", ".", "0", ".", "-1", "-1", "0.001", "-1"]);
    let p = PeakRecord::from_fields(&f).unwrap();
    assert_eq!(p.peak, -1);
    assert_eq!(p.to_fields(), f);
}

#[test]
fn peak_rejects_short_or_bad_lines() {
    let mut f = peak_line();
    f.pop();
    assert!(PeakRecord::from_fields(&f).is_none());
    let mut g = peak_line();
    g[6] = b"1.2.3".to_vec();
    assert!(PeakRecord::from_fields(&g).is_none());
    let mut h = peak_line();
    h[9] = b"--3".to_vec();
    assert!(PeakRecord::from_fields(&h).is_none());
}

#[test]
fn peak_narrows_to_bed() {
    let p = PeakRecord::from_fields(&peak_line()).unwrap();
    let b = p.to_bed().unwrap();
    assert_eq!(b.chrom, b"chr1".to_vec());
    assert_eq!(b.start, 100);
    assert_eq!(b.end, 250);
    assert_eq!(b.name, Some(b"peak_1".to_vec()));
    assert_eq!(b.score, Some(870));
    assert_eq!(b.strand, Some(Strand::Forward));
}

#[test]
fn narrowing_fails_with_too_few_fields() {
    assert!(narrow_fields(&fields(&["chr1", "100"])).is_none());
    assert!(narrow_fields(&fields(&[])).is_none());
    let b = narrow_fields(&fields(&["chr1", "100", "200"])).unwrap();
    assert_eq!((b.start, b.end), (100, 200));
}

#[test]
fn region_set_keeps_chr_peaks() {
    let a = PeakRecord::from_fields(&peak_line()).unwrap();
    let other = fields(&["KI270728.1", "1", "2", "p", "1", ".", "1", "1", "1", "0"]);
    let b = PeakRecord::from_fields(&other).unwrap();
    let r = region_set(&vec![b, a.clone(), a]);
    assert_eq!(r.len(), 2);
    assert_eq!(r[0].chrom, b"chr1".to_vec());
}

#[test]
fn integers_parse_exactly() {
    assert_eq!(parse_u64(b"18446744073709551615"), Some(u64::MAX));
    assert_eq!(parse_u64(b"18446744073709551616"), None);
    assert_eq!(parse_u64(b""), None);
    assert_eq!(parse_u64(b"007"), Some(7));
    assert_eq!(parse_i64(b"-9223372036854775808"), Some(i64::MIN));
    assert_eq!(parse_i64(b"9223372036854775808"), None);
    assert_eq!(parse_i64(b"-"), None);
}

#[test]
fn decimal_number_syntax() {
    assert!(decimal_number(b"1.5"));
    assert!(decimal_number(b"-.5"));
    assert!(decimal_number(b"+3."));
    assert!(!decimal_number(b"."));
    assert!(!decimal_number(b"1e5"));
    assert!(!decimal_number(b""));
}

#[test]
fn chunks_in_order() {
    let c = chunk_iter(vec![1, 2, 3, 4, 5], 2);
    assert_eq!(c, vec![vec![1, 2], vec![3, 4], vec![5]]);
    assert_eq!(chunk_iter(vec![1, 2], 0), Vec::<Vec<i32>>::new());
    assert_eq!(chunk_iter(Vec::<i32>::new(), 3), Vec::<Vec<i32>>::new());
}
