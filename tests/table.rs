use std::io::Write;

use peak_matrix::record::{BedRecord, PeakRecord};
use peak_matrix::table::{read_tsv, read_tsv_gz, write_tsv, ReadError};

const PEAKS: &str = "chr1\t100\t250\tpeak_a\t870\t+\t12.5\t8.31\t6.02\t75\n\
\n\
chr1\t300\t400\tpeak_b\t10\t.\t1\t1\t1\n\
chr2\t5\t9\tpeak_c\t0\t-\t2.0\t3.5\t0.1\t-1\n";

fn gzip(data: &[u8]) -> Vec<u8> {
    let mut e = flate2::write::GzEncoder::new(Vec::new(), flate2::Compression::default());
    e.write_all(data).unwrap();
    e.finish().unwrap()
}

#[test]
fn read_skips_empty_and_bad_lines() {
    let recs: Vec<PeakRecord> = read_tsv(PEAKS.as_bytes());
    assert_eq!(recs.len(), 2);
    assert_eq!(recs[0].name, b"peak_a".to_vec());
    assert_eq!(recs[1].name, b"peak_c".to_vec());
    assert_eq!(recs[1].peak, -1);
}

#[test]
fn write_then_read_gives_same_records() {
    let text = b"chr1\t1\t5\nchr1\t5\t9\tr2\t3\t+\n";
    let recs: Vec<BedRecord> = read_tsv(text);
    assert_eq!(recs.len(), 2);
    let out = write_tsv(&recs);
    assert_eq!(out, text.to_vec());
    let back: Vec<BedRecord> = read_tsv(&out);
    assert_eq!(write_tsv(&back), out);
}

#[test]
fn write_keeps_given_order() {
    let text = b"chr2\t1\t5\nchr1\t1\t5\n";
    let recs: Vec<BedRecord> = read_tsv(text);
    assert_eq!(write_tsv(&recs), text.to_vec());
    assert_eq!(write_tsv::<BedRecord>(&vec![]), Vec::<u8>::new());
}

#[test]
fn gzip_reads_same_records_as_plain() {
    let plain: Vec<PeakRecord> = read_tsv(PEAKS.as_bytes());
    let packed: Vec<PeakRecord> = read_tsv_gz(&gzip(PEAKS.as_bytes())).unwrap();
    assert_eq!(packed.len(), plain.len());
    for (a, b) in packed.iter().zip(plain.iter()) {
        assert_eq!(a.to_fields(), b.to_fields());
    }
}

#[test]
fn gzip_of_two_members_reads_both() {
    let mut data = gzip(b"chr1\t1\t5\n");
    data.extend(gzip(b"chr1\t5\t9\n"));
    let recs: Vec<BedRecord> = read_tsv_gz(&data).unwrap();
    assert_eq!(recs.len(), 2);
}

#[test]
fn corrupt_gzip_is_an_error() {
    let r: Result<Vec<BedRecord>, ReadError> = read_tsv_gz(b"not gzip at all");
    assert_eq!(r.err(), Some(ReadError::Decompress));
}
