use peak_matrix::fixed::{parse_fixed4, push_fixed4, Fixed4};
use peak_matrix::matrix::{
    centered, header_line, merge_step, merge_tracks, parse_depth_line, row_line, track_name,
    MergeError, MergeStep,
};

fn track(rows: &[(&str, u64, u64, &str)]) -> Vec<u8> {
    let mut s = String::new();
    for (c, a, b, v) in rows {
        s.push_str(&format!("{}\t{}\t{}\t{}\n", c, a, b, v));
    }
    s.into_bytes()
}

fn names(v: &[&str]) -> Vec<Vec<u8>> {
    v.iter().map(|s| s.as_bytes().to_vec()).collect()
}

fn fmt(v: &str) -> String {
    let mut out = Vec::new();
    push_fixed4(&mut out, parse_fixed4(v.as_bytes()).unwrap());
    String::from_utf8(out).unwrap()
}

#[test]
fn three_aligned_tracks_give_five_rows() {
    let coords: Vec<(u64, u64)> = (0..5).map(|i| (i * 100, i * 100 + 100)).collect();
    let mk = |k: u64| {
        let rows: Vec<(&str, u64, u64, String)> =
            coords.iter().map(|&(a, b)| ("chr1", a, b, format!("{}", a + k))).collect();
        let r: Vec<(&str, u64, u64, &str)> =
            rows.iter().map(|(c, a, b, v)| (*c, *a, *b, v.as_str())).collect();
        track(&r)
    };
    let rows = merge_tracks(&vec![mk(1), mk(2), mk(3)]).unwrap();
    assert_eq!(rows.len(), 5);
    for (i, r) in rows.iter().enumerate() {
        assert_eq!(r.values.len(), 3);
        assert_eq!(r.start, coords[i].0);
        assert_eq!(r.values[2], Fixed4 { negative: false, scaled: (coords[i].0 + 3) * 10000 });
    }
    let h = header_line(&names(&["A", "B", "C"]));
    assert_eq!(h, b"chr,start,end,A,B,C".to_vec());
}

#[test]
fn divergent_row_is_reported_at_that_row() {
    let a = track(&[
        ("chr1", 0, 10, "1"),
        ("chr1", 10, 20, "1"),
        ("chr1", 20, 30, "1"),
        ("chr1", 30, 40, "1"),
        ("chr1", 40, 50, "1"),
    ]);
    let b = track(&[
        ("chr1", 0, 10, "2"),
        ("chr1", 10, 20, "2"),
        ("chr1", 20, 30, "2"),
        ("chr1", 31, 40, "2"),
        ("chr1", 40, 50, "2"),
    ]);
    assert_eq!(merge_tracks(&vec![a, b]).err(), Some(MergeError::Misaligned { row: 3, track: 1 }));
}

#[test]
fn short_track_is_fatal() {
    let a = track(&[
        ("chr1", 0, 10, "1"),
        ("chr1", 10, 20, "1"),
        ("chr1", 20, 30, "1"),
        ("chr1", 30, 40, "1"),
        ("chr1", 40, 50, "1"),
    ]);
    let b = track(&[("chr1", 0, 10, "2"), ("chr1", 10, 20, "2"), ("chr1", 20, 30, "2")]);
    assert_eq!(merge_tracks(&vec![a, b]).err(), Some(MergeError::ShortTrack { row: 3, track: 1 }));
}

#[test]
fn non_numeric_depth_is_fatal() {
    let a = track(&[("chr1", 0, 10, "1"), ("chr1", 10, 20, "1")]);
    let b = track(&[("chr1", 0, 10, "2"), ("chr1", 10, 20, "n/a")]);
    assert_eq!(merge_tracks(&vec![a, b]).err(), Some(MergeError::BadLine { row: 1, track: 1 }));
}

#[test]
fn end_to_end_matrix_text() {
    let t1 = b"chr1\t100\t200\t5.0\nchr1\t200\t300\t7.0\n".to_vec();
    let t2 = b"chr1\t100\t200\t3.0\nchr1\t200\t300\t9.0\n".to_vec();
    let n1 = track_name(b"T1_depth").unwrap();
    let n2 = track_name(b"T2_depth").unwrap();
    let mut text = header_line(&vec![n1, n2]);
    text.push(b'\n');
    for r in merge_tracks(&vec![t1, t2]).unwrap() {
        text.extend(row_line(&r));
        text.push(b'\n');
    }
    assert_eq!(
        String::from_utf8(text).unwrap(),
        "chr,start,end,T1,T2\nchr1,100,200,5.0000,3.0000\nchr1,200,300,7.0000,9.0000\n"
    );
}

#[test]
fn step_is_done_when_all_tracks_end() {
    assert!(matches!(merge_step(7, &vec![None, None]), Ok(MergeStep::Done)));
    assert!(matches!(merge_step(0, &vec![]), Ok(MergeStep::Done)));
    let r = merge_step(2, &vec![Some(b"chr1\t1\t2\t3".to_vec()), None]);
    assert_eq!(r.err(), Some(MergeError::ShortTrack { row: 2, track: 1 }));
}

#[test]
fn no_tracks_give_no_rows() {
    assert_eq!(merge_tracks(&vec![]).unwrap().len(), 0);
    assert_eq!(merge_tracks(&vec![Vec::new(), Vec::new()]).unwrap().len(), 0);
}

#[test]
fn centered_values_sum_to_zero() {
    let v: Vec<Fixed4> = ["10", "20", "30"].iter().map(|s| parse_fixed4(s.as_bytes()).unwrap()).collect();
    let c = centered(&v);
    assert_eq!(c, vec![-300000, 0, 300000]);
    assert_eq!(c.iter().sum::<i128>(), 0);
    let n = c.len() as f64;
    let q: f64 = c.iter().map(|&d| (d as f64) * (d as f64)).sum();
    let z: Vec<f64> = c.iter().map(|&d| (d as f64) * (n - 1.0).sqrt() / q.sqrt()).collect();
    assert!((z[0] + 1.0).abs() < 1e-12 && z[1].abs() < 1e-12 && (z[2] - 1.0).abs() < 1e-12);
    assert!(z.iter().sum::<f64>().abs() < 1e-12);
}

#[test]
fn equal_values_center_to_zero() {
    let v: Vec<Fixed4> = ["4", "4.0", "+4"].iter().map(|s| parse_fixed4(s.as_bytes()).unwrap()).collect();
    assert_eq!(centered(&v), vec![0, 0, 0]);
}

#[test]
fn values_print_with_four_decimals() {
    assert_eq!(fmt("5.0"), "5.0000");
    assert_eq!(fmt("7"), "7.0000");
    assert_eq!(fmt("1.23456"), "1.2346");
    assert_eq!(fmt("1.23454"), "1.2345");
    assert_eq!(fmt("-0.5"), "-0.5000");
    assert_eq!(fmt(".5"), "0.5000");
    assert_eq!(fmt("0.99995"), "1.0000");
    assert!(parse_fixed4(b"abc").is_none());
    assert!(parse_fixed4(b"1844674407370956").is_none());
}

#[test]
fn depth_line_fields() {
    let d = parse_depth_line(b"chr9\t5\t15\t2.5\textra").unwrap();
    assert_eq!(d.chrom, b"chr9".to_vec());
    assert_eq!((d.start, d.end), (5, 15));
    assert_eq!(d.value, Fixed4 { negative: false, scaled: 25000 });
    assert!(parse_depth_line(b"chr9\t5\t15").is_none());
    assert!(parse_depth_line(b"chr9\t15\t5\t1").is_none());
}

#[test]
fn track_names_drop_suffix() {
    assert_eq!(track_name(b"Follicular_depth"), Some(b"Follicular".to_vec()));
    assert_eq!(track_name(b"_depth"), Some(Vec::new()));
    assert_eq!(track_name(b"Follicular"), None);
    assert_eq!(track_name(b"depth"), None);
}
