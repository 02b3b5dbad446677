//! Merging per-track depth files, line by line, into one matrix whose rows
//! hold an interval and one value per track.
use vstd::prelude::*;
use crate::decimal::{decimal_digits, parse_u64, push_u64, spec_parse_u64};
use crate::fixed::{fixed_text, fixed_value, parse_fixed4, push_fixed4, spec_parse_fixed4, Fixed4};
use crate::text::{copy_text, field_text, is_field_text, join_with, push_joined, split_bytes, split_on, texts};

verus! {

/// One line of a depth track: an interval and its value.
#[derive(Clone, Debug)]
pub struct DepthEntry {
    pub chrom: Vec<u8>,
    pub start: u64,
    pub end: u64,
    pub value: Fixed4,
}

pub struct DepthView {
    pub chrom: Seq<u8>,
    pub start: u64,
    pub end: u64,
    pub value: Fixed4,
}

impl View for DepthEntry {
    type V = DepthView;

    open spec fn view(&self) -> DepthView {
        DepthView { chrom: self.chrom@, start: self.start, end: self.end, value: self.value }
    }
}

/// A merged row: the interval, then one value per track in track order.
#[derive(Clone, Debug)]
pub struct MatrixRow {
    pub chrom: Vec<u8>,
    pub start: u64,
    pub end: u64,
    pub values: Vec<Fixed4>,
}

pub struct RowView {
    pub chrom: Seq<u8>,
    pub start: u64,
    pub end: u64,
    pub values: Seq<Fixed4>,
}

impl View for MatrixRow {
    type V = RowView;

    open spec fn view(&self) -> RowView {
        RowView { chrom: self.chrom@, start: self.start, end: self.end, values: self.values@ }
    }
}

/// Why a merge stopped. `row` counts data rows from zero; `track` is the
/// position of the track that caused it.
#[derive(Clone, Copy, Debug, PartialEq, Eq, Structural)]
pub enum MergeError {
    /// The track ran out of lines while another still had one.
    ShortTrack { row: u64, track: usize },
    /// The track's line is not `chrom, start, end, value` with a valid
    /// interval and a decimal value.
    BadLine { row: u64, track: usize },
    /// The track's interval differs from the first track's.
    Misaligned { row: u64, track: usize },
}

/// What one merge step gives: the end of all tracks, or one row.
#[derive(Clone, Debug)]
pub enum MergeStep {
    Done,
    Row(MatrixRow),
}

pub enum StepView {
    Done,
    Row(RowView),
}

pub open spec fn step_view(s: MergeStep) -> StepView {
    match s {
        MergeStep::Done => StepView::Done,
        MergeStep::Row(r) => StepView::Row(r@),
    }
}

pub open spec fn opt_texts(v: Seq<Option<Vec<u8>>>) -> Seq<Option<Seq<u8>>> {
    v.map_values(|o: Option<Vec<u8>>| match o {
        Some(x) => Some(x@),
        None => None,
    })
}

/// What a depth line holds: tab-separated chrom, start, end and value
/// (later fields ignored), with start below end.
pub open spec fn spec_parse_depth(line: Seq<u8>) -> Option<DepthView> {
    let f = split_on(line, 9u8);
    if f.len() < 4 || !is_field_text(f[0]) {
        None
    } else {
        match (spec_parse_u64(f[1]), spec_parse_u64(f[2]), spec_parse_fixed4(f[3])) {
            (Some(start), Some(end), Some(value)) => if start < end {
                Some(DepthView { chrom: f[0], start, end, value })
            } else {
                None
            },
            _ => None,
        }
    }
}

pub open spec fn same_interval(a: DepthView, b: DepthView) -> bool {
    a.chrom == b.chrom && a.start == b.start && a.end == b.end
}

/// Reads the lines of one row, track by track: the entries, or the error of
/// the first track that is missing, unreadable, or off the first track's
/// interval.
pub open spec fn spec_scan(row: u64, ls: Seq<Option<Seq<u8>>>) -> Result<Seq<DepthView>, MergeError>
    decreases ls.len(),
{
    if ls.len() == 0 {
        Ok(Seq::empty())
    } else {
        let k = (ls.len() - 1) as usize;
        match spec_scan(row, ls.drop_last()) {
            Err(e) => Err(e),
            Ok(entries) => match ls.last() {
                None => Err(MergeError::ShortTrack { row, track: k }),
                Some(line) => match spec_parse_depth(line) {
                    None => Err(MergeError::BadLine { row, track: k }),
                    Some(d) => if ls.len() > 1 && !same_interval(d, entries[0]) {
                        Err(MergeError::Misaligned { row, track: k })
                    } else {
                        Ok(entries.push(d))
                    },
                },
            },
        }
    }
}

pub open spec fn all_absent(ls: Seq<Option<Seq<u8>>>) -> bool {
    forall|k: int| 0 <= k < ls.len() ==> #[trigger] ls[k] is None
}

/// One merge step on the next line of every track (`None` where a track has
/// no more): done when no track has one; else the row, whose interval is
/// the first track's and whose values come in track order.
pub open spec fn spec_merge_step(row: u64, ls: Seq<Option<Seq<u8>>>) -> Result<StepView, MergeError> {
    if all_absent(ls) {
        Ok(StepView::Done)
    } else {
        match spec_scan(row, ls) {
            Err(e) => Err(e),
            Ok(entries) => Ok(
                StepView::Row(
                    RowView {
                        chrom: entries[0].chrom,
                        start: entries[0].start,
                        end: entries[0].end,
                        values: entries.map_values(|d: DepthView| d.value),
                    },
                ),
            ),
        }
    }
}

proof fn lemma_scan_len(row: u64, ls: Seq<Option<Seq<u8>>>)
    ensures
        spec_scan(row, ls) matches Ok(e) ==> e.len() == ls.len() && (forall|j: int|
            0 <= j < e.len() ==> same_interval(#[trigger] e[j], e[0]) && (ls[j] matches Some(
                line) && spec_parse_depth(line) == Some(e[j]))),
    decreases ls.len(),
{
    if ls.len() > 0 {
        lemma_scan_len(row, ls.drop_last());
        if let Ok(e) = spec_scan(row, ls) {
            let prev = spec_scan(row, ls.drop_last()).unwrap();
            let d = spec_parse_depth(ls.last().unwrap()).unwrap();
            assert(e == prev.push(d));
            assert(e.drop_last() =~= prev);
            assert forall|j: int| 0 <= j < e.len() implies same_interval(#[trigger] e[j], e[0]) by {
                if e.len() > 1 {
                    assert(e[0] == prev[0]);
                    if j < e.len() - 1 {
                        assert(e[j] == prev[j]);
                        assert(ls[j] == ls.drop_last()[j]);
                    }
                }
            }
        }
    }
}

proof fn lemma_scan_err_extends(row: u64, ls: Seq<Option<Seq<u8>>>, i: int, j: int)
    requires
        0 <= i <= j <= ls.len(),
        spec_scan(row, ls.take(i)) is Err,
    ensures
        spec_scan(row, ls.take(j)) == spec_scan(row, ls.take(i)),
    decreases j - i,
{
    if i < j {
        lemma_scan_err_extends(row, ls, i, j - 1);
        assert(ls.take(j).drop_last() =~= ls.take(j - 1));
    }
}

/// Reads one depth line.
pub fn parse_depth_line(line: &[u8]) -> (r: Option<DepthEntry>)
    ensures
        spec_parse_depth(line@) == match r {
            Some(d) => Some(d@),
            None => None,
        },
{
    let f = split_bytes(line, 9u8);
    let ghost g = texts(f@);
    if f.len() < 4 {
        return None;
    }
    assert(g[0] == f@[0]@ && g[1] == f@[1]@ && g[2] == f@[2]@ && g[3] == f@[3]@);
    if !field_text(f[0].as_slice()) {
        return None;
    }
    let start = parse_u64(f[1].as_slice());
    let end = parse_u64(f[2].as_slice());
    let value = parse_fixed4(f[3].as_slice());
    match (start, end, value) {
        (Some(s), Some(e), Some(v)) => {
            if s < e {
                Some(DepthEntry { chrom: copy_text(f[0].as_slice()), start: s, end: e, value: v })
            } else {
                None
            }
        },
        _ => None,
    }
}

/// One merge step: `lines` holds the next line of each track, or `None`
/// where the track is exhausted, and `row` is the index of the row.
pub fn merge_step(row: u64, lines: &Vec<Option<Vec<u8>>>) -> (r: Result<MergeStep, MergeError>)
    ensures
        spec_merge_step(row, opt_texts(lines@)) == match r {
            Ok(s) => Ok(step_view(s)),
            Err(e) => Err(e),
        },
{
    let ghost ls = opt_texts(lines@);
    let mut any = false;
    let mut i: usize = 0;
    while i < lines.len()
        invariant
            0 <= i <= lines.len(),
            ls == opt_texts(lines@),
            any == exists|k: int| 0 <= k < i && #[trigger] ls[k] is Some,
        decreases lines.len() - i,
    {
        if lines[i].is_some() {
            any = true;
            assert(ls[i as int] is Some);
        }
        i = i + 1;
    }
    if !any {
        return Ok(MergeStep::Done);
    }
    proof {
        let k = choose|k: int| 0 <= k < lines.len() && #[trigger] ls[k] is Some;
        assert(!(ls[k] is None));
        assert(!all_absent(ls));
    }
    let mut entries: Vec<DepthEntry> = Vec::new();
    let mut values: Vec<Fixed4> = Vec::new();
    let mut i: usize = 0;
    assert(ls.take(0) =~= Seq::<Option<Seq<u8>>>::empty());
    assert(entries@.map_values(|d: DepthEntry| d@) =~= Seq::<DepthView>::empty());
    assert(values@ =~= entries@.map_values(|d: DepthEntry| d.value));
    while i < lines.len()
        invariant
            0 <= i <= lines.len(),
            ls == opt_texts(lines@),
            !all_absent(ls),
            spec_scan(row, ls.take(i as int)) == Ok::<Seq<DepthView>, MergeError>(
                entries@.map_values(|d: DepthEntry| d@),
            ),
            values@ == entries@.map_values(|d: DepthEntry| d.value),
        decreases lines.len() - i,
    {
        assert(ls.take(i + 1).drop_last() =~= ls.take(i as int));
        assert(ls.take(i + 1).last() == ls[i as int]);
        proof {
            lemma_scan_len(row, ls.take(i as int));
        }
        match &lines[i] {
            None => {
                assert(ls[i as int] is None);
                assert(spec_scan(row, ls.take(i + 1)) == Err::<Seq<DepthView>, MergeError>(
                    MergeError::ShortTrack { row, track: i },
                ));
                proof {
                    lemma_scan_err_extends(row, ls, i + 1, ls.len() as int);
                    assert(ls.take(ls.len() as int) =~= ls);
                }
                return Err(MergeError::ShortTrack { row, track: i });
            },
            Some(line) => {
                assert(ls[i as int] == Some(line@));
                match parse_depth_line(line.as_slice()) {
                    None => {
                        proof {
                            lemma_scan_err_extends(row, ls, i + 1, ls.len() as int);
                            assert(ls.take(ls.len() as int) =~= ls);
                        }
                        return Err(MergeError::BadLine { row, track: i });
                    },
                    Some(d) => {
                        if i > 0 {
                            let first = &entries[0];
                            let same = d.start == first.start && d.end == first.end
                                && bytes_equal(d.chrom.as_slice(), first.chrom.as_slice());
                            if !same {
                                proof {
                                    lemma_scan_err_extends(row, ls, i + 1, ls.len() as int);
                                    assert(ls.take(ls.len() as int) =~= ls);
                                }
                                return Err(MergeError::Misaligned { row, track: i });
                            }
                        }
                        let ghost prev = entries@;
                        values.push(d.value);
                        entries.push(d);
                        assert(entries@.map_values(|e: DepthEntry| e@) =~= prev.map_values(
                            |e: DepthEntry| e@,
                        ).push(d@));
                        assert(values@ =~= entries@.map_values(|e: DepthEntry| e.value));
                    },
                }
            },
        }
        i = i + 1;
    }
    assert(ls.take(ls.len() as int) =~= ls);
    let ghost es = entries@.map_values(|d: DepthEntry| d@);
    assert(es.map_values(|d: DepthView| d.value) =~= values@);
    let first = &entries[0];
    let r = MatrixRow { chrom: copy_text(first.chrom.as_slice()), start: first.start, end: first.end, values };
    Ok(MergeStep::Row(r))
}

/// Tells whether two byte strings are equal.
pub fn bytes_equal(a: &[u8], b: &[u8]) -> (r: bool)
    ensures
        r == (a@ == b@),
{
    if a.len() != b.len() {
        return false;
    }
    let mut i: usize = 0;
    while i < a.len()
        invariant
            0 <= i <= a.len(),
            a.len() == b.len(),
            a@.take(i as int) == b@.take(i as int),
        decreases a.len() - i,
    {
        if a[i] != b[i] {
            assert(a@[i as int] != b@[i as int]);
            return false;
        }
        i = i + 1;
        assert(a@.take(i as int) =~= b@.take(i as int));
    }
    assert(a@ =~= a@.take(i as int));
    assert(b@ =~= b@.take(i as int));
    true
}

/// The lines of a file: its pieces between line feeds, without the empty
/// piece after a final line feed.
pub open spec fn file_lines(text: Seq<u8>) -> Seq<Seq<u8>> {
    let p = split_on(text, 10u8);
    if p.len() > 0 && p.last().len() == 0 {
        p.drop_last()
    } else {
        p
    }
}

/// Line `i` of every track, `None` where a track has fewer lines.
pub open spec fn row_lines(tls: Seq<Seq<Seq<u8>>>, i: int) -> Seq<Option<Seq<u8>>> {
    Seq::new(tls.len(), |k: int| if i < tls[k].len() { Some(tls[k][i]) } else { None })
}

pub open spec fn max_len(tls: Seq<Seq<Seq<u8>>>) -> nat
    decreases tls.len(),
{
    if tls.len() == 0 {
        0
    } else {
        let m = max_len(tls.drop_last());
        if tls.last().len() > m {
            tls.last().len()
        } else {
            m
        }
    }
}

/// The merge of the first `n` rows: the rows so far, or the first error.
/// Rows stop at the first step that is done.
pub open spec fn spec_merge_rows(tls: Seq<Seq<Seq<u8>>>, n: nat) -> Result<Seq<RowView>, MergeError>
    decreases n,
{
    if n == 0 {
        Ok(Seq::empty())
    } else {
        match spec_merge_rows(tls, (n - 1) as nat) {
            Err(e) => Err(e),
            Ok(rows) => if rows.len() < n - 1 {
                Ok(rows)
            } else {
                match spec_merge_step((n - 1) as u64, row_lines(tls, n - 1)) {
                    Err(e) => Err(e),
                    Ok(StepView::Done) => Ok(rows),
                    Ok(StepView::Row(r)) => Ok(rows.push(r)),
                }
            },
        }
    }
}

/// The merge of whole tracks, each given as the lines of its file.
pub open spec fn spec_merge_lines(tls: Seq<Seq<Seq<u8>>>) -> Result<Seq<RowView>, MergeError> {
    spec_merge_rows(tls, max_len(tls) + 1)
}

pub open spec fn spec_merge_tracks(tracks: Seq<Seq<u8>>) -> Result<Seq<RowView>, MergeError> {
    spec_merge_lines(tracks.map_values(|t: Seq<u8>| file_lines(t)))
}

pub open spec fn row_views(v: Seq<MatrixRow>) -> Seq<RowView> {
    v.map_values(|r: MatrixRow| r@)
}

proof fn lemma_max_len(tls: Seq<Seq<Seq<u8>>>)
    ensures
        forall|k: int| 0 <= k < tls.len() ==> #[trigger] tls[k].len() <= max_len(tls),
    decreases tls.len(),
{
    if tls.len() > 0 {
        lemma_max_len(tls.drop_last());
        assert forall|k: int| 0 <= k < tls.len() implies #[trigger] tls[k].len() <= max_len(tls) by {
            if k < tls.len() - 1 {
                assert(tls[k] == tls.drop_last()[k]);
            }
        }
    }
}

proof fn lemma_rows_stay_done(tls: Seq<Seq<Seq<u8>>>, i: nat, n: nat)
    requires
        i < n,
        spec_merge_rows(tls, i + 1) matches Ok(rows) && rows.len() == i,
    ensures
        spec_merge_rows(tls, n) == spec_merge_rows(tls, i + 1),
    decreases n - i,
{
    if n > i + 1 {
        lemma_rows_stay_done(tls, i, (n - 1) as nat);
    }
}

/// Merges whole tracks, each given as the text of its depth file; the rows
/// in order, or the error of the first row that fails.
pub fn merge_tracks(tracks: &Vec<Vec<u8>>) -> (r: Result<Vec<MatrixRow>, MergeError>)
    ensures
        spec_merge_tracks(texts(tracks@)) == match r {
            Ok(rows) => Ok(row_views(rows@)),
            Err(e) => Err(e),
        },
{
    let ghost tls = texts(tracks@).map_values(|t: Seq<u8>| file_lines(t));
    let mut lines: Vec<Vec<Vec<u8>>> = Vec::new();
    let mut m: usize = 0;
    let mut k: usize = 0;
    while k < tracks.len()
        invariant
            0 <= k <= tracks.len(),
            tls == texts(tracks@).map_values(|t: Seq<u8>| file_lines(t)),
            lines@.len() == k,
            forall|j: int| 0 <= j < k ==> texts(#[trigger] lines@[j]@) == tls[j],
            m == max_len(tls.take(k as int)),
        decreases tracks.len() - k,
    {
        let mut ls = split_bytes(tracks[k].as_slice(), 10u8);
        proof {
            crate::text::lemma_split_on_nonempty(tracks@[k as int]@, 10u8);
        }
        if ls.len() > 0 && ls[ls.len() - 1].len() == 0 {
            let ghost before = texts(ls@);
            ls.pop();
            assert(texts(ls@) =~= before.drop_last());
        }
        assert(texts(ls@) == tls[k as int]);
        assert(tls.take(k + 1).drop_last() =~= tls.take(k as int));
        if ls.len() > m {
            m = ls.len();
        }
        lines.push(ls);
        k = k + 1;
    }
    assert(tls.take(tls.len() as int) =~= tls);
    proof {
        lemma_max_len(tls);
    }
    let mut out: Vec<MatrixRow> = Vec::new();
    let mut row: usize = 0;
    assert(row_views(out@) =~= Seq::<RowView>::empty());
    loop
        invariant
            tls == texts(tracks@).map_values(|t: Seq<u8>| file_lines(t)),
            tls.len() == lines@.len(),
            forall|j: int| 0 <= j < lines@.len() ==> texts(#[trigger] lines@[j]@) == tls[j],
            forall|j: int| 0 <= j < tls.len() ==> #[trigger] tls[j].len() <= m,
            m == max_len(tls),
            row <= m,
            spec_merge_rows(tls, row as nat) == Ok::<Seq<RowView>, MergeError>(row_views(out@)),
            out@.len() == row,
        decreases m - row,
    {
        let mut cur: Vec<Option<Vec<u8>>> = Vec::new();
        let mut k: usize = 0;
        while k < lines.len()
            invariant
                0 <= k <= lines.len(),
                tls.len() == lines@.len(),
                forall|j: int| 0 <= j < lines@.len() ==> texts(#[trigger] lines@[j]@) == tls[j],
                opt_texts(cur@) == row_lines(tls, row as int).take(k as int),
            decreases lines.len() - k,
        {
            let ghost before = opt_texts(cur@);
            assert(texts(lines@[k as int]@) == tls[k as int]);
            if row < lines[k].len() {
                assert(texts(lines@[k as int]@)[row as int] == lines@[k as int]@[row as int]@);
                let t = copy_text(lines[k][row].as_slice());
                assert(t@ == tls[k as int][row as int]);
                cur.push(Some(t));
                assert(opt_texts(cur@) =~= before.push(Some(tls[k as int][row as int])));
            } else {
                cur.push(None);
                assert(opt_texts(cur@) =~= before.push(None));
            }
            k = k + 1;
            assert(opt_texts(cur@) =~= row_lines(tls, row as int).take(k as int));
        }
        assert(row_lines(tls, row as int).take(lines.len() as int) =~= row_lines(tls, row as int));
        let step = merge_step(row as u64, &cur);
        assert(spec_merge_rows(tls, (row + 1) as nat) == match spec_merge_rows(tls, row as nat) {
            Err(e) => Err(e),
            Ok(rows) => if rows.len() < row {
                Ok(rows)
            } else {
                match spec_merge_step(row as u64, row_lines(tls, row as int)) {
                    Err(e) => Err(e),
                    Ok(StepView::Done) => Ok(rows),
                    Ok(StepView::Row(r)) => Ok(rows.push(r)),
                }
            },
        });
        match step {
            Err(e) => {
                proof {
                    lemma_rows_err_stays(tls, (row + 1) as nat, (m + 1) as nat);
                }
                return Err(e);
            },
            Ok(MergeStep::Done) => {
                proof {
                    if row < m {
                        lemma_rows_stay_done(tls, row as nat, (m + 1) as nat);
                    }
                }
                return Ok(out);
            },
            Ok(MergeStep::Row(r)) => {
                if row == m {
                    proof {
                        assert forall|j: int| 0 <= j < tls.len() implies #[trigger] row_lines(tls, row as int)[j] is None by {
                            assert(tls[j].len() <= m);
                        }
                        assert(all_absent(row_lines(tls, row as int)));
                    }
                }
                let ghost prev = row_views(out@);
                out.push(r);
                assert(row_views(out@) =~= prev.push(r@));
                row = row + 1;
            },
        }
    }
}

proof fn lemma_rows_err_stays(tls: Seq<Seq<Seq<u8>>>, i: nat, n: nat)
    requires
        i <= n,
        spec_merge_rows(tls, i) is Err,
    ensures
        spec_merge_rows(tls, n) == spec_merge_rows(tls, i),
    decreases n - i,
{
    if n > i {
        lemma_rows_err_stays(tls, i, (n - 1) as nat);
    }
}

/// `chr`, `start` and `end`: the first three header columns.
pub open spec fn coord_columns() -> Seq<Seq<u8>> {
    seq![seq![99u8, 104u8, 114u8], seq![115u8, 116u8, 97u8, 114u8, 116u8], seq![101u8, 110u8, 100u8]]
}

/// The header line of a matrix: the coordinate columns, then the track
/// names, separated by commas.
pub open spec fn spec_header(names: Seq<Seq<u8>>) -> Seq<u8> {
    join_with(coord_columns() + names, 44u8)
}

/// A matrix line: chrom, start, end, then each value with four decimals,
/// separated by commas.
pub open spec fn spec_row_text(r: RowView) -> Seq<u8> {
    join_with(
        seq![r.chrom, decimal_digits(r.start as nat), decimal_digits(r.end as nat)]
            + r.values.map_values(|v: Fixed4| fixed_text(v)),
        44u8,
    )
}

/// The suffix that depth file names carry after the track name.
pub open spec fn depth_suffix() -> Seq<u8> {
    seq![95u8, 100u8, 101u8, 112u8, 116u8, 104u8]
}

/// A track's name is its file stem without the depth suffix.
pub open spec fn spec_track_name(stem: Seq<u8>) -> Option<Seq<u8>> {
    if stem.len() >= 6 && stem.skip(stem.len() - 6) == depth_suffix() {
        Some(stem.take(stem.len() - 6))
    } else {
        None
    }
}

/// The header line of a matrix over the named tracks.
pub fn header_line(names: &Vec<Vec<u8>>) -> (r: Vec<u8>)
    ensures
        r@ == spec_header(texts(names@)),
{
    let mut cols: Vec<Vec<u8>> = Vec::new();
    cols.push(copy_text(&[99u8, 104u8, 114u8]));
    cols.push(copy_text(&[115u8, 116u8, 97u8, 114u8, 116u8]));
    cols.push(copy_text(&[101u8, 110u8, 100u8]));
    assert(texts(cols@) =~= coord_columns());
    let mut i: usize = 0;
    while i < names.len()
        invariant
            0 <= i <= names.len(),
            texts(cols@) == coord_columns() + texts(names@).take(i as int),
        decreases names.len() - i,
    {
        let ghost before = texts(cols@);
        let t = copy_text(names[i].as_slice());
        cols.push(t);
        assert(texts(cols@) =~= before.push(names@[i as int]@));
        assert(texts(names@).take(i + 1) =~= texts(names@).take(i as int).push(names@[i as int]@));
        i = i + 1;
        assert(texts(cols@) =~= coord_columns() + texts(names@).take(i as int));
    }
    assert(texts(names@).take(names.len() as int) =~= texts(names@));
    let mut out: Vec<u8> = Vec::new();
    push_joined(&mut out, &cols, 44u8);
    assert(out@ =~= spec_header(texts(names@)));
    out
}

/// The text of one matrix row.
pub fn row_line(row: &MatrixRow) -> (r: Vec<u8>)
    ensures
        r@ == spec_row_text(row@),
{
    let mut cols: Vec<Vec<u8>> = Vec::new();
    cols.push(copy_text(row.chrom.as_slice()));
    let mut s: Vec<u8> = Vec::new();
    push_u64(&mut s, row.start);
    cols.push(s);
    let mut e: Vec<u8> = Vec::new();
    push_u64(&mut e, row.end);
    cols.push(e);
    let ghost head = seq![row.chrom@, decimal_digits(row.start as nat), decimal_digits(row.end as nat)];
    assert(texts(cols@) =~= head);
    let mut i: usize = 0;
    while i < row.values.len()
        invariant
            0 <= i <= row.values.len(),
            texts(cols@) == head + row.values@.take(i as int).map_values(|v: Fixed4| fixed_text(v)),
        decreases row.values.len() - i,
    {
        let mut t: Vec<u8> = Vec::new();
        push_fixed4(&mut t, row.values[i]);
        assert(t@ =~= fixed_text(row.values@[i as int]));
        let ghost before = texts(cols@);
        cols.push(t);
        assert(texts(cols@) =~= before.push(t@));
        assert(row.values@.take(i + 1).map_values(|v: Fixed4| fixed_text(v)) =~= row.values@.take(
            i as int,
        ).map_values(|v: Fixed4| fixed_text(v)).push(t@));
        i = i + 1;
        assert(texts(cols@) =~= head + row.values@.take(i as int).map_values(|v: Fixed4| fixed_text(v)));
    }
    assert(row.values@.take(row.values.len() as int) =~= row.values@);
    let mut out: Vec<u8> = Vec::new();
    push_joined(&mut out, &cols, 44u8);
    assert(out@ =~= spec_row_text(row@));
    out
}

/// The track name of a depth file stem: the stem without its `_depth`
/// suffix, or `None` where it does not end with it.
pub fn track_name(stem: &[u8]) -> (r: Option<Vec<u8>>)
    ensures
        spec_track_name(stem@) == match r {
            Some(n) => Some(n@),
            None => None,
        },
{
    let n = stem.len();
    if n < 6 {
        return None;
    }
    let suffix: [u8; 6] = [95u8, 100u8, 101u8, 112u8, 116u8, 104u8];
    let tail = &stem[n - 6..n];
    assert(tail@ =~= stem@.skip(n - 6));
    let same = bytes_equal(tail, &suffix);
    assert(suffix@ =~= depth_suffix());
    if !same {
        return None;
    }
    let head = &stem[0..n - 6];
    assert(head@ =~= stem@.take(n - 6));
    Some(copy_text(head))
}

/// Sum of the values in ten-thousandths.
pub open spec fn sum_fixed(v: Seq<Fixed4>) -> int
    decreases v.len(),
{
    if v.len() == 0 {
        0
    } else {
        sum_fixed(v.drop_last()) + fixed_value(v.last())
    }
}

/// `n` times each value, less the sum of all: each value's distance from
/// the mean, times the count. The z-score of track `k` is entry `k` times
/// the square root of `n - 1`, over the square root of the sum of squares
/// of the entries (zero where that sum is zero).
pub open spec fn spec_centered(v: Seq<Fixed4>) -> Seq<int> {
    Seq::new(v.len(), |k: int| v.len() * fixed_value(v[k]) - sum_fixed(v))
}

proof fn lemma_sum_fixed_bound(v: Seq<Fixed4>)
    ensures
        -(v.len() * 0x1_0000_0000_0000_0000) <= sum_fixed(v) <= v.len() * 0x1_0000_0000_0000_0000,
    decreases v.len(),
{
    if v.len() > 0 {
        lemma_sum_fixed_bound(v.drop_last());
    }
}

/// Each value's distance from the row mean, scaled by the row length so
/// that it stays an integer.
pub fn centered(values: &Vec<Fixed4>) -> (r: Vec<i128>)
    requires
        values.len() <= 0xFFFF_FFFF,
    ensures
        r@.len() == values@.len(),
        forall|k: int| 0 <= k < r@.len() ==> r@[k] as int == #[trigger] spec_centered(values@)[k],
{
    let n = values.len();
    let mut total: i128 = 0;
    let mut i: usize = 0;
    while i < n
        invariant
            0 <= i <= n,
            n == values.len(),
            n <= 0xFFFF_FFFF,
            total as int == sum_fixed(values@.take(i as int)),
        decreases n - i,
    {
        proof {
            lemma_sum_fixed_bound(values@.take(i + 1));
            assert(values@.take(i + 1).drop_last() =~= values@.take(i as int));
        }
        let v = values[i];
        if v.negative {
            total = total - v.scaled as i128;
        } else {
            total = total + v.scaled as i128;
        }
        i = i + 1;
    }
    assert(values@.take(n as int) =~= values@);
    proof {
        lemma_sum_fixed_bound(values@);
    }
    let mut r: Vec<i128> = Vec::new();
    let mut k: usize = 0;
    while k < n
        invariant
            0 <= k <= n,
            n == values.len(),
            n <= 0xFFFF_FFFF,
            total as int == sum_fixed(values@),
            -(n * 0x1_0000_0000_0000_0000) <= sum_fixed(values@) <= n * 0x1_0000_0000_0000_0000,
            r@.len() == k,
            forall|j: int| 0 <= j < k ==> r@[j] as int == #[trigger] spec_centered(values@)[j],
        decreases n - k,
    {
        let v = values[k];
        let s: i128 = if v.negative {
            0 - v.scaled as i128
        } else {
            v.scaled as i128
        };
        assert(s as int == fixed_value(values@[k as int]));
        assert(-0x1_0000_0000_0000_0000 <= s <= 0x1_0000_0000_0000_0000);
        assert((n as i128) * s <= 0xFFFF_FFFF * 0x1_0000_0000_0000_0000) by (nonlinear_arith)
            requires n <= 0xFFFF_FFFF, s <= 0x1_0000_0000_0000_0000, -0x1_0000_0000_0000_0000 <= s;
        assert((n as i128) * s >= -(0xFFFF_FFFF * 0x1_0000_0000_0000_0000)) by (nonlinear_arith)
            requires n <= 0xFFFF_FFFF, s <= 0x1_0000_0000_0000_0000, -0x1_0000_0000_0000_0000 <= s;
        r.push((n as i128) * s - total);
        k = k + 1;
    }
    r
}

pub open spec fn sum_int_seq(s: Seq<int>) -> int
    decreases s.len(),
{
    if s.len() == 0 {
        0
    } else {
        sum_int_seq(s.drop_last()) + s.last()
    }
}

proof fn lemma_centered_prefix(v: Seq<Fixed4>, m: int)
    requires
        0 <= m <= v.len(),
    ensures
        sum_int_seq(spec_centered(v).take(m)) == v.len() * sum_fixed(v.take(m)) - m * sum_fixed(v),
    decreases m,
{
    let c = spec_centered(v);
    let n = v.len() as int;
    let t = sum_fixed(v);
    if m == 0 {
        assert(v.take(0) =~= Seq::<Fixed4>::empty());
        assert(c.take(0) =~= Seq::<int>::empty());
    } else {
        lemma_centered_prefix(v, m - 1);
        assert(c.take(m).drop_last() =~= c.take(m - 1));
        assert(v.take(m).drop_last() =~= v.take(m - 1));
        let a = sum_fixed(v.take(m - 1));
        let x = fixed_value(v[m - 1]);
        assert(c.take(m).last() == n * x - t);
        assert(n * (a + x) == n * a + n * x) by (nonlinear_arith);
        assert(m * t == (m - 1) * t + t) by (nonlinear_arith);
    }
}

/// The centred values of a row sum to zero: the z-scores of a row, which
/// are these times one common factor, sum to zero before rounding.
pub proof fn lemma_centered_sum_zero(v: Seq<Fixed4>)
    ensures
        sum_int_seq(spec_centered(v)) == 0,
{
    lemma_centered_prefix(v, v.len() as int);
    assert(v.take(v.len() as int) =~= v);
    assert(spec_centered(v).take(v.len() as int) =~= spec_centered(v));
}

proof fn lemma_rows_len(tls: Seq<Seq<Seq<u8>>>, n: nat)
    ensures
        spec_merge_rows(tls, n) matches Ok(rows) ==> rows.len() <= n,
    decreases n,
{
    if n > 0 {
        lemma_rows_len(tls, (n - 1) as nat);
    }
}

proof fn lemma_rows_aligned(tls: Seq<Seq<Seq<u8>>>, n: nat, i: int, k: int)
    requires
        spec_merge_rows(tls, n) matches Ok(rows) && 0 <= i < rows.len(),
        0 <= k < tls.len(),
    ensures
        ({
            let r = spec_merge_rows(tls, n).unwrap()[i];
            &&& i < tls[k].len()
            &&& (spec_parse_depth(tls[k][i]) matches Some(d) && d.chrom == r.chrom && d.start
                == r.start && d.end == r.end && d.value == r.values[k])
        }),
    decreases n,
{
    let p = spec_merge_rows(tls, (n - 1) as nat).unwrap();
    lemma_rows_len(tls, (n - 1) as nat);
    if i < p.len() {
        lemma_rows_aligned(tls, (n - 1) as nat, i, k);
    } else {
        let ls = row_lines(tls, n - 1);
        let e = spec_scan((n - 1) as u64, ls).unwrap();
        lemma_scan_len((n - 1) as u64, ls);
        assert(same_interval(e[k], e[0]));
        assert(ls[k] is Some);
    }
}

/// Every row of a merge that succeeds has, for each track, that track's
/// line at the row's index, and that line holds the row's interval and the
/// row's value for the track.
pub proof fn lemma_merge_aligned(tls: Seq<Seq<Seq<u8>>>, i: int, k: int)
    requires
        spec_merge_lines(tls) matches Ok(rows) && 0 <= i < rows.len(),
        0 <= k < tls.len(),
    ensures
        ({
            let r = spec_merge_lines(tls).unwrap()[i];
            &&& i < tls[k].len()
            &&& (spec_parse_depth(tls[k][i]) matches Some(d) && d.chrom == r.chrom && d.start
                == r.start && d.end == r.end && d.value == r.values[k])
        }),
{
    lemma_rows_aligned(tls, max_len(tls) + 1, i, k);
}

/// Tracks of `n` lines each, where every line reads and line `i` of each
/// track holds the interval of line `i` of the first.
pub open spec fn tracks_aligned(tls: Seq<Seq<Seq<u8>>>, n: nat) -> bool {
    &&& prefix_aligned(tls, n)
    &&& forall|k: int| 0 <= k < tls.len() ==> (#[trigger] tls[k]).len() == n
}

/// Tracks of at least `n` lines each, whose first `n` lines read and agree
/// with the first track's on every interval.
pub open spec fn prefix_aligned(tls: Seq<Seq<Seq<u8>>>, n: nat) -> bool {
    &&& tls.len() > 0
    &&& forall|k: int| 0 <= k < tls.len() ==> (#[trigger] tls[k]).len() >= n
    &&& forall|k: int, i: int|
        0 <= k < tls.len() && 0 <= i < n ==> (spec_parse_depth(#[trigger] tls[k][i]) matches Some(
            d,
        ) && spec_parse_depth(tls[0][i]) matches Some(d0) && same_interval(d, d0))
}

proof fn lemma_scan_aligned(row: u64, ls: Seq<Option<Seq<u8>>>, d0: DepthView)
    requires
        forall|k: int| 0 <= k < ls.len() ==> (#[trigger] ls[k] matches Some(line) && (spec_parse_depth(
            line,
        ) matches Some(d) && same_interval(d, d0))),
        ls.len() > 0 ==> spec_parse_depth(ls[0].unwrap()) == Some(d0),
    ensures
        spec_scan(row, ls) is Ok,
    decreases ls.len(),
{
    if ls.len() > 0 {
        let init = ls.drop_last();
        assert forall|k: int| 0 <= k < init.len() implies (#[trigger] init[k] matches Some(line)
            && (spec_parse_depth(line) matches Some(d) && same_interval(d, d0))) by {
            assert(init[k] == ls[k]);
        }
        if init.len() > 0 {
            assert(init[0] == ls[0]);
        }
        lemma_scan_aligned(row, init, d0);
        lemma_scan_len(row, init);
        assert(ls[ls.len() - 1] is Some);
        if ls.len() > 1 {
            let e = spec_scan(row, init).unwrap();
            assert(init[0] matches Some(line) && spec_parse_depth(line) == Some(e[0]));
        }
    }
}

proof fn lemma_rows_aligned_tracks(tls: Seq<Seq<Seq<u8>>>, n: nat, m: nat)
    requires
        prefix_aligned(tls, n),
        m <= n,
    ensures
        spec_merge_rows(tls, m) matches Ok(rows) && rows.len() == m && (forall|i: int|
            0 <= i < m ==> (#[trigger] rows[i]).values.len() == tls.len()),
    decreases m,
{
    if m > 0 {
        lemma_rows_aligned_tracks(tls, n, (m - 1) as nat);
        let ls = row_lines(tls, m - 1);
        let d0 = spec_parse_depth(tls[0][m - 1]).unwrap();
        assert(tls[0].len() >= n);
        assert forall|k: int| 0 <= k < ls.len() implies (#[trigger] ls[k] matches Some(line) && (
        spec_parse_depth(line) matches Some(d) && same_interval(d, d0))) by {
            assert(tls[k].len() >= n);
            assert(spec_parse_depth(tls[k][m - 1]) is Some);
        }
        lemma_scan_aligned((m - 1) as u64, ls, d0);
        lemma_scan_len((m - 1) as u64, ls);
        assert(ls[0] is Some);
        assert(!all_absent(ls));
        let prev = spec_merge_rows(tls, (m - 1) as nat).unwrap();
        let rows = spec_merge_rows(tls, m).unwrap();
        assert forall|i: int| 0 <= i < m implies (#[trigger] rows[i]).values.len() == tls.len() by {
            if i < m - 1 {
                assert(rows[i] == prev[i]);
            }
        }
    }
}

proof fn lemma_max_len_equal(tls: Seq<Seq<Seq<u8>>>, n: nat)
    requires
        tls.len() > 0,
        forall|k: int| 0 <= k < tls.len() ==> (#[trigger] tls[k]).len() == n,
    ensures
        max_len(tls) == n,
    decreases tls.len(),
{
    if tls.len() > 1 {
        let init = tls.drop_last();
        assert forall|k: int| 0 <= k < init.len() implies (#[trigger] init[k]).len() == n by {
            assert(init[k] == tls[k]);
        }
        lemma_max_len_equal(init, n);
        assert(tls[tls.len() - 1].len() == n);
    } else {
        assert(tls.drop_last().len() == 0);
        assert(max_len(tls.drop_last()) == 0);
        assert(tls[0].len() == n);
    }
}

/// Tracks of equal length whose lines read and agree on every interval
/// merge into one row per line, each with one value per track.
pub proof fn lemma_aligned_tracks_merge(tls: Seq<Seq<Seq<u8>>>, n: nat)
    requires
        tracks_aligned(tls, n),
    ensures
        spec_merge_lines(tls) matches Ok(rows) && rows.len() == n && (forall|i: int|
            0 <= i < n ==> (#[trigger] rows[i]).values.len() == tls.len()),
{
    lemma_rows_aligned_tracks(tls, n, n);
    lemma_max_len_equal(tls, n);
    let ls = row_lines(tls, n as int);
    assert forall|k: int| 0 <= k < ls.len() implies #[trigger] ls[k] is None by {
        assert(tls[k].len() == n);
    }
}

/// Where the first `r` rows agree and every track has a readable line `r`,
/// the first track (after the first) whose line `r` holds another interval
/// stops the merge with that row and that track.
pub proof fn lemma_misaligned_row_fails(tls: Seq<Seq<Seq<u8>>>, r: nat, t: int)
    requires
        prefix_aligned(tls, r),
        r <= u64::MAX,
        tls.len() <= usize::MAX,
        forall|k: int| 0 <= k < tls.len() ==> (#[trigger] tls[k]).len() > r,
        forall|k: int| 0 <= k < tls.len() ==> spec_parse_depth(#[trigger] tls[k][r as int]) is Some,
        0 < t < tls.len(),
        forall|j: int|
            0 < j < t ==> same_interval(
                spec_parse_depth(#[trigger] tls[j][r as int]).unwrap(),
                spec_parse_depth(tls[0][r as int]).unwrap(),
            ),
        !same_interval(
            spec_parse_depth(tls[t][r as int]).unwrap(),
            spec_parse_depth(tls[0][r as int]).unwrap(),
        ),
    ensures
        spec_merge_lines(tls) == Err::<Seq<RowView>, MergeError>(
            MergeError::Misaligned { row: r as u64, track: t as usize },
        ),
{
    lemma_rows_aligned_tracks(tls, r, r);
    let ls = row_lines(tls, r as int);
    let d0 = spec_parse_depth(tls[0][r as int]).unwrap();
    let head = ls.take(t);
    assert forall|k: int| 0 <= k < head.len() implies (#[trigger] head[k] matches Some(line) && (
    spec_parse_depth(line) matches Some(d) && same_interval(d, d0))) by {
        assert(head[k] == ls[k]);
        assert(tls[k].len() > r);
        assert(spec_parse_depth(tls[k][r as int]) is Some);
    }
    assert(head[0] == ls[0]);
    assert(tls[0].len() > r);
    lemma_scan_aligned(r as u64, head, d0);
    lemma_scan_len(r as u64, head);
    assert(tls[t].len() > r);
    assert(ls.take(t + 1).drop_last() =~= head);
    assert(ls.take(t + 1).last() == ls[t]);
    let e = spec_scan(r as u64, head).unwrap();
    assert(head[0] matches Some(line) && spec_parse_depth(line) == Some(e[0]));
    assert(spec_scan(r as u64, ls.take(t + 1)) == Err::<Seq<DepthView>, MergeError>(
        MergeError::Misaligned { row: r as u64, track: t as usize },
    ));
    lemma_scan_err_extends(r as u64, ls, t + 1, ls.len() as int);
    assert(ls.take(ls.len() as int) =~= ls);
    assert(ls[0] is Some);
    assert(!all_absent(ls));
    lemma_max_len(tls);
    assert(tls[0].len() <= max_len(tls));
    lemma_rows_err_stays(tls, r + 1, max_len(tls) + 1);
}

/// Where the first `r` rows agree, a track that has only `r` lines while
/// another track goes on stops the merge at row `r`, provided the tracks
/// before it have a readable line `r` on the first track's interval: a
/// track that ends early is an error, never a shorter matrix.
pub proof fn lemma_short_track_fails(tls: Seq<Seq<Seq<u8>>>, r: nat, t: int, u: int)
    requires
        prefix_aligned(tls, r),
        r <= u64::MAX,
        tls.len() <= usize::MAX,
        0 <= t < tls.len(),
        0 <= u < tls.len(),
        tls[u].len() > r,
        tls[t].len() == r,
        forall|j: int|
            0 <= j < t ==> (#[trigger] tls[j]).len() > r && spec_parse_depth(tls[j][r as int]) is Some
                && same_interval(
                spec_parse_depth(tls[j][r as int]).unwrap(),
                spec_parse_depth(tls[0][r as int]).unwrap(),
            ),
    ensures
        spec_merge_lines(tls) == Err::<Seq<RowView>, MergeError>(
            MergeError::ShortTrack { row: r as u64, track: t as usize },
        ),
{
    lemma_rows_aligned_tracks(tls, r, r);
    let ls = row_lines(tls, r as int);
    let d0 = spec_parse_depth(tls[0][r as int]).unwrap();
    let head = ls.take(t);
    assert forall|k: int| 0 <= k < head.len() implies (#[trigger] head[k] matches Some(line) && (
    spec_parse_depth(line) matches Some(d) && same_interval(d, d0))) by {
        assert(head[k] == ls[k]);
        assert(tls[k].len() > r);
    }
    if t > 0 {
        assert(head[0] == ls[0]);
        assert(tls[0].len() > r);
    }
    lemma_scan_aligned(r as u64, head, d0);
    assert(ls.take(t + 1).drop_last() =~= head);
    assert(ls.take(t + 1).last() == ls[t]);
    assert(ls[t] is None);
    assert(spec_scan(r as u64, ls.take(t + 1)) == Err::<Seq<DepthView>, MergeError>(
        MergeError::ShortTrack { row: r as u64, track: t as usize },
    ));
    lemma_scan_err_extends(r as u64, ls, t + 1, ls.len() as int);
    assert(ls.take(ls.len() as int) =~= ls);
    assert(ls[u] is Some);
    assert(!all_absent(ls));
    lemma_max_len(tls);
    assert(tls[u].len() <= max_len(tls));
    lemma_rows_err_stays(tls, r + 1, max_len(tls) + 1);
}

} // verus!
