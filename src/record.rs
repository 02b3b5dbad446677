//! The record variants of tab-separated genomic files, and how each one is
//! read from and written to an ordered sequence of fields.
use vstd::prelude::*;
use crate::decimal::{
    decimal_digits, decimal_number, is_decimal_number,
    lemma_parse_i64_digits, lemma_parse_u64_digits, parse_i64, parse_u64, push_i64, push_u64,
    signed_digits, spec_parse_i64, spec_parse_u64,
};
use crate::text::{copy_text, field_text, is_field_text, texts};

verus! {

/// Strand column of a record: `+`, `-` or `.`.
#[derive(Clone, Copy, Debug, PartialEq, Eq, Structural)]
pub enum Strand {
    Forward,
    Reverse,
    Unknown,
}

pub open spec fn strand_text(s: Strand) -> Seq<u8> {
    match s {
        Strand::Forward => seq![43u8],
        Strand::Reverse => seq![45u8],
        Strand::Unknown => seq![46u8],
    }
}

pub open spec fn spec_parse_strand(s: Seq<u8>) -> Option<Strand> {
    if s == seq![43u8] {
        Some(Strand::Forward)
    } else if s == seq![45u8] {
        Some(Strand::Reverse)
    } else if s == seq![46u8] {
        Some(Strand::Unknown)
    } else {
        None
    }
}

pub fn parse_strand(s: &[u8]) -> (r: Option<Strand>)
    ensures
        r == spec_parse_strand(s@),
{
    if s.len() != 1 {
        proof {
            assert(s@ != seq![43u8] && s@ != seq![45u8] && s@ != seq![46u8]);
        }
        return None;
    }
    assert(s@ =~= seq![s@[0]]);
    if s[0] == 43u8 {
        Some(Strand::Forward)
    } else if s[0] == 45u8 {
        Some(Strand::Reverse)
    } else if s[0] == 46u8 {
        Some(Strand::Unknown)
    } else {
        None
    }
}

pub fn strand_bytes(s: Strand) -> (r: Vec<u8>)
    ensures
        r@ == strand_text(s),
{
    let c: u8 = match s {
        Strand::Forward => 43u8,
        Strand::Reverse => 45u8,
        Strand::Unknown => 46u8,
    };
    let mut r: Vec<u8> = Vec::new();
    r.push(c);
    assert(r@ =~= strand_text(s));
    r
}

/// A BED line: an interval with optional name, score and strand.
#[derive(Clone, Debug)]
pub struct BedRecord {
    pub chrom: Vec<u8>,
    pub start: u64,
    pub end: u64,
    pub name: Option<Vec<u8>>,
    pub score: Option<u64>,
    pub strand: Option<Strand>,
}

pub struct BedView {
    pub chrom: Seq<u8>,
    pub start: u64,
    pub end: u64,
    pub name: Option<Seq<u8>>,
    pub score: Option<u64>,
    pub strand: Option<Strand>,
}

pub open spec fn opt_text(o: Option<Vec<u8>>) -> Option<Seq<u8>> {
    match o {
        Some(v) => Some(v@),
        None => None,
    }
}

impl View for BedRecord {
    type V = BedView;

    open spec fn view(&self) -> BedView {
        BedView {
            chrom: self.chrom@,
            start: self.start,
            end: self.end,
            name: opt_text(self.name),
            score: self.score,
            strand: self.strand,
        }
    }
}

/// A narrow-peak line: an interval with name, score, strand, the three
/// statistics (kept as their decimal text) and the summit offset.
#[derive(Clone, Debug)]
pub struct PeakRecord {
    pub chrom: Vec<u8>,
    pub start: u64,
    pub end: u64,
    pub name: Vec<u8>,
    pub score: u64,
    pub strand: Strand,
    pub signal_value: Vec<u8>,
    pub p_value: Vec<u8>,
    pub q_value: Vec<u8>,
    pub peak: i64,
}

pub struct PeakView {
    pub chrom: Seq<u8>,
    pub start: u64,
    pub end: u64,
    pub name: Seq<u8>,
    pub score: u64,
    pub strand: Strand,
    pub signal_value: Seq<u8>,
    pub p_value: Seq<u8>,
    pub q_value: Seq<u8>,
    pub peak: i64,
}

impl View for PeakRecord {
    type V = PeakView;

    open spec fn view(&self) -> PeakView {
        PeakView {
            chrom: self.chrom@,
            start: self.start,
            end: self.end,
            name: self.name@,
            score: self.score,
            strand: self.strand,
            signal_value: self.signal_value@,
            p_value: self.p_value@,
            q_value: self.q_value@,
            peak: self.peak,
        }
    }
}

/// Fewest fields of a BED line.
pub const BED_MIN_FIELDS: usize = 3;

/// Fields of a BED line that the record keeps; later ones are ignored.
pub const BED_MAX_FIELDS: usize = 6;

/// Fields of a narrow-peak line.
pub const PEAK_FIELDS: usize = 10;

/// A valid BED record: a non-empty interval, field texts that a line can
/// carry, and optional columns present only after all earlier ones.
pub open spec fn bed_wf(r: BedView) -> bool {
    &&& is_field_text(r.chrom)
    &&& r.start < r.end
    &&& (r.name matches Some(n) ==> is_field_text(n))
    &&& (r.score is Some ==> r.name is Some)
    &&& (r.strand is Some ==> r.score is Some)
}

/// A valid narrow-peak record.
pub open spec fn peak_wf(r: PeakView) -> bool {
    &&& is_field_text(r.chrom)
    &&& r.start < r.end
    &&& is_field_text(r.name)
    &&& is_decimal_number(r.signal_value)
    &&& is_decimal_number(r.p_value)
    &&& is_decimal_number(r.q_value)
}

pub open spec fn spec_bed_from_fields(f: Seq<Seq<u8>>) -> Option<BedView> {
    if f.len() < 3 || !is_field_text(f[0]) || spec_parse_u64(f[1]) is None || spec_parse_u64(
        f[2],
    ) is None {
        None
    } else {
        let start = spec_parse_u64(f[1]).unwrap();
        let end = spec_parse_u64(f[2]).unwrap();
        if end <= start {
            None
        } else if f.len() > 3 && !is_field_text(f[3]) {
            None
        } else if f.len() > 4 && spec_parse_u64(f[4]) is None {
            None
        } else if f.len() > 5 && spec_parse_strand(f[5]) is None {
            None
        } else {
            Some(
                BedView {
                    chrom: f[0],
                    start,
                    end,
                    name: if f.len() > 3 {
                        Some(f[3])
                    } else {
                        None
                    },
                    score: if f.len() > 4 {
                        spec_parse_u64(f[4])
                    } else {
                        None
                    },
                    strand: if f.len() > 5 {
                        spec_parse_strand(f[5])
                    } else {
                        None
                    },
                },
            )
        }
    }
}

pub open spec fn spec_bed_to_fields(r: BedView) -> Seq<Seq<u8>> {
    let base = seq![r.chrom, decimal_digits(r.start as nat), decimal_digits(r.end as nat)];
    let with_name = match r.name {
        Some(n) => base.push(n),
        None => base,
    };
    let with_score = match r.score {
        Some(s) => with_name.push(decimal_digits(s as nat)),
        None => with_name,
    };
    match r.strand {
        Some(s) => with_score.push(strand_text(s)),
        None => with_score,
    }
}

pub open spec fn spec_peak_from_fields(f: Seq<Seq<u8>>) -> Option<PeakView> {
    if f.len() < 10 {
        None
    } else if !is_field_text(f[0]) || !is_field_text(f[3]) {
        None
    } else if spec_parse_u64(f[1]) is None || spec_parse_u64(f[2]) is None || spec_parse_u64(
        f[4],
    ) is None {
        None
    } else if spec_parse_u64(f[2]).unwrap() <= spec_parse_u64(f[1]).unwrap() {
        None
    } else if spec_parse_strand(f[5]) is None || spec_parse_i64(f[9]) is None {
        None
    } else if !is_decimal_number(f[6]) || !is_decimal_number(f[7]) || !is_decimal_number(f[8]) {
        None
    } else {
        Some(
            PeakView {
                chrom: f[0],
                start: spec_parse_u64(f[1]).unwrap(),
                end: spec_parse_u64(f[2]).unwrap(),
                name: f[3],
                score: spec_parse_u64(f[4]).unwrap(),
                strand: spec_parse_strand(f[5]).unwrap(),
                signal_value: f[6],
                p_value: f[7],
                q_value: f[8],
                peak: spec_parse_i64(f[9]).unwrap(),
            },
        )
    }
}

pub open spec fn spec_peak_to_fields(r: PeakView) -> Seq<Seq<u8>> {
    seq![
        r.chrom,
        decimal_digits(r.start as nat),
        decimal_digits(r.end as nat),
        r.name,
        decimal_digits(r.score as nat),
        strand_text(r.strand),
        r.signal_value,
        r.p_value,
        r.q_value,
        signed_digits(r.peak as int),
    ]
}

/// Narrowing of a peak's fields to a BED record: the leading fields a BED
/// record keeps, read again as one.
pub open spec fn spec_narrow_fields(f: Seq<Seq<u8>>) -> Option<BedView> {
    spec_bed_from_fields(f.take(if f.len() < 6 { f.len() as int } else { 6 }))
}

impl BedRecord {
    /// Reads a BED record from its fields; `None` when there are fewer than
    /// three, or one of them does not read.
    pub fn from_fields(fields: &Vec<Vec<u8>>) -> (r: Option<BedRecord>)
        ensures
            spec_bed_from_fields(texts(fields@)) == match r {
                Some(b) => Some(b@),
                None => None,
            },
            r matches Some(b) ==> bed_wf(b@),
    {
        let ghost f = texts(fields@);
        let n = fields.len();
        if n < BED_MIN_FIELDS {
            return None;
        }
        assert(f[0] == fields@[0]@ && f[1] == fields@[1]@ && f[2] == fields@[2]@);
        if !field_text(fields[0].as_slice()) {
            return None;
        }
        let start = match parse_u64(fields[1].as_slice()) {
            Some(v) => v,
            None => return None,
        };
        let end = match parse_u64(fields[2].as_slice()) {
            Some(v) => v,
            None => return None,
        };
        if end <= start {
            return None;
        }
        let mut name: Option<Vec<u8>> = None;
        if n > 3 {
            assert(f[3] == fields@[3]@);
            if !field_text(fields[3].as_slice()) {
                return None;
            }
            name = Some(copy_text(fields[3].as_slice()));
        }
        let mut score: Option<u64> = None;
        if n > 4 {
            assert(f[4] == fields@[4]@);
            score = parse_u64(fields[4].as_slice());
            if score.is_none() {
                return None;
            }
        }
        let mut strand: Option<Strand> = None;
        if n > 5 {
            assert(f[5] == fields@[5]@);
            strand = parse_strand(fields[5].as_slice());
            if strand.is_none() {
                return None;
            }
        }
        let r = BedRecord { chrom: copy_text(fields[0].as_slice()), start, end, name, score, strand };
        assert(r@ == spec_bed_from_fields(f).unwrap());
        Some(r)
    }

    /// The fields of the record, in column order.
    pub fn to_fields(&self) -> (r: Vec<Vec<u8>>)
        ensures
            texts(r@) == spec_bed_to_fields(self@),
    {
        let mut r: Vec<Vec<u8>> = Vec::new();
        r.push(copy_text(self.chrom.as_slice()));
        let mut s: Vec<u8> = Vec::new();
        push_u64(&mut s, self.start);
        r.push(s);
        let mut e: Vec<u8> = Vec::new();
        push_u64(&mut e, self.end);
        r.push(e);
        let ghost base = texts(r@);
        assert(base =~= seq![self.chrom@, decimal_digits(self.start as nat), decimal_digits(self.end as nat)]);
        match &self.name {
            Some(nm) => {
                r.push(copy_text(nm.as_slice()));
            },
            None => {},
        }
        let ghost with_name = texts(r@);
        assert(with_name =~= match self@.name { Some(x) => base.push(x), None => base });
        match self.score {
            Some(sc) => {
                let mut t: Vec<u8> = Vec::new();
                push_u64(&mut t, sc);
                r.push(t);
            },
            None => {},
        }
        let ghost with_score = texts(r@);
        assert(with_score =~= match self@.score {
            Some(x) => with_name.push(decimal_digits(x as nat)),
            None => with_name,
        });
        match self.strand {
            Some(st) => {
                r.push(strand_bytes(st));
            },
            None => {},
        }
        assert(texts(r@) =~= spec_bed_to_fields(self@));
        r
    }
}

impl PeakRecord {
    /// Reads a narrow-peak record from its fields; `None` when there are
    /// fewer than ten, or one of them does not read.
    pub fn from_fields(fields: &Vec<Vec<u8>>) -> (r: Option<PeakRecord>)
        ensures
            spec_peak_from_fields(texts(fields@)) == match r {
                Some(p) => Some(p@),
                None => None,
            },
            r matches Some(p) ==> peak_wf(p@),
    {
        let ghost f = texts(fields@);
        if fields.len() < PEAK_FIELDS {
            return None;
        }
        assert(f[0] == fields@[0]@ && f[1] == fields@[1]@ && f[2] == fields@[2]@);
        assert(f[3] == fields@[3]@ && f[4] == fields@[4]@ && f[5] == fields@[5]@);
        assert(f[6] == fields@[6]@ && f[7] == fields@[7]@ && f[8] == fields@[8]@);
        assert(f[9] == fields@[9]@);
        if !field_text(fields[0].as_slice()) || !field_text(fields[3].as_slice()) {
            return None;
        }
        let start = parse_u64(fields[1].as_slice());
        let end = parse_u64(fields[2].as_slice());
        let score = parse_u64(fields[4].as_slice());
        if start.is_none() || end.is_none() || score.is_none() {
            return None;
        }
        let start = start.unwrap();
        let end = end.unwrap();
        let score = score.unwrap();
        if end <= start {
            return None;
        }
        let strand = parse_strand(fields[5].as_slice());
        let peak = parse_i64(fields[9].as_slice());
        if strand.is_none() || peak.is_none() {
            return None;
        }
        if !decimal_number(fields[6].as_slice()) || !decimal_number(fields[7].as_slice())
            || !decimal_number(fields[8].as_slice()) {
            return None;
        }
        let r = PeakRecord {
            chrom: copy_text(fields[0].as_slice()),
            start,
            end,
            name: copy_text(fields[3].as_slice()),
            score,
            strand: strand.unwrap(),
            signal_value: copy_text(fields[6].as_slice()),
            p_value: copy_text(fields[7].as_slice()),
            q_value: copy_text(fields[8].as_slice()),
            peak: peak.unwrap(),
        };
        Some(r)
    }

    /// The ten fields of the record, in column order.
    pub fn to_fields(&self) -> (r: Vec<Vec<u8>>)
        ensures
            texts(r@) == spec_peak_to_fields(self@),
    {
        let mut r: Vec<Vec<u8>> = Vec::new();
        r.push(copy_text(self.chrom.as_slice()));
        let mut s: Vec<u8> = Vec::new();
        push_u64(&mut s, self.start);
        r.push(s);
        let mut e: Vec<u8> = Vec::new();
        push_u64(&mut e, self.end);
        r.push(e);
        r.push(copy_text(self.name.as_slice()));
        let mut sc: Vec<u8> = Vec::new();
        push_u64(&mut sc, self.score);
        r.push(sc);
        r.push(strand_bytes(self.strand));
        r.push(copy_text(self.signal_value.as_slice()));
        r.push(copy_text(self.p_value.as_slice()));
        r.push(copy_text(self.q_value.as_slice()));
        let mut pk: Vec<u8> = Vec::new();
        push_i64(&mut pk, self.peak);
        r.push(pk);
        assert(texts(r@) =~= spec_peak_to_fields(self@));
        r
    }

    /// Narrows the record to a BED record over its leading columns.
    pub fn to_bed(&self) -> (r: Option<BedRecord>)
        ensures
            spec_narrow_fields(spec_peak_to_fields(self@)) == match r {
                Some(b) => Some(b@),
                None => None,
            },
    {
        let fields = self.to_fields();
        narrow_fields(&fields)
    }
}

/// Reads the leading fields that a BED record keeps; `None` when fewer than
/// three are there or they do not read as a BED record.
pub fn narrow_fields(fields: &Vec<Vec<u8>>) -> (r: Option<BedRecord>)
    ensures
        spec_narrow_fields(texts(fields@)) == match r {
            Some(b) => Some(b@),
            None => None,
        },
{
    let mut head: Vec<Vec<u8>> = Vec::new();
    let mut i: usize = 0;
    while i < fields.len() && i < BED_MAX_FIELDS
        invariant
            0 <= i <= fields.len(),
            i <= 6,
            texts(head@) == texts(fields@).take(i as int),
        decreases fields.len() - i,
    {
        let ghost old_head = texts(head@);
        let t = copy_text(fields[i].as_slice());
        head.push(t);
        assert(texts(head@) =~= old_head.push(fields@[i as int]@));
        i = i + 1;
        assert(texts(head@) =~= texts(fields@).take(i as int));
    }
    BedRecord::from_fields(&head)
}

proof fn lemma_strand_round_trip(s: Strand)
    ensures
        spec_parse_strand(strand_text(s)) == Some(s),
{
    let t = strand_text(s);
    assert(t[0] == 43u8 || seq![43u8][0] != t[0]);
    assert(t[0] == 45u8 || seq![45u8][0] != t[0]);
}

/// A BED record that is valid reads back from its own fields.
pub proof fn lemma_bed_round_trip(r: BedView)
    requires
        bed_wf(r),
    ensures
        spec_bed_from_fields(spec_bed_to_fields(r)) == Some(r),
{
    let f = spec_bed_to_fields(r);
    lemma_parse_u64_digits(r.start);
    lemma_parse_u64_digits(r.end);
    if let Some(s) = r.score {
        lemma_parse_u64_digits(s);
    }
    if let Some(s) = r.strand {
        lemma_strand_round_trip(s);
    }
    assert(f[0] == r.chrom);
    assert(f[1] == decimal_digits(r.start as nat));
    assert(f[2] == decimal_digits(r.end as nat));
    let g = spec_bed_from_fields(f).unwrap();
    assert(g == r);
}

/// A narrow-peak record that is valid reads back from its own fields.
pub proof fn lemma_peak_round_trip(r: PeakView)
    requires
        peak_wf(r),
    ensures
        spec_peak_from_fields(spec_peak_to_fields(r)) == Some(r),
{
    let f = spec_peak_to_fields(r);
    lemma_parse_u64_digits(r.start);
    lemma_parse_u64_digits(r.end);
    lemma_parse_u64_digits(r.score);
    lemma_parse_i64_digits(r.peak);
    lemma_strand_round_trip(r.strand);
    let g = spec_peak_from_fields(f).unwrap();
    assert(g == r);
}

/// Narrowing fails when fewer than three fields are there.
pub proof fn lemma_narrow_too_few(f: Seq<Seq<u8>>)
    requires
        f.len() < 3,
    ensures
        spec_narrow_fields(f) is None,
{
}

/// A valid narrow-peak record always narrows, and keeps its interval.
pub proof fn lemma_narrow_keeps_interval(r: PeakView)
    requires
        peak_wf(r),
    ensures
        spec_narrow_fields(spec_peak_to_fields(r)) matches Some(b) && b.chrom == r.chrom
            && b.start == r.start && b.end == r.end,
{
    let f = spec_peak_to_fields(r);
    let h = f.take(6);
    lemma_parse_u64_digits(r.start);
    lemma_parse_u64_digits(r.end);
    lemma_parse_u64_digits(r.score);
    lemma_strand_round_trip(r.strand);
    assert(h[0] == r.chrom && h[3] == r.name && h[5] == strand_text(r.strand));
    assert(h[1] == decimal_digits(r.start as nat) && h[2] == decimal_digits(r.end as nat));
    assert(h[4] == decimal_digits(r.score as nat));
}

/// Tells whether a chromosome name starts with `chr`.
pub open spec fn is_chr_named(c: Seq<u8>) -> bool {
    c.len() >= 3 && c[0] == 99u8 && c[1] == 104u8 && c[2] == 114u8
}

/// The region set of a peak list: each peak on a `chr`-named sequence,
/// narrowed to a BED record, in order.
pub open spec fn spec_region_set(peaks: Seq<PeakView>) -> Seq<BedView>
    decreases peaks.len(),
{
    if peaks.len() == 0 {
        Seq::empty()
    } else {
        let prev = spec_region_set(peaks.drop_last());
        let p = peaks.last();
        if is_chr_named(p.chrom) {
            match spec_narrow_fields(spec_peak_to_fields(p)) {
                Some(b) => prev.push(b),
                None => prev,
            }
        } else {
            prev
        }
    }
}

/// Builds the region set that every track is measured against.
pub fn region_set(peaks: &Vec<PeakRecord>) -> (r: Vec<BedRecord>)
    ensures
        r@.map_values(|b: BedRecord| b@) == spec_region_set(peaks@.map_values(|p: PeakRecord| p@)),
{
    let ghost pv = peaks@.map_values(|p: PeakRecord| p@);
    let mut out: Vec<BedRecord> = Vec::new();
    let mut i: usize = 0;
    while i < peaks.len()
        invariant
            0 <= i <= peaks.len(),
            pv == peaks@.map_values(|p: PeakRecord| p@),
            out@.map_values(|b: BedRecord| b@) == spec_region_set(pv.take(i as int)),
        decreases peaks.len() - i,
    {
        let p = &peaks[i];
        assert(pv.take(i + 1).drop_last() =~= pv.take(i as int));
        assert(pv.take(i + 1).last() == p@);
        let c = p.chrom.as_slice();
        if c.len() >= 3 && c[0] == 99u8 && c[1] == 104u8 && c[2] == 114u8 {
            match p.to_bed() {
                Some(b) => {
                    let ghost prev = out@.map_values(|x: BedRecord| x@);
                    out.push(b);
                    assert(out@.map_values(|x: BedRecord| x@) =~= prev.push(b@));
                },
                None => {},
            }
        }
        i = i + 1;
    }
    assert(pv.take(pv.len() as int) =~= pv);
    out
}

} // verus!
