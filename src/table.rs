//! Tab-separated files of records: reading text (plain or gzip-compressed)
//! into records in file order, and writing records back as lines.
use vstd::prelude::*;
use crate::decimal::{
    all_digits, decimal_digits, is_decimal_number, is_unsigned_decimal, lemma_decimal_digits,
    signed_digits,
};
use crate::record::{
    bed_wf, lemma_bed_round_trip, lemma_peak_round_trip, peak_wf, spec_bed_from_fields,
    spec_bed_to_fields, spec_peak_from_fields, spec_peak_to_fields, strand_text, BedRecord,
    BedView, PeakRecord, PeakView,
};
use crate::text::{
    join_with, lacks, lemma_split_append, lemma_split_join, push_joined, split_bytes, split_on, texts,
};

verus! {

/// A record variant that reads from and writes to an ordered field sequence.
pub trait TsvRecord: Sized + View {
    spec fn spec_from_fields(f: Seq<Seq<u8>>) -> Option<Self::V>;

    spec fn spec_to_fields(r: Self::V) -> Seq<Seq<u8>>;

    fn read_fields(fields: &Vec<Vec<u8>>) -> (r: Option<Self>)
        ensures
            Self::spec_from_fields(texts(fields@)) == match r {
                Some(x) => Some(x@),
                None => None,
            },
    ;

    fn write_fields(&self) -> (r: Vec<Vec<u8>>)
        ensures
            texts(r@) == Self::spec_to_fields(self@),
    ;
}

impl TsvRecord for BedRecord {
    open spec fn spec_from_fields(f: Seq<Seq<u8>>) -> Option<BedView> {
        spec_bed_from_fields(f)
    }

    open spec fn spec_to_fields(r: BedView) -> Seq<Seq<u8>> {
        spec_bed_to_fields(r)
    }

    fn read_fields(fields: &Vec<Vec<u8>>) -> (r: Option<BedRecord>) {
        BedRecord::from_fields(fields)
    }

    fn write_fields(&self) -> (r: Vec<Vec<u8>>) {
        self.to_fields()
    }
}

impl TsvRecord for PeakRecord {
    open spec fn spec_from_fields(f: Seq<Seq<u8>>) -> Option<PeakView> {
        spec_peak_from_fields(f)
    }

    open spec fn spec_to_fields(r: PeakView) -> Seq<Seq<u8>> {
        spec_peak_to_fields(r)
    }

    fn read_fields(fields: &Vec<Vec<u8>>) -> (r: Option<PeakRecord>) {
        PeakRecord::from_fields(fields)
    }

    fn write_fields(&self) -> (r: Vec<Vec<u8>>) {
        self.to_fields()
    }
}

pub open spec fn views<R: View>(v: Seq<R>) -> Seq<R::V> {
    v.map_values(|x: R| x@)
}

/// The records that the lines give, in order: empty lines are skipped, and
/// so is a line whose fields do not read as a record.
pub open spec fn spec_read_lines<R: TsvRecord>(lines: Seq<Seq<u8>>) -> Seq<R::V>
    decreases lines.len(),
{
    if lines.len() == 0 {
        Seq::empty()
    } else {
        let prev = spec_read_lines::<R>(lines.drop_last());
        let line = lines.last();
        if line.len() == 0 {
            prev
        } else {
            match R::spec_from_fields(split_on(line, 9u8)) {
                Some(r) => prev.push(r),
                None => prev,
            }
        }
    }
}

/// The records of a tab-separated text.
pub open spec fn spec_read_text<R: TsvRecord>(text: Seq<u8>) -> Seq<R::V> {
    spec_read_lines::<R>(split_on(text, 10u8))
}

/// The text of records: each one's fields joined by tabs, with a line feed
/// after each line.
pub open spec fn spec_render<R: TsvRecord>(rs: Seq<R::V>) -> Seq<u8>
    decreases rs.len(),
{
    if rs.len() == 0 {
        Seq::empty()
    } else {
        spec_render::<R>(rs.drop_last()) + join_with(R::spec_to_fields(rs.last()), 9u8).push(
            10u8,
        )
    }
}

/// Reads every record of a tab-separated text, in order.
pub fn read_tsv<R: TsvRecord>(text: &[u8]) -> (r: Vec<R>)
    ensures
        views(r@) == spec_read_text::<R>(text@),
{
    let lines = split_bytes(text, 10u8);
    let ghost ls = texts(lines@);
    let mut out: Vec<R> = Vec::new();
    let mut i: usize = 0;
    while i < lines.len()
        invariant
            0 <= i <= lines.len(),
            ls == texts(lines@),
            views(out@) == spec_read_lines::<R>(ls.take(i as int)),
        decreases lines.len() - i,
    {
        let line = &lines[i];
        assert(ls.take(i + 1).drop_last() =~= ls.take(i as int));
        assert(ls.take(i + 1).last() == line@);
        if line.len() > 0 {
            let fields = split_bytes(line.as_slice(), 9u8);
            match R::read_fields(&fields) {
                Some(rec) => {
                    let ghost prev = views(out@);
                    out.push(rec);
                    assert(views(out@) =~= prev.push(rec@));
                },
                None => {},
            }
        }
        i = i + 1;
    }
    assert(ls.take(ls.len() as int) =~= ls);
    out
}

/// Writes records as tab-separated lines, in the order given.
pub fn write_tsv<R: TsvRecord>(records: &Vec<R>) -> (r: Vec<u8>)
    ensures
        r@ == spec_render::<R>(views(records@)),
{
    let mut out: Vec<u8> = Vec::new();
    let mut i: usize = 0;
    while i < records.len()
        invariant
            0 <= i <= records.len(),
            out@ == spec_render::<R>(views(records@.take(i as int))),
        decreases records.len() - i,
    {
        let fields = records[i].write_fields();
        push_joined(&mut out, &fields, 9u8);
        out.push(10u8);
        i = i + 1;
        proof {
            let vs = views(records@.take(i as int));
            assert(vs.drop_last() =~= views(records@.take(i - 1)));
            assert(vs.last() == records@[i - 1]@);
        }
        assert(out@ =~= spec_render::<R>(views(records@.take(i as int))));
    }
    assert(records@.take(records@.len() as int) =~= records@);
    out
}

/// What the gzip decoder gives for a compressed byte stream, or `None`
/// where the stream does not decode.
pub uninterp spec fn gunzip_of(data: Seq<u8>) -> Option<Seq<u8>>;

/// Relies on flate2::read::MultiGzDecoder with `read_to_end`: it decodes every
/// gzip member of `data` in turn, or fails on a stream that does not decode.
#[verifier::external_body]
fn gunzip(data: &[u8]) -> (r: Option<Vec<u8>>)
    ensures
        match r {
            Some(v) => gunzip_of(data@) == Some(v@),
            None => gunzip_of(data@) is None,
        },
{
    let mut decoder = flate2::read::MultiGzDecoder::new(data);
    let mut out: Vec<u8> = Vec::new();
    match std::io::Read::read_to_end(&mut decoder, &mut out) {
        Ok(_) => Some(out),
        Err(_) => None,
    }
}

/// Why a compressed file could not be read.
#[derive(Clone, Copy, Debug, PartialEq, Eq, Structural)]
pub enum ReadError {
    /// The bytes are not a gzip stream that decodes.
    Decompress,
}

/// What reading a gzip-compressed text gives.
pub open spec fn spec_read_gz<R: TsvRecord>(data: Seq<u8>) -> Result<Seq<R::V>, ReadError> {
    match gunzip_of(data) {
        Some(text) => Ok(spec_read_text::<R>(text)),
        None => Err(ReadError::Decompress),
    }
}

/// Reads every record of a gzip-compressed tab-separated text, in order.
pub fn read_tsv_gz<R: TsvRecord>(data: &[u8]) -> (r: Result<Vec<R>, ReadError>)
    ensures
        spec_read_gz::<R>(data@) == match r {
            Ok(v) => Ok(views(v@)),
            Err(e) => Err(e),
        },
{
    match gunzip(data) {
        Some(text) => Ok(read_tsv::<R>(text.as_slice())),
        None => Err(ReadError::Decompress),
    }
}

/// A compressed text reads as the same records as the text it decodes to.
pub proof fn lemma_gz_transparent<R: TsvRecord>(data: Seq<u8>, text: Seq<u8>)
    requires
        gunzip_of(data) == Some(text),
    ensures
        spec_read_gz::<R>(data) == Ok::<Seq<R::V>, ReadError>(spec_read_text::<R>(text)),
{
}

/// The lines of the records' text, without their line feeds.
pub open spec fn record_lines<R: TsvRecord>(rs: Seq<R::V>) -> Seq<Seq<u8>> {
    rs.map_values(|r: R::V| join_with(R::spec_to_fields(r), 9u8))
}

/// What a record variant needs of a record for its line to read back as
/// it: fields free of tab and line feed, a first field that is not empty,
/// and fields that read back as the record.
pub open spec fn writes_back<R: TsvRecord>(r: R::V) -> bool {
    let f = R::spec_to_fields(r);
    &&& f.len() > 0
    &&& f[0].len() > 0
    &&& forall|j: int| 0 <= j < f.len() ==> lacks(#[trigger] f[j], 9u8) && lacks(f[j], 10u8)
    &&& R::spec_from_fields(f) == Some(r)
}

proof fn lemma_join_len(parts: Seq<Seq<u8>>, sep: u8)
    requires
        parts.len() > 0,
    ensures
        join_with(parts, sep).len() >= parts[0].len(),
    decreases parts.len(),
{
    if parts.len() > 1 {
        lemma_join_len(parts.drop_last(), sep);
    }
}

proof fn lemma_render_lines<R: TsvRecord>(rs: Seq<R::V>)
    requires
        forall|i: int| 0 <= i < rs.len() ==> writes_back::<R>(#[trigger] rs[i]),
    ensures
        split_on(spec_render::<R>(rs), 10u8) == record_lines::<R>(rs).push(Seq::<u8>::empty()),
    decreases rs.len(),
{
    if rs.len() == 0 {
        assert(record_lines::<R>(rs).push(Seq::<u8>::empty()) =~= seq![Seq::<u8>::empty()]);
    } else {
        let init = rs.drop_last();
        assert forall|i: int| 0 <= i < init.len() implies writes_back::<R>(#[trigger] init[i]) by {
            assert(init[i] == rs[i]);
        }
        lemma_render_lines::<R>(init);
        let f = R::spec_to_fields(rs.last());
        assert(writes_back::<R>(rs[rs.len() - 1]));
        crate::text::lemma_join_lacks(f, 9u8, 10u8);
        let line = join_with(f, 9u8);
        let a = spec_render::<R>(init);
        lemma_split_append(a, line, 10u8);
        let full = spec_render::<R>(rs);
        assert(full =~= (a + line).push(10u8));
        assert(full.drop_last() =~= a + line);
        let li = record_lines::<R>(init);
        assert(li.push(Seq::<u8>::empty()).last() + line =~= line);
        assert(li.push(Seq::<u8>::empty()).update(li.len() as int, line) =~= record_lines::<R>(rs));
        assert(split_on(full, 10u8) =~= record_lines::<R>(rs).push(Seq::<u8>::empty()));
    }
}

proof fn lemma_read_record_lines<R: TsvRecord>(rs: Seq<R::V>)
    requires
        forall|i: int| 0 <= i < rs.len() ==> writes_back::<R>(#[trigger] rs[i]),
    ensures
        spec_read_lines::<R>(record_lines::<R>(rs)) == rs,
    decreases rs.len(),
{
    if rs.len() > 0 {
        let init = rs.drop_last();
        assert forall|i: int| 0 <= i < init.len() implies writes_back::<R>(#[trigger] init[i]) by {
            assert(init[i] == rs[i]);
        }
        lemma_read_record_lines::<R>(init);
        assert(record_lines::<R>(rs).drop_last() =~= record_lines::<R>(init));
        let f = R::spec_to_fields(rs.last());
        assert(writes_back::<R>(rs[rs.len() - 1]));
        lemma_split_join(f, 9u8);
        lemma_join_len(f, 9u8);
        assert(init.push(rs.last()) =~= rs);
    }
}

/// Writing records that read back from their fields, then reading the text,
/// gives the same records in the same order.
pub proof fn lemma_read_render<R: TsvRecord>(rs: Seq<R::V>)
    requires
        forall|i: int| 0 <= i < rs.len() ==> writes_back::<R>(#[trigger] rs[i]),
    ensures
        spec_read_text::<R>(spec_render::<R>(rs)) == rs,
{
    lemma_render_lines::<R>(rs);
    lemma_read_record_lines::<R>(rs);
    let ls = record_lines::<R>(rs);
    assert(ls.push(Seq::<u8>::empty()).drop_last() =~= ls);
}

proof fn lemma_digits_lack(n: nat)
    ensures
        decimal_digits(n).len() > 0,
        lacks(decimal_digits(n), 9u8),
        lacks(decimal_digits(n), 10u8),
{
    lemma_decimal_digits(n);
    assert(all_digits(decimal_digits(n)));
}

proof fn lemma_signed_lack(v: int)
    ensures
        lacks(signed_digits(v), 9u8),
        lacks(signed_digits(v), 10u8),
{
    if v < 0 {
        lemma_digits_lack((-v) as nat);
        let s = signed_digits(v);
        assert forall|i: int| 0 <= i < s.len() implies #[trigger] s[i] != 9u8 && s[i] != 10u8 by {
            if i > 0 {
                assert(s[i] == decimal_digits((-v) as nat)[i - 1]);
            }
        }
    } else {
        lemma_digits_lack(v as nat);
    }
}

proof fn lemma_unsigned_decimal_lacks(s: Seq<u8>)
    requires
        is_unsigned_decimal(s),
    ensures
        lacks(s, 9u8),
        lacks(s, 10u8),
{
    let k = choose|k: int|
        0 <= k <= s.len() && all_digits(#[trigger] s.take(k)) && if k == s.len() {
            k > 0
        } else {
            s[k] == 46u8 && all_digits(s.skip(k + 1)) && (k > 0 || k + 1 < s.len())
        };
    assert forall|i: int| 0 <= i < s.len() implies #[trigger] s[i] != 9u8 && s[i] != 10u8 by {
        if i < k {
            assert(s.take(k)[i] == s[i]);
        } else if i > k {
            assert(s.skip(k + 1)[i - k - 1] == s[i]);
        }
    }
}

proof fn lemma_decimal_number_lacks(s: Seq<u8>)
    requires
        is_decimal_number(s),
    ensures
        lacks(s, 9u8),
        lacks(s, 10u8),
{
    if s.len() > 0 && (s[0] == 45u8 || s[0] == 43u8) {
        lemma_unsigned_decimal_lacks(s.skip(1));
        assert forall|i: int| 0 <= i < s.len() implies #[trigger] s[i] != 9u8 && s[i] != 10u8 by {
            if i > 0 {
                assert(s.skip(1)[i - 1] == s[i]);
            }
        }
    } else {
        lemma_unsigned_decimal_lacks(s);
    }
}

/// Valid BED records written as text read back as the same records.
pub proof fn lemma_bed_text_round_trip(rs: Seq<BedView>)
    requires
        forall|i: int| 0 <= i < rs.len() ==> bed_wf(#[trigger] rs[i]),
    ensures
        spec_read_text::<BedRecord>(spec_render::<BedRecord>(rs)) == rs,
{
    assert forall|i: int| 0 <= i < rs.len() implies writes_back::<BedRecord>(#[trigger] rs[i]) by {
        let r = rs[i];
        assert(bed_wf(r));
        lemma_bed_round_trip(r);
        lemma_digits_lack(r.start as nat);
        lemma_digits_lack(r.end as nat);
        if let Some(sc) = r.score {
            lemma_digits_lack(sc as nat);
        }
        let f = spec_bed_to_fields(r);
        assert forall|j: int| 0 <= j < f.len() implies lacks(#[trigger] f[j], 9u8) && lacks(
            f[j],
            10u8,
        ) by {
            if j == 5 {
                assert(f[j] == strand_text(r.strand.unwrap()));
            }
        }
    }
    lemma_read_render::<BedRecord>(rs);
}

/// Valid narrow-peak records written as text read back as the same records.
pub proof fn lemma_peak_text_round_trip(rs: Seq<PeakView>)
    requires
        forall|i: int| 0 <= i < rs.len() ==> peak_wf(#[trigger] rs[i]),
    ensures
        spec_read_text::<PeakRecord>(spec_render::<PeakRecord>(rs)) == rs,
{
    assert forall|i: int| 0 <= i < rs.len() implies writes_back::<PeakRecord>(#[trigger] rs[i]) by {
        let r = rs[i];
        assert(peak_wf(r));
        lemma_peak_round_trip(r);
        lemma_digits_lack(r.start as nat);
        lemma_digits_lack(r.end as nat);
        lemma_digits_lack(r.score as nat);
        lemma_signed_lack(r.peak as int);
        lemma_decimal_number_lacks(r.signal_value);
        lemma_decimal_number_lacks(r.p_value);
        lemma_decimal_number_lacks(r.q_value);
        let f = spec_peak_to_fields(r);
        assert(f[5] == strand_text(r.strand));
        assert forall|j: int| 0 <= j < f.len() implies lacks(#[trigger] f[j], 9u8) && lacks(
            f[j],
            10u8,
        ) by {}
    }
    lemma_read_render::<PeakRecord>(rs);
}

} // verus!
