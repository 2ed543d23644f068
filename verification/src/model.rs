//! Feature records, reference sequences, and the library's error type.

use vstd::prelude::*;

verus! {

/// Errors produced by the library's own computations.
///
/// `ColumnMismatch`: an annotation line does not split into exactly nine
/// tab-separated columns. `NumericParseFailure`: a coordinate column is not
/// a valid integer. `OutOfRange(start, end)`: a record's span does not lie
/// within the reference sequence.
#[derive(Debug, Clone, Copy, PartialEq, Eq, Structural)]
pub enum GffError {
    ColumnMismatch,
    NumericParseFailure,
    OutOfRange(i64, i64),
}

/// One annotation record: nine tab-separated columns plus an optional
/// extracted subsequence (`seq`, empty until extraction).
#[derive(Debug, Clone)]
pub struct GffEntry {
    pub seqid: String,
    pub source: String,
    pub ftype: String,
    pub start: i64,
    pub end: i64,
    pub score: String,
    pub strand: String,
    pub phase: String,
    pub attributes: String,
    pub seq: String,
}

/// Mathematical view of a `GffEntry`: text columns as character sequences,
/// coordinates as unbounded integers.
pub ghost struct GffEntryV {
    pub seqid: Seq<char>,
    pub source: Seq<char>,
    pub ftype: Seq<char>,
    pub start: int,
    pub end: int,
    pub score: Seq<char>,
    pub strand: Seq<char>,
    pub phase: Seq<char>,
    pub attributes: Seq<char>,
    pub seq: Seq<char>,
}

impl View for GffEntry {
    type V = GffEntryV;

    open spec fn view(&self) -> GffEntryV {
        GffEntryV {
            seqid: self.seqid@,
            source: self.source@,
            ftype: self.ftype@,
            start: self.start as int,
            end: self.end as int,
            score: self.score@,
            strand: self.strand@,
            phase: self.phase@,
            attributes: self.attributes@,
            seq: self.seq@,
        }
    }
}

impl DeepView for GffEntry {
    type V = GffEntryV;

    open spec fn deep_view(&self) -> GffEntryV {
        self.view()
    }
}

impl GffEntry {
    /// Attach an extracted subsequence; every other column is unchanged.
    pub fn add_seq(&mut self, seq: String)
        ensures
            final(self)@ == (GffEntryV { seq: seq@, ..old(self)@ }),
    {
        self.seq = seq;
    }
}

/// A parsed annotation file: the leading comment block and the records in
/// file order.
#[derive(Debug, Clone)]
pub struct Gff {
    pub header: String,
    pub entries: Vec<GffEntry>,
}

/// Mathematical view of a parsed annotation file.
pub ghost struct GffV {
    pub header: Seq<char>,
    pub entries: Seq<GffEntryV>,
}

impl View for Gff {
    type V = GffV;

    open spec fn view(&self) -> GffV {
        GffV { header: self.header@, entries: self.entries.deep_view() }
    }
}

/// One reference sequence: its header line (marker included, verbatim) and
/// the concatenated sequence text.
#[derive(Debug, Clone)]
pub struct FastaRecord {
    pub header: String,
    pub seq: String,
}

/// Mathematical view of a `FastaRecord`.
pub ghost struct FastaRecordV {
    pub header: Seq<char>,
    pub seq: Seq<char>,
}

impl View for FastaRecord {
    type V = FastaRecordV;

    open spec fn view(&self) -> FastaRecordV {
        FastaRecordV { header: self.header@, seq: self.seq@ }
    }
}

impl DeepView for FastaRecord {
    type V = FastaRecordV;

    open spec fn deep_view(&self) -> FastaRecordV {
        self.view()
    }
}

} // verus!
