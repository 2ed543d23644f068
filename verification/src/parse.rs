//! Parsers: annotation text into a header block plus feature records, and
//! reference sequence text into header/sequence records.

use vstd::prelude::*;
use vstd::string::StrSliceExecFns;
use vstd::string::StringExecFns;
use crate::model::{FastaRecord, FastaRecordV, Gff, GffEntry, GffEntryV, GffError, GffV};
use crate::strutil::{lines_spec, parse_i64, parse_i64_spec, push_char, split_lines, split_on, split_seq};

verus! {

/// A comment line: its first character is '#'.
pub open spec fn is_comment(line: Seq<char>) -> bool {
    line.len() > 0 && line[0] == '#'
}

/// The header block: every leading comment line, verbatim, each followed by
/// a line break.
pub open spec fn header_spec(ls: Seq<Seq<char>>) -> Seq<char>
    decreases ls.len(),
{
    if ls.len() > 0 && is_comment(ls[0]) {
        ls[0] + seq!['\n'] + header_spec(ls.drop_first())
    } else {
        Seq::empty()
    }
}

/// What one annotation line must parse to: nine tab-separated columns with
/// integer coordinates, or the error that rejects it.
pub open spec fn line_record(line: Seq<char>) -> Result<GffEntryV, GffError> {
    let f = split_seq(line, '\t');
    if f.len() != 9 {
        Err(GffError::ColumnMismatch)
    } else {
        match (parse_i64_spec(f[3]), parse_i64_spec(f[4])) {
            (Some(s), Some(e)) => Ok(
                GffEntryV {
                    seqid: f[0],
                    source: f[1],
                    ftype: f[2],
                    start: s as int,
                    end: e as int,
                    score: f[5],
                    strand: f[6],
                    phase: f[7],
                    attributes: f[8],
                    seq: Seq::empty(),
                },
            ),
            _ => Err(GffError::NumericParseFailure),
        }
    }
}

/// The records of the given lines, in order, comment lines skipped; the
/// first ill-formed line's error aborts the whole parse.
pub open spec fn records_spec(ls: Seq<Seq<char>>) -> Result<Seq<GffEntryV>, GffError>
    decreases ls.len(),
{
    if ls.len() == 0 {
        Ok(Seq::empty())
    } else if is_comment(ls[0]) {
        records_spec(ls.drop_first())
    } else {
        match line_record(ls[0]) {
            Ok(r) => match records_spec(ls.drop_first()) {
                Ok(rest) => Ok(seq![r] + rest),
                Err(e) => Err(e),
            },
            Err(e) => Err(e),
        }
    }
}

/// What annotation text parses to: the leading comment block and the
/// records of all non-comment lines, or the first line error.
pub open spec fn parse_gff_spec(text: Seq<char>) -> Result<GffV, GffError> {
    let ls = lines_spec(text);
    match records_spec(ls) {
        Ok(es) => Ok(GffV { header: header_spec(ls), entries: es }),
        Err(e) => Err(e),
    }
}

fn line_is_comment(line: &str) -> (r: bool)
    ensures
        r == is_comment(line@),
{
    line.unicode_len() > 0 && line.get_char(0) == '#'
}

fn parse_record_line(line: &str) -> (r: Result<GffEntry, GffError>)
    ensures
        match r {
            Ok(e) => line_record(line@) == Ok::<GffEntryV, GffError>(e@),
            Err(er) => line_record(line@) == Err::<GffEntryV, GffError>(er),
        },
{
    let fields = split_on(line, '\t');
    proof {
        assert(fields.deep_view().len() == fields@.len());
    }
    if fields.len() != 9 {
        return Err(GffError::ColumnMismatch);
    }
    proof {
        assert(forall|k: int| 0 <= k < 9 ==> fields.deep_view()[k] == #[trigger] fields@[k]@);
    }
    let start = match parse_i64(fields[3].as_str()) {
        Some(v) => v,
        None => {
            return Err(GffError::NumericParseFailure);
        },
    };
    let end = match parse_i64(fields[4].as_str()) {
        Some(v) => v,
        None => {
            return Err(GffError::NumericParseFailure);
        },
    };
    let entry = GffEntry {
        seqid: fields[0].clone(),
        source: fields[1].clone(),
        ftype: fields[2].clone(),
        start,
        end,
        score: fields[5].clone(),
        strand: fields[6].clone(),
        phase: fields[7].clone(),
        attributes: fields[8].clone(),
        seq: String::new(),
    };
    Ok(entry)
}

/// Parse annotation text: leading comment lines form the header block;
/// every further non-comment line must hold exactly nine tab-separated
/// columns with integer coordinates. The first ill-formed line aborts the
/// parse with its error; no partial record set is returned.
pub fn parse_gff(text: &str) -> (r: Result<Gff, GffError>)
    ensures
        match r {
            Ok(g) => parse_gff_spec(text@) == Ok::<GffV, GffError>(g@),
            Err(e) => parse_gff_spec(text@) == Err::<GffV, GffError>(e),
        },
{
    let lines = split_lines(text);
    let ghost ls = lines_spec(text@);
    proof {
        assert(lines.deep_view() == ls);
        assert(forall|k: int| 0 <= k < ls.len() ==> ls[k] == #[trigger] lines@[k]@);
    }
    let n = lines.len();

    let mut header = String::new();
    proof {
        assert(ls.subrange(0, n as int) =~= ls);
        assert(header@ + header_spec(ls) =~= header_spec(ls));
    }
    let mut i: usize = 0;
    while i < n && line_is_comment(lines[i].as_str())
        invariant
            0 <= i <= n,
            n == ls.len(),
            ls == lines.deep_view(),
            forall|k: int| 0 <= k < ls.len() ==> ls[k] == #[trigger] lines@[k]@,
            forall|k: int| 0 <= k < i ==> is_comment(#[trigger] ls[k]),
            header_spec(ls) == header@ + header_spec(ls.subrange(i as int, n as int)),
        decreases n - i,
    {
        let ghost suffix = ls.subrange(i as int, n as int);
        proof {
            assert(suffix[0] == ls[i as int]);
            assert(suffix.drop_first() =~= ls.subrange(i as int + 1, n as int));
        }
        header.append(lines[i].as_str());
        push_char(&mut header, '\n');
        proof {
            assert(header@ + header_spec(ls.subrange(i as int + 1, n as int)) =~= header_spec(ls));
        }
        i = i + 1;
    }
    proof {
        let suffix = ls.subrange(i as int, n as int);
        if i < n {
            assert(suffix[0] == ls[i as int]);
            assert(!is_comment(suffix[0]));
        }
        assert(header_spec(suffix) == Seq::<char>::empty());
        assert(header@ + header_spec(suffix) =~= header@);
        assert(header@ == header_spec(ls));
    }

    let mut entries: Vec<GffEntry> = Vec::new();
    let mut k: usize = 0;
    proof {
        assert(ls.subrange(0, n as int) =~= ls);
        match records_spec(ls) {
            Ok(rest) => {
                assert(entries.deep_view() =~= Seq::<GffEntryV>::empty());
                assert(entries.deep_view() + rest =~= rest);
            },
            Err(_) => {},
        }
    }
    while k < n
        invariant
            0 <= k <= n,
            n == ls.len(),
            ls == lines.deep_view(),
            ls == lines_spec(text@),
            forall|j: int| 0 <= j < ls.len() ==> ls[j] == #[trigger] lines@[j]@,
            ({
                let suffix = records_spec(ls.subrange(k as int, n as int));
                match suffix {
                    Ok(rest) => records_spec(ls) == Ok::<Seq<GffEntryV>, GffError>(
                        entries.deep_view() + rest,
                    ),
                    Err(e) => records_spec(ls) == Err::<Seq<GffEntryV>, GffError>(e),
                }
            }),
        decreases n - k,
    {
        let ghost suffix = ls.subrange(k as int, n as int);
        proof {
            assert(suffix[0] == ls[k as int]);
            assert(suffix.drop_first() =~= ls.subrange(k as int + 1, n as int));
        }
        let line = &lines[k];
        if line_is_comment(line.as_str()) {
            proof {
                assert(records_spec(suffix) == records_spec(ls.subrange(k as int + 1, n as int)));
            }
        } else {
            match parse_record_line(line.as_str()) {
                Ok(e) => {
                    let ghost before = entries.deep_view();
                    entries.push(e);
                    proof {
                        assert(entries.deep_view() =~= before.push(e@));
                        match records_spec(ls.subrange(k as int + 1, n as int)) {
                            Ok(rest) => {
                                assert(records_spec(suffix) == Ok::<Seq<GffEntryV>, GffError>(
                                    seq![e@] + rest,
                                ));
                                assert(before + (seq![e@] + rest) =~= entries.deep_view() + rest);
                            },
                            Err(_) => {},
                        }
                    }
                },
                Err(er) => {
                    proof {
                        assert(records_spec(suffix) == Err::<Seq<GffEntryV>, GffError>(er));
                    }
                    return Err(er);
                },
            }
        }
        k = k + 1;
    }
    proof {
        let suffix = ls.subrange(n as int, n as int);
        assert(suffix =~= Seq::<Seq<char>>::empty());
        assert(records_spec(suffix) == Ok::<Seq<GffEntryV>, GffError>(Seq::empty()));
        assert(entries.deep_view() + Seq::<GffEntryV>::empty() =~= entries.deep_view());
    }
    Ok(Gff { header, entries })
}

/// A sequence-record marker line: its first character is '>'.
pub open spec fn is_marker(line: Seq<char>) -> bool {
    line.len() > 0 && line[0] == '>'
}

/// The records formed from the remaining lines, with a record under
/// construction: `header` and `acc` carry the marker line last seen and the
/// sequence text gathered since. A new marker closes the open record
/// (discarding it when no marker has been seen yet), and the end of input
/// closes it unconditionally.
pub open spec fn fasta_accum(ls: Seq<Seq<char>>, header: Seq<char>, acc: Seq<char>) -> Seq<
    FastaRecordV,
>
    decreases ls.len(),
{
    if ls.len() == 0 {
        seq![FastaRecordV { header, seq: acc }]
    } else if is_marker(ls[0]) {
        if header.len() > 0 {
            seq![FastaRecordV { header, seq: acc }] + fasta_accum(
                ls.drop_first(),
                ls[0],
                Seq::empty(),
            )
        } else {
            fasta_accum(ls.drop_first(), ls[0], Seq::empty())
        }
    } else {
        fasta_accum(ls.drop_first(), header, acc + ls[0])
    }
}

/// What reference sequence text parses to: one record per marker line,
/// holding the marker line verbatim and the concatenation of the sequence
/// lines beneath it. Text with no marker at all yields one record with an
/// empty header.
pub open spec fn parse_fasta_spec(text: Seq<char>) -> Seq<FastaRecordV> {
    fasta_accum(lines_spec(text), Seq::empty(), Seq::empty())
}

fn line_is_marker(line: &str) -> (r: bool)
    ensures
        r == is_marker(line@),
{
    line.unicode_len() > 0 && line.get_char(0) == '>'
}

/// Parse reference sequence text into header/sequence records.
pub fn parse_fasta(text: &str) -> (r: Vec<FastaRecord>)
    ensures
        r.deep_view() == parse_fasta_spec(text@),
{
    let lines = split_lines(text);
    let ghost ls = lines_spec(text@);
    proof {
        assert(lines.deep_view() == ls);
        assert(forall|j: int| 0 <= j < ls.len() ==> ls[j] == #[trigger] lines@[j]@);
    }
    let n = lines.len();
    let mut records: Vec<FastaRecord> = Vec::new();
    let mut header = String::new();
    let mut acc = String::new();
    let mut i: usize = 0;
    proof {
        assert(ls.subrange(0, n as int) =~= ls);
        assert(records.deep_view() + fasta_accum(ls, Seq::empty(), Seq::empty()) =~= fasta_accum(
            ls,
            Seq::empty(),
            Seq::empty(),
        ));
    }
    while i < n
        invariant
            0 <= i <= n,
            n == ls.len(),
            ls == lines.deep_view(),
            forall|j: int| 0 <= j < ls.len() ==> ls[j] == #[trigger] lines@[j]@,
            parse_fasta_spec(text@) == records.deep_view() + fasta_accum(
                ls.subrange(i as int, n as int),
                header@,
                acc@,
            ),
        decreases n - i,
    {
        let ghost suffix = ls.subrange(i as int, n as int);
        proof {
            assert(suffix[0] == ls[i as int]);
            assert(suffix.drop_first() =~= ls.subrange(i as int + 1, n as int));
        }
        let line = &lines[i];
        if line_is_marker(line.as_str()) {
            if header.as_str().unicode_len() > 0 {
                let ghost before = records.deep_view();
                let closed = FastaRecord { header, seq: acc };
                records.push(closed);
                proof {
                    assert(records.deep_view() =~= before.push(closed@));
                    assert(before + (seq![closed@] + fasta_accum(
                        suffix.drop_first(),
                        suffix[0],
                        Seq::empty(),
                    )) =~= records.deep_view() + fasta_accum(
                        suffix.drop_first(),
                        suffix[0],
                        Seq::empty(),
                    ));
                }
            }
            header = line.clone();
            acc = String::new();
        } else {
            acc.append(line.as_str());
        }
        i = i + 1;
    }
    proof {
        assert(ls.subrange(n as int, n as int) =~= Seq::<Seq<char>>::empty());
    }
    let ghost before = records.deep_view();
    let closed = FastaRecord { header, seq: acc };
    records.push(closed);
    proof {
        assert(records.deep_view() =~= before.push(closed@));
        assert(records.deep_view() =~= parse_fasta_spec(text@));
    }
    records
}

} // verus!
