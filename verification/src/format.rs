//! Output formatters: re-serialize records as annotation text and emit
//! per-type sequence blocks with 80-column wrapping.

use vstd::prelude::*;
use vstd::string::StrSliceExecFns;
use vstd::string::StringExecFns;
use crate::model::{GffEntry, GffEntryV, GffError};
use crate::strutil::{
    dec_rep, int_rep, i64_to_string, lemma_dec_rep_digits, lemma_int_rep_parses,
    lemma_split_prepend, lemma_split_single, parse_i64_spec, push_char, split_seq, str_eq,
    u64_to_string,
};

verus! {

/// One record as a nine-column tab-separated line (the attached sequence is
/// not part of the line).
pub open spec fn entry_line(e: GffEntryV) -> Seq<char> {
    e.seqid + seq!['\t'] + e.source + seq!['\t'] + e.ftype + seq!['\t'] + int_rep(e.start)
        + seq!['\t'] + int_rep(e.end) + seq!['\t'] + e.score + seq!['\t'] + e.strand + seq!['\t']
        + e.phase + seq!['\t'] + e.attributes
}

/// The record lines in order, each ended by a line break.
pub open spec fn entry_lines(s: Seq<GffEntryV>) -> Seq<char>
    decreases s.len(),
{
    if s.len() == 0 {
        Seq::empty()
    } else {
        entry_lines(s.drop_last()) + entry_line(s.last()) + seq!['\n']
    }
}

/// A whole annotation file: the header block, a line break, then one line
/// per record.
pub open spec fn gff_text_spec(header: Seq<char>, s: Seq<GffEntryV>) -> Seq<char> {
    header + seq!['\n'] + entry_lines(s)
}

fn entry_line_string(e: &GffEntry) -> (r: String)
    ensures
        r@ == entry_line(e@),
{
    let mut s = String::new();
    s.append(e.seqid.as_str());
    push_char(&mut s, '\t');
    s.append(e.source.as_str());
    push_char(&mut s, '\t');
    s.append(e.ftype.as_str());
    push_char(&mut s, '\t');
    let start = i64_to_string(e.start);
    s.append(start.as_str());
    push_char(&mut s, '\t');
    let end = i64_to_string(e.end);
    s.append(end.as_str());
    push_char(&mut s, '\t');
    s.append(e.score.as_str());
    push_char(&mut s, '\t');
    s.append(e.strand.as_str());
    push_char(&mut s, '\t');
    s.append(e.phase.as_str());
    push_char(&mut s, '\t');
    s.append(e.attributes.as_str());
    proof {
        assert(s@ =~= entry_line(e@));
    }
    s
}

/// Serialize the header block and the records back to annotation text: the
/// round trip is lossless for records whose columns were not altered.
pub fn format_gff(header: &str, entries: &Vec<GffEntry>) -> (r: String)
    ensures
        r@ == gff_text_spec(header@, entries.deep_view()),
{
    let ghost dv = entries.deep_view();
    let mut out = String::new();
    out.append(header);
    push_char(&mut out, '\n');
    proof {
        assert(dv.subrange(0, 0) =~= Seq::<GffEntryV>::empty());
        assert(out@ =~= gff_text_spec(header@, dv.subrange(0, 0)));
    }
    let n = entries.len();
    let mut i: usize = 0;
    while i < n
        invariant
            0 <= i <= n,
            n == dv.len(),
            dv == entries.deep_view(),
            out@ == gff_text_spec(header@, dv.subrange(0, i as int)),
        decreases n - i,
    {
        let line = entry_line_string(&entries[i]);
        out.append(line.as_str());
        push_char(&mut out, '\n');
        proof {
            let prefix = dv.subrange(0, i as int);
            let prefix1 = dv.subrange(0, i as int + 1);
            assert(prefix1.drop_last() =~= prefix);
            assert(prefix1.last() == dv[i as int]);
            assert(out@ =~= gff_text_spec(header@, prefix1));
        }
        i = i + 1;
    }
    proof {
        assert(dv.subrange(0, n as int) =~= dv);
    }
    out
}

/// A sequence wrapped to 80-character lines, each line ended by a line
/// break; a sequence of at most 80 characters is one line.
pub open spec fn wrap80(s: Seq<char>) -> Seq<char>
    decreases s.len(),
{
    if s.len() > 80 {
        s.subrange(0, 80) + seq!['\n'] + wrap80(s.subrange(80, s.len() as int))
    } else {
        s + seq!['\n']
    }
}

/// One sequence-output block: a header line holding the record's attributes
/// and sequence length, then the wrapped sequence.
pub open spec fn fasta_block(e: GffEntryV) -> Seq<char> {
    seq!['>'] + e.attributes + " length: "@ + dec_rep(e.seq.len()) + seq!['\n'] + wrap80(e.seq)
}

/// The sequence output for one requested type: the blocks of the records of
/// that type, in collection order; records of other types contribute
/// nothing.
pub open spec fn fasta_text_spec(s: Seq<GffEntryV>, want: Seq<char>) -> Seq<char>
    decreases s.len(),
{
    if s.len() == 0 {
        Seq::empty()
    } else {
        fasta_text_spec(s.drop_last(), want) + if s.last().ftype == want {
            fasta_block(s.last())
        } else {
            Seq::empty()
        }
    }
}

/// Some record in the collection has the given type.
pub open spec fn has_type(s: Seq<GffEntryV>, want: Seq<char>) -> bool {
    exists|i: int| 0 <= i < s.len() && (#[trigger] s[i]).ftype == want
}

/// Whether any record carries the given type; callers warn (rather than
/// fail) on a requested type for which this is false.
pub fn type_present(entries: &Vec<GffEntry>, want: &str) -> (r: bool)
    ensures
        r == has_type(entries.deep_view(), want@),
{
    let ghost dv = entries.deep_view();
    let n = entries.len();
    let mut i: usize = 0;
    while i < n
        invariant
            0 <= i <= n,
            n == dv.len(),
            dv == entries.deep_view(),
            forall|j: int| 0 <= j < i ==> (#[trigger] dv[j]).ftype != want@,
        decreases n - i,
    {
        if str_eq(entries[i].ftype.as_str(), want) {
            proof {
                assert(dv[i as int].ftype == want@);
            }
            return true;
        }
        i = i + 1;
    }
    false
}

fn wrap_sequence(s: &str) -> (r: String)
    ensures
        r@ == wrap80(s@),
{
    let len = s.unicode_len();
    let mut out = String::new();
    let mut pos: usize = 0;
    proof {
        assert(s@.subrange(0, len as int) =~= s@);
        assert(out@ + wrap80(s@) =~= wrap80(s@));
    }
    while len - pos > 80
        invariant
            0 <= pos <= len,
            len == s@.len(),
            wrap80(s@) == out@ + wrap80(s@.subrange(pos as int, len as int)),
        decreases len - pos,
    {
        let ghost rest = s@.subrange(pos as int, len as int);
        let chunk = s.substring_char(pos, pos + 80);
        out.append(chunk);
        push_char(&mut out, '\n');
        proof {
            assert(rest.subrange(0, 80) =~= s@.subrange(pos as int, pos as int + 80));
            assert(rest.subrange(80, rest.len() as int) =~= s@.subrange(
                pos as int + 80,
                len as int,
            ));
            assert(wrap80(s@) =~= out@ + wrap80(s@.subrange(pos as int + 80, len as int)));
        }
        pos = pos + 80;
    }
    let tail = s.substring_char(pos, len);
    out.append(tail);
    push_char(&mut out, '\n');
    proof {
        assert(out@ =~= wrap80(s@));
    }
    out
}

fn fasta_block_string(e: &GffEntry) -> (r: String)
    ensures
        r@ == fasta_block(e@),
{
    let mut s = String::new();
    push_char(&mut s, '>');
    s.append(e.attributes.as_str());
    s.append(" length: ");
    let len_str = u64_to_string(e.seq.as_str().unicode_len() as u64);
    s.append(len_str.as_str());
    push_char(&mut s, '\n');
    let wrapped = wrap_sequence(e.seq.as_str());
    s.append(wrapped.as_str());
    proof {
        assert(s@ =~= fasta_block(e@));
    }
    s
}

/// Serialize the sequence blocks of every record of the requested type, in
/// collection order. A type no record carries yields the empty text.
pub fn format_fasta(entries: &Vec<GffEntry>, want: &str) -> (r: String)
    ensures
        r@ == fasta_text_spec(entries.deep_view(), want@),
        !has_type(entries.deep_view(), want@) ==> r@.len() == 0,
{
    let ghost dv = entries.deep_view();
    let mut out = String::new();
    proof {
        assert(dv.subrange(0, 0) =~= Seq::<GffEntryV>::empty());
    }
    let n = entries.len();
    let mut i: usize = 0;
    while i < n
        invariant
            0 <= i <= n,
            n == dv.len(),
            dv == entries.deep_view(),
            out@ == fasta_text_spec(dv.subrange(0, i as int), want@),
        decreases n - i,
    {
        let ghost prefix = dv.subrange(0, i as int);
        let ghost prefix1 = dv.subrange(0, i as int + 1);
        proof {
            assert(prefix1.drop_last() =~= prefix);
            assert(prefix1.last() == dv[i as int]);
        }
        if str_eq(entries[i].ftype.as_str(), want) {
            let block = fasta_block_string(&entries[i]);
            out.append(block.as_str());
            proof {
                assert(out@ =~= fasta_text_spec(prefix1, want@));
            }
        } else {
            proof {
                assert(out@ + Seq::<char>::empty() =~= out@);
                assert(out@ =~= fasta_text_spec(prefix1, want@));
            }
        }
        i = i + 1;
    }
    proof {
        assert(dv.subrange(0, n as int) =~= dv);
        if !has_type(dv, want@) {
            lemma_absent_type_empty_output(dv, want@);
        }
    }
    out
}

/// A text column that cannot disturb the tab-separated layout.
pub open spec fn tab_free(s: Seq<char>) -> bool {
    forall|i: int| 0 <= i < s.len() ==> s[i] != '\t'
}

/// Law: per-record serialization is lossless. A record whose text columns
/// hold no tab re-parses from its serialized line to the same record, with
/// the attached sequence cleared (the sequence is never part of the line).
#[verifier::rlimit(50)]
pub proof fn lemma_entry_line_round_trip(e: GffEntryV)
    requires
        tab_free(e.seqid),
        tab_free(e.source),
        tab_free(e.ftype),
        tab_free(e.score),
        tab_free(e.strand),
        tab_free(e.phase),
        tab_free(e.attributes),
        i64::MIN <= e.start <= i64::MAX,
        i64::MIN <= e.end <= i64::MAX,
    ensures
        crate::parse::line_record(entry_line(e)) == Ok::<GffEntryV, GffError>(
            (GffEntryV { seq: Seq::empty(), ..e }),
        ),
{
    let t: Seq<char> = seq!['\t'];
    let f3 = int_rep(e.start);
    let f4 = int_rep(e.end);
    lemma_int_rep_parses(e.start);
    lemma_int_rep_parses(e.end);
    assert(tab_free(f3) && tab_free(f4)) by {
        lemma_dec_rep_digits(if e.start < 0 {
            (0 - e.start) as nat
        } else {
            e.start as nat
        });
        lemma_dec_rep_digits(if e.end < 0 {
            (0 - e.end) as nat
        } else {
            e.end as nat
        });
        assert(forall|i: int| 0 <= i < f3.len() ==> f3[i] != '\t');
        assert(forall|i: int| 0 <= i < f4.len() ==> f4[i] != '\t');
    }
    let r8 = e.attributes;
    let r7 = e.phase + t + r8;
    let r6 = e.strand + t + r7;
    let r5 = e.score + t + r6;
    let r4 = f4 + t + r5;
    let r3 = f3 + t + r4;
    let r2 = e.ftype + t + r3;
    let r1 = e.source + t + r2;
    let r0 = e.seqid + t + r1;
    assert(entry_line(e) =~= r0);
    lemma_split_prepend(e.seqid, r1, '\t');
    lemma_split_prepend(e.source, r2, '\t');
    lemma_split_prepend(e.ftype, r3, '\t');
    lemma_split_prepend(f3, r4, '\t');
    lemma_split_prepend(f4, r5, '\t');
    lemma_split_prepend(e.score, r6, '\t');
    lemma_split_prepend(e.strand, r7, '\t');
    lemma_split_prepend(e.phase, r8, '\t');
    lemma_split_single(e.attributes, '\t');
    let fields = split_seq(entry_line(e), '\t');
    assert(fields =~= seq![e.seqid, e.source, e.ftype, f3, f4, e.score, e.strand, e.phase, r8]);
    assert(fields.len() == 9);
    assert(parse_i64_spec(fields[3]) == Some(e.start as i64));
    assert(parse_i64_spec(fields[4]) == Some(e.end as i64));
}

/// Law: a requested type that no record carries produces empty sequence
/// output — a warning-level condition, never a failure.
pub proof fn lemma_absent_type_empty_output(s: Seq<GffEntryV>, want: Seq<char>)
    requires
        !has_type(s, want),
    ensures
        fasta_text_spec(s, want) =~= Seq::<char>::empty(),
    decreases s.len(),
{
    if s.len() > 0 {
        assert(forall|i: int|
            0 <= i < s.drop_last().len() ==> (#[trigger] s.drop_last()[i]).ftype != want);
        lemma_absent_type_empty_output(s.drop_last(), want);
        assert(s.last().ftype != want);
    }
}

} // verus!
