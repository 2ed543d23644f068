//! The entry synthesizer: builds one annotation record per gap interval,
//! with deterministic identifiers.

use vstd::prelude::*;
use vstd::string::StringExecFns;
use crate::engine::{get_intergenic_regions, intergenic_gaps, lemma_intergenic_gaps_len, MAX_COORD};
use crate::model::{GffEntry, GffEntryV};
use crate::strutil::{dec_rep, u64_to_string};

verus! {

/// The attributes column of the `n`-th synthesized record on a strand:
/// deterministic ID, Name and locus_tag values embedding the counter and
/// the strand.
pub open spec fn igr_attributes(n: nat, strand: Seq<char>) -> Seq<char> {
    "ID=IGR_"@ + dec_rep(n) + "("@ + strand + ")"@ + ";Name=INTERGENIC_"@ + dec_rep(n) + "("@
        + strand + ")"@ + ";locus_tag=INTERGENIC_"@ + dec_rep(n) + "("@ + strand + ")"@
}

/// The synthesized record for one gap interval: type "intergenic", a fixed
/// tool identifier as source, '.' score and phase, the strand under which
/// the gap was produced, and no sequence yet.
pub open spec fn igr_entry(gap: (int, int), seqid: Seq<char>, strand: Seq<char>, n: nat) -> GffEntryV {
    GffEntryV {
        seqid,
        source: "intergene-finder"@,
        ftype: "intergenic"@,
        start: gap.0,
        end: gap.1,
        score: "."@,
        strand,
        phase: "."@,
        attributes: igr_attributes(n, strand),
        seq: Seq::empty(),
    }
}

fn igr_attr_string(n: u64, strand: &str) -> (r: String)
    ensures
        r@ == igr_attributes(n as nat, strand@),
{
    let num = u64_to_string(n);
    let mut s = String::new();
    s.append("ID=IGR_");
    s.append(num.as_str());
    s.append("(");
    s.append(strand);
    s.append(")");
    s.append(";Name=INTERGENIC_");
    s.append(num.as_str());
    s.append("(");
    s.append(strand);
    s.append(")");
    s.append(";locus_tag=INTERGENIC_");
    s.append(num.as_str());
    s.append("(");
    s.append(strand);
    s.append(")");
    proof {
        assert(s@ =~= igr_attributes(n as nat, strand@));
    }
    s
}

/// Build one synthetic record per gap interval, in emission order. The
/// `n`-th record (counting from zero) carries the counter value
/// `first_id + n`; callers start a fresh invocation at 1.
pub fn create_intergenic_entries(
    intergenic_regions: &Vec<(i64, i64)>,
    seqid: &str,
    strand: &str,
    first_id: u64,
) -> (r: Vec<GffEntry>)
    requires
        intergenic_regions@.len() + first_id <= u64::MAX,
    ensures
        r.deep_view().len() == intergenic_regions@.len(),
        forall|i: int|
            0 <= i < intergenic_regions@.len() ==> r.deep_view()[i] == igr_entry(
                (
                    #[trigger] intergenic_regions@[i].0 as int,
                    intergenic_regions@[i].1 as int,
                ),
                seqid@,
                strand@,
                (first_id + i) as nat,
            ),
{
    let n = intergenic_regions.len();
    let mut out: Vec<GffEntry> = Vec::new();
    let mut i: usize = 0;
    while i < n
        invariant
            0 <= i <= n,
            n == intergenic_regions@.len(),
            n + first_id <= u64::MAX,
            out.deep_view().len() == i,
            forall|j: int|
                0 <= j < i ==> out.deep_view()[j] == igr_entry(
                    (
                        #[trigger] intergenic_regions@[j].0 as int,
                        intergenic_regions@[j].1 as int,
                    ),
                    seqid@,
                    strand@,
                    (first_id + j) as nat,
                ),
        decreases n - i,
    {
        let gap = intergenic_regions[i];
        let attributes = igr_attr_string(first_id + (i as u64), strand);
        let entry = GffEntry {
            seqid: seqid.to_owned(),
            source: String::from_str("intergene-finder"),
            ftype: String::from_str("intergenic"),
            start: gap.0,
            end: gap.1,
            score: String::from_str("."),
            strand: strand.to_owned(),
            phase: String::from_str("."),
            attributes,
            seq: String::new(),
        };
        let ghost before = out.deep_view();
        out.push(entry);
        proof {
            assert(out.deep_view() =~= before.push(entry@));
        }
        i = i + 1;
    }
    out
}

/// The synthetic records for one run's gap intervals, counters starting at
/// 1.
pub open spec fn igr_entries_spec(gaps: Seq<(int, int)>, seqid: Seq<char>, strand: Seq<char>) -> Seq<
    GffEntryV,
> {
    Seq::new(gaps.len(), |i: int| igr_entry(gaps[i], seqid, strand, (i + 1) as nat))
}

/// The strand policy applied: stranded mode runs the sweep once per strand
/// over its own filtered feature subset and keeps both gap sets, without
/// deduplication; unstranded mode runs one sweep over every feature. Each
/// run's counter restarts at 1.
pub open spec fn synthesized_entries(
    entries: Seq<GffEntryV>,
    seqid: Seq<char>,
    reflen: int,
    buffer: int,
    stranded: bool,
) -> Seq<GffEntryV> {
    if stranded {
        igr_entries_spec(intergenic_gaps(entries, reflen, buffer, "+"@), seqid, "+"@)
            + igr_entries_spec(intergenic_gaps(entries, reflen, buffer, "-"@), seqid, "-"@)
    } else {
        igr_entries_spec(intergenic_gaps(entries, reflen, buffer, "."@), seqid, "."@)
    }
}

/// Run the inference engine under the strand policy and synthesize the
/// records for every gap found: once per strand ('+' then '-') in stranded
/// mode, once over all features otherwise.
pub fn intergenic_entries_for(
    gff_entries: &Vec<GffEntry>,
    seqid: &str,
    reflen: i64,
    buffer: i64,
    stranded: bool,
) -> (r: Vec<GffEntry>)
    requires
        0 <= buffer <= MAX_COORD,
        forall|i: int|
            0 <= i < gff_entries@.len() ==> (#[trigger] gff_entries@[i]@.start <= MAX_COORD
                && gff_entries@[i]@.end <= MAX_COORD),
        gff_entries@.len() + 2 <= u64::MAX,
    ensures
        r.deep_view() == synthesized_entries(
            gff_entries.deep_view(),
            seqid@,
            reflen as int,
            buffer as int,
            stranded,
        ),
{
    let ghost dv = gff_entries.deep_view();
    if stranded {
        let plus_gaps = get_intergenic_regions(gff_entries, reflen, buffer, "+");
        proof {
            lemma_intergenic_gaps_len(dv, reflen as int, buffer as int, "+"@);
        }
        let mut out = create_intergenic_entries(&plus_gaps, seqid, "+", 1);
        let ghost plus_dv = out.deep_view();
        proof {
            assert(plus_dv =~= igr_entries_spec(
                intergenic_gaps(dv, reflen as int, buffer as int, "+"@),
                seqid@,
                "+"@,
            ));
        }
        let minus_gaps = get_intergenic_regions(gff_entries, reflen, buffer, "-");
        proof {
            lemma_intergenic_gaps_len(dv, reflen as int, buffer as int, "-"@);
        }
        let mut minus_entries = create_intergenic_entries(&minus_gaps, seqid, "-", 1);
        proof {
            assert(minus_entries.deep_view() =~= igr_entries_spec(
                intergenic_gaps(dv, reflen as int, buffer as int, "-"@),
                seqid@,
                "-"@,
            ));
        }
        let ghost minus_dv = minus_entries.deep_view();
        out.append(&mut minus_entries);
        proof {
            assert(out.deep_view() =~= plus_dv + minus_dv);
        }
        out
    } else {
        let gaps = get_intergenic_regions(gff_entries, reflen, buffer, ".");
        proof {
            lemma_intergenic_gaps_len(dv, reflen as int, buffer as int, "."@);
        }
        let out = create_intergenic_entries(&gaps, seqid, ".", 1);
        proof {
            assert(out.deep_view() =~= igr_entries_spec(
                intergenic_gaps(dv, reflen as int, buffer as int, "."@),
                seqid@,
                "."@,
            ));
        }
        out
    }
}

} // verus!
