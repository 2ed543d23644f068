//! The intergenic inference engine: an ordered left-to-right sweep over
//! feature records that yields the coordinate spans not covered by any
//! qualifying feature.

use vstd::prelude::*;
use crate::model::{GffEntry, GffEntryV};
use crate::strutil::str_eq;

verus! {

/// Coordinates and buffers are kept below this bound so that the sweep's
/// arithmetic cannot overflow an `i64`.
pub const MAX_COORD: i64 = 0x2000_0000_0000_0000;

/// Structural feature types that never open or close a gap.
pub open spec fn is_skipped_type(t: Seq<char>) -> bool {
    t == "region"@ || t == "sequence_feature"@ || t == "start_codon"@ || t == "stop_codon"@
}

/// Strand filtering: a '+' or '-' filter keeps features on that strand or
/// with an unspecified ('.') strand; any other filter keeps every feature.
pub open spec fn strand_kept(entry_strand: Seq<char>, want: Seq<char>) -> bool {
    if want == "+"@ || want == "-"@ {
        entry_strand == want || entry_strand == "."@
    } else {
        true
    }
}

/// A feature takes part in the sweep when its strand is kept and its type
/// is not a structural marker.
pub open spec fn qualifies(e: GffEntryV, want: Seq<char>) -> bool {
    strand_kept(e.strand, want) && !is_skipped_type(e.ftype)
}

/// The subsequence of features that take part in the sweep, in input order.
pub open spec fn qualifying(entries: Seq<GffEntryV>, want: Seq<char>) -> Seq<GffEntryV> {
    entries.filter(|e: GffEntryV| qualifies(e, want))
}

/// The sweep's starting boundary: 1 when the first qualifying feature
/// starts at position 1, otherwise 0. This decides whether position 0
/// takes part in the very first gap.
pub open spec fn initial_boundary(q: Seq<GffEntryV>) -> int {
    if q.len() > 0 && q[0].start == 1 {
        1
    } else {
        0
    }
}

/// One-base adjacency absorption: a feature that begins immediately after
/// the boundary advances it by one before any gap test, so no zero-length
/// gap is emitted.
pub open spec fn bumped(last_end: int, start: int) -> int {
    if start == last_end + 1 {
        last_end + 1
    } else {
        last_end
    }
}

/// A feature whose start lies within `buffer` bases of the boundary
/// suppresses gap emission for this step.
pub open spec fn step_skips(last_end: int, start: int, buffer: int) -> bool {
    start < bumped(last_end, start) + buffer
}

/// The gap one sweep step emits between the boundary and the feature, if
/// any.
pub open spec fn step_gap(last_end: int, start: int, buffer: int) -> Option<(int, int)> {
    let b = bumped(last_end, start);
    if step_skips(last_end, start, buffer) {
        None
    } else if start > b {
        Some((b + 1, start - 1))
    } else {
        None
    }
}

/// The boundary after one sweep step: unchanged (beyond adjacency
/// absorption) when the step is suppressed, else pushed to the feature's
/// end if that lies further right.
pub open spec fn step_boundary(last_end: int, start: int, end: int, buffer: int) -> int {
    let b = bumped(last_end, start);
    if step_skips(last_end, start, buffer) {
        b
    } else if end > b {
        end
    } else {
        b
    }
}

pub open spec fn gap_seq(g: Option<(int, int)>) -> Seq<(int, int)> {
    match g {
        Some(p) => seq![p],
        None => Seq::empty(),
    }
}

/// The gaps the sweep emits between features, processing `q` in order from
/// boundary `last_end`.
pub open spec fn sweep_gaps(q: Seq<GffEntryV>, last_end: int, buffer: int) -> Seq<(int, int)>
    decreases q.len(),
{
    if q.len() == 0 {
        Seq::empty()
    } else {
        let e = q[0];
        gap_seq(step_gap(last_end, e.start, buffer)) + sweep_gaps(
            q.drop_first(),
            step_boundary(last_end, e.start, e.end, buffer),
            buffer,
        )
    }
}

/// The boundary after the sweep has processed all of `q`.
pub open spec fn sweep_end(q: Seq<GffEntryV>, last_end: int, buffer: int) -> int
    decreases q.len(),
{
    if q.len() == 0 {
        last_end
    } else {
        sweep_end(
            q.drop_first(),
            step_boundary(last_end, q[0].start, q[0].end, buffer),
            buffer,
        )
    }
}

/// All gap intervals for one run: the between-feature gaps of the sweep,
/// then — when the final boundary falls short of the reference length — a
/// trailing gap from that boundary (itself included) to the reference end.
pub open spec fn intergenic_gaps(
    entries: Seq<GffEntryV>,
    reflen: int,
    buffer: int,
    want: Seq<char>,
) -> Seq<(int, int)> {
    let q = qualifying(entries, want);
    let init = initial_boundary(q);
    let gaps = sweep_gaps(q, init, buffer);
    let fin = sweep_end(q, init, buffer);
    if fin < reflen {
        gaps.push((fin, reflen))
    } else {
        gaps
    }
}

/// The views of a vector of gap pairs, as unbounded integers.
pub open spec fn gaps_view(v: Seq<(i64, i64)>) -> Seq<(int, int)> {
    v.map_values(|p: (i64, i64)| (p.0 as int, p.1 as int))
}

/// Processing one more feature appends that feature's step to the sweep.
proof fn lemma_sweep_push(q: Seq<GffEntryV>, e: GffEntryV, last_end: int, buffer: int)
    ensures
        sweep_end(q.push(e), last_end, buffer) == step_boundary(
            sweep_end(q, last_end, buffer),
            e.start,
            e.end,
            buffer,
        ),
        sweep_gaps(q.push(e), last_end, buffer) =~= sweep_gaps(q, last_end, buffer) + gap_seq(
            step_gap(sweep_end(q, last_end, buffer), e.start, buffer),
        ),
    decreases q.len(),
{
    let sb = step_boundary(last_end, e.start, e.end, buffer);
    if q.len() == 0 {
        assert(q.push(e)[0] == e);
        assert(q.push(e).drop_first() =~= q);
        assert(sweep_end(q.push(e), last_end, buffer) == sweep_end(q, sb, buffer));
        assert(sweep_end(q, sb, buffer) == sb);
        assert(sweep_end(q, last_end, buffer) == last_end);
        assert(sweep_gaps(q.push(e), last_end, buffer) == gap_seq(
            step_gap(last_end, e.start, buffer),
        ) + sweep_gaps(q, sb, buffer));
        assert(sweep_gaps(q, sb, buffer) == Seq::<(int, int)>::empty());
        assert(sweep_gaps(q, last_end, buffer) == Seq::<(int, int)>::empty());
    } else {
        let sb0 = step_boundary(last_end, q[0].start, q[0].end, buffer);
        assert(q.push(e)[0] == q[0]);
        assert(q.push(e).drop_first() =~= q.drop_first().push(e));
        lemma_sweep_push(q.drop_first(), e, sb0, buffer);
        assert(sweep_end(q.push(e), last_end, buffer) == sweep_end(
            q.drop_first().push(e),
            sb0,
            buffer,
        ));
        assert(sweep_end(q, last_end, buffer) == sweep_end(q.drop_first(), sb0, buffer));
        assert(sweep_gaps(q.push(e), last_end, buffer) == gap_seq(
            step_gap(last_end, q[0].start, buffer),
        ) + sweep_gaps(q.drop_first().push(e), sb0, buffer));
        assert(sweep_gaps(q, last_end, buffer) == gap_seq(step_gap(last_end, q[0].start, buffer))
            + sweep_gaps(q.drop_first(), sb0, buffer));
    }
}

/// The sweep emits at most one gap per qualifying feature.
pub proof fn lemma_sweep_gaps_len(q: Seq<GffEntryV>, last_end: int, buffer: int)
    ensures
        sweep_gaps(q, last_end, buffer).len() <= q.len(),
    decreases q.len(),
{
    if q.len() > 0 {
        lemma_sweep_gaps_len(
            q.drop_first(),
            step_boundary(last_end, q[0].start, q[0].end, buffer),
            buffer,
        );
    }
}

/// One run emits at most one gap per feature, plus the trailing gap.
pub proof fn lemma_intergenic_gaps_len(
    entries: Seq<GffEntryV>,
    reflen: int,
    buffer: int,
    want: Seq<char>,
)
    ensures
        intergenic_gaps(entries, reflen, buffer, want).len() <= entries.len() + 1,
{
    let q = qualifying(entries, want);
    Seq::lemma_filter_len(entries, |e: GffEntryV| qualifies(e, want));
    lemma_sweep_gaps_len(q, initial_boundary(q), buffer);
}

/// Law: with an empty annotation set, the engine emits exactly one gap
/// interval covering the whole reference. No feature starts at position 1,
/// so the sweep's boundary starts (and ends) at 0, and the trailing rule
/// yields the single gap `(0, reflen)`. A reference of length 0 produces no
/// gap at all, so it is excluded here.
pub proof fn lemma_no_features_whole_gap(reflen: int, buffer: int, want: Seq<char>)
    requires
        reflen >= 1,
    ensures
        intergenic_gaps(Seq::<GffEntryV>::empty(), reflen, buffer, want) =~= seq![(0int, reflen)],
{
    reveal(Seq::filter);
    assert(qualifying(Seq::<GffEntryV>::empty(), want) =~= Seq::<GffEntryV>::empty());
}

/// From a boundary standing at (or one before) the first feature's start,
/// a chain of features each beginning immediately after the previous one's
/// end sweeps through without emitting any gap.
proof fn lemma_sweep_chain_no_gaps(q: Seq<GffEntryV>, last_end: int)
    requires
        q.len() > 0,
        last_end == q[0].start - 1 || last_end == q[0].start,
        last_end >= 0,
        forall|i: int| 0 <= i < q.len() ==> #[trigger] q[i].start <= q[i].end,
        forall|i: int| 0 <= i < q.len() - 1 ==> #[trigger] q[i + 1].start == q[i].end + 1,
    ensures
        sweep_gaps(q, last_end, 0) =~= Seq::<(int, int)>::empty(),
        sweep_end(q, last_end, 0) == q[q.len() - 1].end,
    decreases q.len(),
{
    let e = q[0];
    let b = bumped(last_end, e.start);
    assert(b == e.start || b == last_end);
    assert(!step_skips(last_end, e.start, 0));
    assert(step_gap(last_end, e.start, 0) is None);
    assert(step_boundary(last_end, e.start, e.end, 0) == e.end);
    let t = q.drop_first();
    assert(sweep_gaps(q, last_end, 0) == gap_seq(step_gap(last_end, e.start, 0)) + sweep_gaps(
        t,
        e.end,
        0,
    ));
    assert(sweep_end(q, last_end, 0) == sweep_end(t, e.end, 0));
    if q.len() == 1 {
        assert(t.len() == 0);
        assert(sweep_gaps(t, e.end, 0) == Seq::<(int, int)>::empty());
        assert(sweep_end(t, e.end, 0) == e.end);
    } else {
        assert(forall|i: int| 0 <= i < t.len() ==> t[i] == q[i + 1]);
        assert(forall|i: int| 0 <= i < t.len() - 1 ==> #[trigger] t[i + 1].start == t[i].end + 1);
        assert(t[0].start == e.end + 1);
        lemma_sweep_chain_no_gaps(t, e.end);
        assert(t[t.len() - 1] == q[q.len() - 1]);
        assert(sweep_gaps(q, last_end, 0) =~= Seq::<(int, int)>::empty());
    }
}

/// Law: when the qualifying features cover the whole reference without a
/// hole — the first starts at position 1, each next starts immediately
/// after the previous one's end, and the last ends at the reference length
/// — a run with buffer 0 emits no gap at all. Together with the extraction
/// round-trip law this grounds the premise that such a feature set
/// reconstructs the reference exactly.
pub proof fn lemma_covering_features_no_gaps(entries: Seq<GffEntryV>, reflen: int, want: Seq<char>)
    requires
        ({
            let q = qualifying(entries, want);
            &&& q.len() > 0
            &&& q[0].start == 1
            &&& forall|i: int| 0 <= i < q.len() ==> #[trigger] q[i].start <= q[i].end
            &&& forall|i: int| 0 <= i < q.len() - 1 ==> #[trigger] q[i + 1].start == q[i].end + 1
            &&& q[q.len() - 1].end == reflen
        }),
    ensures
        intergenic_gaps(entries, reflen, 0, want) =~= Seq::<(int, int)>::empty(),
{
    let q = qualifying(entries, want);
    assert(initial_boundary(q) == 1);
    lemma_sweep_chain_no_gaps(q, 1);
}

/// After a feature taken normally (not suppressed) whose end lies at or
/// beyond the absorbed boundary, the sweep's boundary stands exactly at
/// that feature's end — the premise under which the law below speaks of
/// "a feature ending at `e_a`".
pub proof fn lemma_boundary_after_feature(a: GffEntryV, last_end: int, buffer: int)
    requires
        !step_skips(last_end, a.start, buffer),
        a.end >= bumped(last_end, a.start),
    ensures
        step_boundary(last_end, a.start, a.end, buffer) == a.end,
{
}

/// Law: let A and B be adjacent qualifying features, A ending at `e_a`, B
/// starting at `b_rec.start > e_a`, with the sweep's boundary standing at
/// `e_a` when B is processed (as it does right after a feature ending at
/// `e_a` is taken normally, per `lemma_boundary_after_feature`). Then,
/// whatever qualifying features follow, the sweep emits the gap
/// `(e_a + 1, b_rec.start - 1)` between the two features precisely when
/// their distance `b_rec.start - e_a` exceeds the buffer; otherwise it
/// emits nothing between them and goes on with the rest.
///
/// Two borderline inputs are excluded, where the sweep deviates from this
/// reading: a feature immediately adjacent to the boundary under a zero
/// buffer (absorbed, no gap, though the distance 1 exceeds 0), and a
/// distance exactly equal to the buffer with a real span between (the
/// sweep's strict `<` comparison still emits the gap there).
pub proof fn lemma_gap_between_adjacent(
    b_rec: GffEntryV,
    rest: Seq<GffEntryV>,
    e_a: int,
    buffer: int,
)
    requires
        buffer >= 0,
        e_a >= 0,
        b_rec.start > e_a,
        !(b_rec.start == e_a + 1 && buffer == 0),
        !(b_rec.start - e_a == buffer && b_rec.start >= e_a + 2),
    ensures
        b_rec.start - e_a > buffer ==> sweep_gaps(seq![b_rec] + rest, e_a, buffer) =~= seq![
            (e_a + 1, b_rec.start - 1),
        ] + sweep_gaps(rest, step_boundary(e_a, b_rec.start, b_rec.end, buffer), buffer),
        b_rec.start - e_a <= buffer ==> sweep_gaps(seq![b_rec] + rest, e_a, buffer) =~= sweep_gaps(
            rest,
            step_boundary(e_a, b_rec.start, b_rec.end, buffer),
            buffer,
        ),
{
    let q = seq![b_rec] + rest;
    assert(q[0] == b_rec);
    assert(q.drop_first() =~= rest);
    assert(sweep_gaps(q, e_a, buffer) == gap_seq(step_gap(e_a, b_rec.start, buffer)) + sweep_gaps(
        rest,
        step_boundary(e_a, b_rec.start, b_rec.end, buffer),
        buffer,
    ));
}

fn entry_qualifies(e: &GffEntry, strand: &str) -> (b: bool)
    ensures
        b == qualifies(e@, strand@),
{
    let kept: bool = if str_eq(strand, "+") || str_eq(strand, "-") {
        str_eq(e.strand.as_str(), strand) || str_eq(e.strand.as_str(), ".")
    } else {
        true
    };
    let skipped: bool = str_eq(e.ftype.as_str(), "region") || str_eq(
        e.ftype.as_str(),
        "sequence_feature",
    ) || str_eq(e.ftype.as_str(), "start_codon") || str_eq(e.ftype.as_str(), "stop_codon");
    kept && !skipped
}

/// The ordered gap intervals not covered by any qualifying feature, for
/// one strand filter, per the sweep policy: adjacency absorption, the
/// minimum-distance buffer, the first-feature boundary rule, and the
/// trailing gap that starts at the final boundary itself.
#[verifier::loop_isolation(false)]
pub fn get_intergenic_regions(gff: &Vec<GffEntry>, end: i64, buffer: i64, strand: &str) -> (r: Vec<
    (i64, i64),
>)
    requires
        0 <= buffer <= MAX_COORD,
        forall|i: int|
            0 <= i < gff@.len() ==> (#[trigger] gff@[i]@.start <= MAX_COORD && gff@[i]@.end
                <= MAX_COORD),
    ensures
        gaps_view(r@) == intergenic_gaps(gff.deep_view(), end as int, buffer as int, strand@),
{
    let ghost dv = gff.deep_view();
    let mut regions: Vec<(i64, i64)> = Vec::new();
    let mut last_end: i64 = 0;
    let mut started: bool = false;
    let ghost mut init_val: int = 0;
    let mut j: usize = 0;
    proof {
        assert(dv.subrange(0, 0) =~= Seq::<GffEntryV>::empty());
        reveal(Seq::filter);
    }
    while j < gff.len()
        invariant
            0 <= j <= gff.len(),
            dv == gff.deep_view(),
            started == (qualifying(dv.subrange(0, j as int), strand@).len() > 0),
            started ==> init_val == initial_boundary(qualifying(dv.subrange(0, j as int), strand@)),
            !started ==> init_val == 0,
            last_end == sweep_end(qualifying(dv.subrange(0, j as int), strand@), init_val, buffer as int),
            gaps_view(regions@) == sweep_gaps(
                qualifying(dv.subrange(0, j as int), strand@),
                init_val,
                buffer as int,
            ),
            0 <= last_end <= MAX_COORD,
        decreases gff.len() - j,
    {
        let ghost prefix = dv.subrange(0, j as int);
        let ghost prefix1 = dv.subrange(0, j as int + 1);
        let ghost q = qualifying(prefix, strand@);
        proof {
            assert(prefix1 =~= prefix.push(dv[j as int]));
            reveal(Seq::filter);
            assert(prefix1.drop_last() =~= prefix);
            assert(prefix1.last() == dv[j as int]);
        }
        let e = &gff[j];
        proof {
            assert(dv[j as int] == e@);
        }
        if entry_qualifies(e, strand) {
            let ghost q1 = qualifying(prefix1, strand@);
            proof {
                assert(q1 == q.push(e@));
            }
            if !started {
                started = true;
                last_end = if e.start == 1 {
                    1
                } else {
                    0
                };
                proof {
                    init_val = last_end as int;
                    assert(q1[0] == e@);
                    assert(initial_boundary(q1) == init_val);
                    assert(q =~= Seq::<GffEntryV>::empty());
                }
            }
            let ghost pre_end = last_end as int;
            proof {
                if q.len() == 0 {
                    assert(sweep_end(q, init_val, buffer as int) == init_val);
                } else {
                    assert(initial_boundary(q1) == initial_boundary(q)) by {
                        assert(q1[0] == q[0]);
                    }
                }
                lemma_sweep_push(q, e@, init_val, buffer as int);
            }
            let mut b: i64 = last_end;
            if e.start == last_end + 1 {
                b = last_end + 1;
            }
            proof {
                assert(b as int == bumped(pre_end, e@.start));
            }
            if e.start < b + buffer {
                last_end = b;
                proof {
                    assert(step_skips(pre_end, e@.start, buffer as int));
                    assert(step_gap(pre_end, e@.start, buffer as int) is None);
                    assert(gaps_view(regions@) + gap_seq(
                        step_gap(pre_end, e@.start, buffer as int),
                    ) =~= gaps_view(regions@));
                }
            } else {
                proof {
                    assert(!step_skips(pre_end, e@.start, buffer as int));
                }
                if e.start > b {
                    let gap: (i64, i64) = (b + 1, e.start - 1);
                    let ghost before = regions@;
                    regions.push(gap);
                    proof {
                        assert(regions@ =~= before.push(gap));
                        assert(gaps_view(regions@) =~= gaps_view(before).push(
                            (gap.0 as int, gap.1 as int),
                        ));
                        assert(gaps_view(regions@) =~= gaps_view(before) + gap_seq(
                            step_gap(pre_end, e@.start, buffer as int),
                        ));
                    }
                }
                last_end = if e.end > b {
                    e.end
                } else {
                    b
                };
            }
            proof {
                assert(last_end as int == step_boundary(pre_end, e@.start, e@.end, buffer as int));
                assert(gaps_view(regions@) =~= sweep_gaps(q1, init_val, buffer as int));
            }
        } else {
            proof {
                assert(qualifying(prefix1, strand@) == q);
            }
        }
        j = j + 1;
    }
    proof {
        assert(dv.subrange(0, gff@.len() as int) =~= dv);
    }
    if last_end < end {
        let ghost before = regions@;
        regions.push((last_end, end));
        proof {
            assert(regions@ =~= before.push((last_end, end)));
            assert(gaps_view(regions@) =~= gaps_view(before).push((last_end as int, end as int)));
        }
    }
    proof {
        assert(gaps_view(regions@) =~= intergenic_gaps(dv, end as int, buffer as int, strand@));
    }
    regions
}

} // verus!
