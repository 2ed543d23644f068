//! Sequence extraction: slice the reference sequence for every record in a
//! collection, 1-based and end-inclusive.

use vstd::prelude::*;
use vstd::string::StrSliceExecFns;
use crate::merge::clone_entry;
use crate::model::{GffEntry, GffEntryV, GffError};
use crate::strutil::substr_string;

verus! {

/// A record's span can be sliced from a reference of length `reflen`:
/// 1-based start, end within the reference, and a span that is at worst
/// empty (`start == end + 1`).
pub open spec fn in_range(e: GffEntryV, reflen: int) -> bool {
    1 <= e.start && e.start <= e.end + 1 && e.end <= reflen
}

/// The record with its subsequence attached: characters `start-1 .. end` of
/// the reference (the half-open image of the 1-based inclusive span).
pub open spec fn extracted(e: GffEntryV, refseq: Seq<char>) -> GffEntryV {
    GffEntryV { seq: refseq.subrange(e.start - 1, e.end), ..e }
}

/// The position of the first record whose span cannot be sliced, or the
/// collection's length when every record is in range.
pub open spec fn first_out_of_range(s: Seq<GffEntryV>, reflen: int) -> int
    decreases s.len(),
{
    if s.len() == 0 {
        0
    } else if !in_range(s[0], reflen) {
        0
    } else {
        1 + first_out_of_range(s.drop_first(), reflen)
    }
}

proof fn lemma_first_out_of_range_at(s: Seq<GffEntryV>, reflen: int, i: int)
    requires
        0 <= i <= s.len(),
        forall|j: int| 0 <= j < i ==> in_range(#[trigger] s[j], reflen),
        i < s.len() ==> !in_range(s[i], reflen),
    ensures
        first_out_of_range(s, reflen) == i,
    decreases i,
{
    if i == 0 {
    } else {
        let t = s.drop_first();
        assert(forall|j: int| 0 <= j < i - 1 ==> t[j] == s[j + 1]);
        lemma_first_out_of_range_at(t, reflen, i - 1);
    }
}

/// Attach to every record the slice of the reference its coordinates name,
/// mutating the collection in place and returning the updated records. When
/// any record's span falls outside the reference the first such record's
/// coordinates come back as an `OutOfRange` error and the collection is
/// left unchanged.
pub fn add_seq_to_entries(entries: &mut Vec<GffEntry>, refseq: &str) -> (r: Result<
    Vec<GffEntry>,
    GffError,
>)
    ensures
        match r {
            Ok(out) => {
                &&& forall|i: int|
                    0 <= i < old(entries).deep_view().len() ==> in_range(
                        #[trigger] old(entries).deep_view()[i],
                        refseq@.len() as int,
                    )
                &&& final(entries).deep_view() == Seq::new(
                    old(entries).deep_view().len(),
                    |i: int| extracted(old(entries).deep_view()[i], refseq@),
                )
                &&& out.deep_view() == final(entries).deep_view()
            },
            Err(e) => {
                let bad = first_out_of_range(old(entries).deep_view(), refseq@.len() as int);
                &&& *final(entries) == *old(entries)
                &&& 0 <= bad < old(entries).deep_view().len()
                &&& !in_range(old(entries).deep_view()[bad], refseq@.len() as int)
                &&& e == GffError::OutOfRange(old(entries)@[bad].start, old(entries)@[bad].end)
            },
        },
{
    let reflen = refseq.unicode_len();
    let n = entries.len();
    let ghost dv = entries.deep_view();

    let mut i: usize = 0;
    while i < n
        invariant
            0 <= i <= n,
            entries == old(entries),
            n == dv.len(),
            dv == entries.deep_view(),
            reflen == refseq@.len(),
            forall|j: int| 0 <= j < i ==> in_range(#[trigger] dv[j], reflen as int),
        decreases n - i,
    {
        let e = &entries[i];
        proof {
            assert(dv[i as int] == e@);
        }
        let ok: bool = 1 <= e.start && e.start - 1 <= e.end && (e.end as u64) <= (reflen as u64);
        if !ok {
            proof {
                assert(!in_range(dv[i as int], reflen as int));
                lemma_first_out_of_range_at(dv, reflen as int, i as int);
            }
            return Err(GffError::OutOfRange(e.start, e.end));
        }
        proof {
            assert(in_range(dv[i as int], reflen as int));
        }
        i = i + 1;
    }
    proof {
        lemma_first_out_of_range_at(dv, reflen as int, n as int);
    }

    let mut updated: Vec<GffEntry> = Vec::new();
    let mut returned: Vec<GffEntry> = Vec::new();
    let mut k: usize = 0;
    while k < n
        invariant
            0 <= k <= n,
            entries == old(entries),
            n == dv.len(),
            dv == entries.deep_view(),
            reflen == refseq@.len(),
            forall|j: int| 0 <= j < n ==> in_range(#[trigger] dv[j], reflen as int),
            updated.deep_view().len() == k,
            returned.deep_view().len() == k,
            forall|j: int|
                0 <= j < k ==> #[trigger] updated.deep_view()[j] == extracted(dv[j], refseq@),
            forall|j: int|
                0 <= j < k ==> #[trigger] returned.deep_view()[j] == extracted(dv[j], refseq@),
        decreases n - k,
    {
        let e = &entries[k];
        proof {
            assert(dv[k as int] == e@);
            assert(in_range(dv[k as int], reflen as int));
        }
        let from = (e.start - 1) as usize;
        let to = e.end as usize;
        let seq_text = substr_string(refseq, from, to);
        let mut with_seq = clone_entry(e);
        with_seq.add_seq(seq_text);
        let copy = clone_entry(&with_seq);
        let ghost u_before = updated.deep_view();
        let ghost r_before = returned.deep_view();
        updated.push(with_seq);
        returned.push(copy);
        proof {
            assert(updated.deep_view() =~= u_before.push(extracted(dv[k as int], refseq@)));
            assert(returned.deep_view() =~= r_before.push(extracted(dv[k as int], refseq@)));
        }
        k = k + 1;
    }
    *entries = updated;
    proof {
        assert(entries.deep_view() =~= Seq::new(dv.len(), |i: int| extracted(dv[i], refseq@)));
        assert(returned.deep_view() =~= entries.deep_view());
    }
    Ok(returned)
}

/// Law: extraction is idempotent. Re-extracting a record that already
/// carries a sequence overwrites it with the identical text, given the same
/// reference.
pub proof fn lemma_extraction_idempotent(e: GffEntryV, refseq: Seq<char>)
    ensures
        extracted(extracted(e, refseq), refseq) == extracted(e, refseq),
{
}

/// The concatenation of every record's attached sequence, in order.
pub open spec fn concat_seqs(s: Seq<GffEntryV>) -> Seq<char>
    decreases s.len(),
{
    if s.len() == 0 {
        Seq::empty()
    } else {
        s[0].seq + concat_seqs(s.drop_first())
    }
}

/// For a chain of records whose spans tile `[s[0].start, s.last().end]`
/// without holes and whose sequences were extracted from the reference,
/// the concatenated sequences equal that whole slice of the reference.
proof fn lemma_concat_chain(s: Seq<GffEntryV>, refseq: Seq<char>)
    requires
        s.len() > 0,
        1 <= s[0].start,
        forall|i: int| 0 <= i < s.len() ==> #[trigger] s[i].start <= s[i].end + 1,
        forall|i: int| 0 <= i < s.len() - 1 ==> #[trigger] s[i + 1].start == s[i].end + 1,
        s[s.len() - 1].end <= refseq.len(),
        forall|i: int|
            0 <= i < s.len() ==> #[trigger] s[i].seq == refseq.subrange(s[i].start - 1, s[i].end),
    ensures
        concat_seqs(s) == refseq.subrange(s[0].start - 1, s[s.len() - 1].end),
        s[0].start - 1 <= s[s.len() - 1].end,
    decreases s.len(),
{
    if s.len() == 1 {
        assert(s.drop_first().len() == 0);
        assert(concat_seqs(s.drop_first()) == Seq::<char>::empty());
        assert(concat_seqs(s) =~= s[0].seq);
        assert(concat_seqs(s) =~= refseq.subrange(s[0].start - 1, s[0].end));
    } else {
        let t = s.drop_first();
        assert(forall|i: int| 0 <= i < t.len() ==> t[i] == s[i + 1]);
        assert(forall|i: int| 0 <= i < t.len() - 1 ==> #[trigger] t[i + 1].start == t[i].end + 1);
        assert(1 <= t[0].start);
        lemma_concat_chain(t, refseq);
        let a = s[0].start - 1;
        let b = s[0].end;
        let c = s[s.len() - 1].end;
        assert(t[0].start - 1 == b);
        assert(b <= c);
        assert(a <= b);
        assert(concat_seqs(t) == refseq.subrange(b, c));
        assert(concat_seqs(s) == s[0].seq + concat_seqs(t));
        assert(refseq.subrange(a, b) + refseq.subrange(b, c) =~= refseq.subrange(a, c));
    }
}

/// Law: sequence extraction round-trips. When the records tile the whole
/// reference — the first span starts at position 1, each next span starts
/// immediately after the previous span's end, and the last span ends at
/// the reference's last position — concatenating the extracted sequences
/// in coordinate order reconstructs the reference exactly.
pub proof fn lemma_extraction_round_trip(s: Seq<GffEntryV>, refseq: Seq<char>)
    requires
        s.len() > 0,
        s[0].start == 1,
        forall|i: int| 0 <= i < s.len() ==> #[trigger] s[i].start <= s[i].end + 1,
        forall|i: int| 0 <= i < s.len() - 1 ==> #[trigger] s[i + 1].start == s[i].end + 1,
        s[s.len() - 1].end == refseq.len(),
        forall|i: int|
            0 <= i < s.len() ==> #[trigger] s[i].seq == refseq.subrange(s[i].start - 1, s[i].end),
    ensures
        concat_seqs(s) == refseq,
{
    lemma_concat_chain(s, refseq);
    assert(refseq.subrange(0, refseq.len() as int) =~= refseq);
}

} // verus!
