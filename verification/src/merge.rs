//! Merging original and synthetic records into one collection ordered by a
//! single coordinate key.

use vstd::prelude::*;
use vstd::seq_lib::lemma_multiset_commutative;
use vstd::seq_lib::to_multiset_insert;
use crate::model::{GffEntry, GffEntryV};

verus! {

/// The coordinate column the merged collection is ordered by. Callers must
/// pick one key and keep it: mixing keys changes the output order.
#[derive(Debug, Clone, Copy, PartialEq, Eq, Structural)]
pub enum SortKey {
    Start,
    End,
}

pub open spec fn key_of(e: GffEntryV, key: SortKey) -> int {
    match key {
        SortKey::Start => e.start,
        SortKey::End => e.end,
    }
}

/// Records stand in non-decreasing order of the chosen key.
pub open spec fn sorted_by_key(s: Seq<GffEntryV>, key: SortKey) -> bool {
    forall|i: int, j: int| 0 <= i < j < s.len() ==> key_of(#[trigger] s[i], key) <= key_of(#[trigger] s[j], key)
}

fn key_value(e: &GffEntry, key: SortKey) -> (r: i64)
    ensures
        r as int == key_of(e@, key),
{
    match key {
        SortKey::Start => e.start,
        SortKey::End => e.end,
    }
}

/// A field-for-field copy of a record, equal to it in view.
pub fn clone_entry(e: &GffEntry) -> (r: GffEntry)
    ensures
        r@ == e@,
{
    GffEntry {
        seqid: e.seqid.clone(),
        source: e.source.clone(),
        ftype: e.ftype.clone(),
        start: e.start,
        end: e.end,
        score: e.score.clone(),
        strand: e.strand.clone(),
        phase: e.phase.clone(),
        attributes: e.attributes.clone(),
        seq: e.seq.clone(),
    }
}

/// Insert a record into a key-sorted vector, after any records of equal
/// key, keeping the vector sorted.
fn insert_sorted(v: &mut Vec<GffEntry>, e: GffEntry, key: SortKey)
    requires
        sorted_by_key(old(v).deep_view(), key),
    ensures
        sorted_by_key(final(v).deep_view(), key),
        final(v).deep_view().to_multiset() == old(v).deep_view().to_multiset().insert(e@),
        final(v).deep_view().len() == old(v).deep_view().len() + 1,
{
    let ke = key_value(&e, key);
    let n = v.len();
    let mut j: usize = 0;
    while j < n && key_value(&v[j], key) <= ke
        invariant
            0 <= j <= n,
            n == v@.len(),
            v == old(v),
            ke as int == key_of(e@, key),
            forall|l: int| 0 <= l < j ==> key_of(#[trigger] v.deep_view()[l], key) <= ke as int,
        decreases n - j,
    {
        j = j + 1;
    }
    proof {
        if j < v@.len() {
            assert(key_of(v.deep_view()[j as int], key) > ke as int);
        }
    }
    let ghost before = v.deep_view();
    v.insert(j, e);
    proof {
        let after = v.deep_view();
        assert(after =~= before.insert(j as int, e@));
        assert forall|a: int, b: int| 0 <= a < b < after.len() implies key_of(
            #[trigger] after[a],
            key,
        ) <= key_of(#[trigger] after[b], key) by {
            if a < j && b < j {
            } else if a == j {
                assert(after[a] == e@);
                assert(after[b] == before[b - 1]);
                assert(key_of(before[j as int], key) > ke as int);
                assert(key_of(before[j as int], key) <= key_of(before[b - 1], key));
            } else if b == j {
                assert(after[b] == e@);
                assert(after[a] == before[a]);
            } else if a > j {
                assert(after[a] == before[a - 1]);
                assert(after[b] == before[b - 1]);
            } else {
                assert(after[a] == before[a]);
                assert(after[b] == before[b - 1]);
                if b - 1 == a {
                    if j < before.len() {
                        assert(key_of(before[a], key) <= ke as int || key_of(before[a], key)
                            <= key_of(before[b - 1], key));
                    }
                    assert(key_of(before[a], key) <= ke as int);
                    assert(key_of(after[b], key) == key_of(before[a], key));
                    assert(key_of(after[a], key) <= key_of(after[b], key));
                }
            }
        }
        to_multiset_insert(before, j as int, e@);
    }
}

/// Merge two record collections and order the result by the chosen key.
/// The result holds exactly the records of both inputs (as a multiset), in
/// non-decreasing key order.
pub fn merge_and_sort(
    original: &Vec<GffEntry>,
    synthetic: &Vec<GffEntry>,
    key: SortKey,
) -> (r: Vec<GffEntry>)
    ensures
        sorted_by_key(r.deep_view(), key),
        r.deep_view().to_multiset() == (original.deep_view() + synthetic.deep_view()).to_multiset(),
        r.deep_view().len() == original.deep_view().len() + synthetic.deep_view().len(),
{
    let mut out: Vec<GffEntry> = Vec::new();
    let mut i: usize = 0;
    proof {
        assert(out.deep_view() =~= Seq::<GffEntryV>::empty());
        assert(original.deep_view().subrange(0, 0) =~= Seq::<GffEntryV>::empty());
        assert(Seq::<GffEntryV>::empty().to_multiset() =~= out.deep_view().to_multiset());
    }
    while i < original.len()
        invariant
            0 <= i <= original@.len(),
            original.deep_view().len() == original@.len(),
            sorted_by_key(out.deep_view(), key),
            out.deep_view().to_multiset() == original.deep_view().subrange(0, i as int).to_multiset(),
            out.deep_view().len() == i,
        decreases original@.len() - i,
    {
        let ghost prefix = original.deep_view().subrange(0, i as int);
        let c = clone_entry(&original[i]);
        insert_sorted(&mut out, c, key);
        proof {
            assert(prefix.push(original.deep_view()[i as int]) =~= original.deep_view().subrange(
                0,
                i as int + 1,
            ));
            vstd::seq_lib::to_multiset_build(prefix, original.deep_view()[i as int]);
        }
        i = i + 1;
    }
    proof {
        assert(original.deep_view().subrange(0, original@.len() as int) =~= original.deep_view());
    }
    proof {
        broadcast use vstd::seq_lib::group_to_multiset_ensures;

        let e = Seq::<GffEntryV>::empty();
        assert(synthetic.deep_view().subrange(0, 0) =~= e);
        assert(forall|a: GffEntryV| !e.contains(a));
        assert(forall|a: GffEntryV| e.to_multiset().count(a) == 0);
        assert(original.deep_view().to_multiset().add(e.to_multiset())
            =~= original.deep_view().to_multiset());
    }
    let mut k: usize = 0;
    while k < synthetic.len()
        invariant
            0 <= k <= synthetic@.len(),
            synthetic.deep_view().len() == synthetic@.len(),
            sorted_by_key(out.deep_view(), key),
            out.deep_view().to_multiset() == original.deep_view().to_multiset().add(
                synthetic.deep_view().subrange(0, k as int).to_multiset(),
            ),
            out.deep_view().len() == original.deep_view().len() + k,
        decreases synthetic@.len() - k,
    {
        let ghost prefix = synthetic.deep_view().subrange(0, k as int);
        let c = clone_entry(&synthetic[k]);
        insert_sorted(&mut out, c, key);
        proof {
            assert(prefix.push(synthetic.deep_view()[k as int]) =~= synthetic.deep_view().subrange(
                0,
                k as int + 1,
            ));
            vstd::seq_lib::to_multiset_build(prefix, synthetic.deep_view()[k as int]);
            assert(out.deep_view().to_multiset() =~= original.deep_view().to_multiset().add(
                synthetic.deep_view().subrange(0, k as int + 1).to_multiset(),
            ));
        }
        k = k + 1;
    }
    proof {
        assert(synthetic.deep_view().subrange(0, synthetic@.len() as int) =~= synthetic.deep_view());
        lemma_multiset_commutative(original.deep_view(), synthetic.deep_view());
    }
    out
}

} // verus!
