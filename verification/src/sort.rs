//! Deterministic ordering of an entry snapshot by name.
//!
//! The count and size policies partition the listing in name order.  The
//! sort is pinned to a spec-level stable insertion sort, so a contract that
//! mentions it describes one exact output sequence.

use vstd::prelude::*;
use vstd::multiset::Multiset;
use crate::entry::DirectoryEntry;
use crate::lex::{lex_le, lemma_lex_total, lemma_lex_transitive, str_le};

verus! {

/// Inserts `e` behind every already-placed entry whose name is at or
/// before `e`'s, keeping equal names in arrival order.
pub open spec fn insert_by_name(s: Seq<DirectoryEntry>, e: DirectoryEntry) -> Seq<DirectoryEntry>
    decreases s.len(),
{
    if s.len() == 0 {
        seq![e]
    } else if lex_le(s.last().name@, e.name@) {
        s.push(e)
    } else {
        insert_by_name(s.drop_last(), e).push(s.last())
    }
}

/// Stable insertion sort of the snapshot, ascending by name.
pub open spec fn sort_by_name(s: Seq<DirectoryEntry>) -> Seq<DirectoryEntry>
    decreases s.len(),
{
    if s.len() == 0 {
        Seq::empty()
    } else {
        insert_by_name(sort_by_name(s.drop_last()), s.last())
    }
}

/// The snapshot is in ascending name order.
pub open spec fn sorted_by_name(s: Seq<DirectoryEntry>) -> bool {
    forall|i: int, j: int| 0 <= i < j < s.len() ==> lex_le(s[i].name@, s[j].name@)
}

pub proof fn lemma_insert_by_name_len(s: Seq<DirectoryEntry>, e: DirectoryEntry)
    ensures
        insert_by_name(s, e).len() == s.len() + 1,
    decreases s.len(),
{
    if s.len() != 0 && !lex_le(s.last().name@, e.name@) {
        lemma_insert_by_name_len(s.drop_last(), e);
    }
}

pub proof fn lemma_insert_by_name_multiset(s: Seq<DirectoryEntry>, e: DirectoryEntry)
    ensures
        insert_by_name(s, e).to_multiset() == s.to_multiset().insert(e),
    decreases s.len(),
{
    broadcast use vstd::seq_lib::group_to_multiset_ensures;

    if s.len() == 0 {
        assert(seq![e] =~= Seq::<DirectoryEntry>::empty().push(e));
        assert(Seq::<DirectoryEntry>::empty().to_multiset() =~= Multiset::<
            DirectoryEntry,
        >::empty());
        assert(insert_by_name(s, e).to_multiset() =~= s.to_multiset().insert(e));
    } else if lex_le(s.last().name@, e.name@) {
        assert(insert_by_name(s, e).to_multiset() =~= s.to_multiset().insert(e));
    } else {
        lemma_insert_by_name_multiset(s.drop_last(), e);
        assert(s =~= s.drop_last().push(s.last()));
        assert(s.to_multiset() =~= s.drop_last().to_multiset().insert(s.last()));
        assert(insert_by_name(s, e).to_multiset() =~= insert_by_name(
            s.drop_last(),
            e,
        ).to_multiset().insert(s.last()));
        assert(insert_by_name(s, e).to_multiset() =~= s.to_multiset().insert(e));
    }
}

/// Sorting rearranges the snapshot and invents or drops nothing.
pub proof fn lemma_sort_by_name_multiset(s: Seq<DirectoryEntry>)
    ensures
        sort_by_name(s).to_multiset() == s.to_multiset(),
        sort_by_name(s).len() == s.len(),
    decreases s.len(),
{
    broadcast use vstd::seq_lib::group_to_multiset_ensures;

    if s.len() == 0 {
    } else {
        lemma_sort_by_name_multiset(s.drop_last());
        lemma_insert_by_name_multiset(sort_by_name(s.drop_last()), s.last());
        lemma_insert_by_name_len(sort_by_name(s.drop_last()), s.last());
        assert(s =~= s.drop_last().push(s.last()));
        assert(s.to_multiset() =~= s.drop_last().to_multiset().insert(s.last()));
    }
}

pub proof fn lemma_insert_by_name_sorted(s: Seq<DirectoryEntry>, e: DirectoryEntry)
    requires
        sorted_by_name(s),
    ensures
        sorted_by_name(insert_by_name(s, e)),
    decreases s.len(),
{
    if s.len() == 0 {
    } else if lex_le(s.last().name@, e.name@) {
        let out = s.push(e);
        assert forall|i: int, j: int| 0 <= i < j < out.len() implies lex_le(
            out[i].name@,
            out[j].name@,
        ) by {
            if j == out.len() - 1 && i < s.len() - 1 {
                lemma_lex_transitive(out[i].name@, s.last().name@, e.name@);
            }
        }
    } else {
        assert(sorted_by_name(s.drop_last()));
        lemma_insert_by_name_sorted(s.drop_last(), e);
        lemma_insert_by_name_len(s.drop_last(), e);
        lemma_lex_total(s.last().name@, e.name@);
        let inner = insert_by_name(s.drop_last(), e);
        let out = inner.push(s.last());
        // every element of `inner` is either `e` or an entry of `s`, so it
        // sits at or before `s.last()` in the order
        lemma_insert_by_name_multiset(s.drop_last(), e);
        broadcast use vstd::seq_lib::group_to_multiset_ensures;

        assert forall|i: int, j: int| 0 <= i < j < out.len() implies lex_le(
            out[i].name@,
            out[j].name@,
        ) by {
            if j == out.len() - 1 {
                assert(inner.to_multiset().count(inner[i]) > 0);
                assert(s.drop_last().to_multiset().insert(e).count(inner[i]) > 0);
                if inner[i] == e {
                    assert(lex_le(e.name@, s.last().name@));
                } else {
                    assert(s.drop_last().to_multiset().count(inner[i]) > 0);
                    assert(s.drop_last().contains(inner[i]));
                    let k = choose|k: int|
                        0 <= k < s.drop_last().len() && s.drop_last()[k] == inner[i];
                    assert(lex_le(s[k].name@, s.last().name@));
                }
            }
        }
    }
}

/// The spec sort really sorts.
pub proof fn lemma_sort_by_name_sorted(s: Seq<DirectoryEntry>)
    ensures
        sorted_by_name(sort_by_name(s)),
    decreases s.len(),
{
    if s.len() != 0 {
        lemma_sort_by_name_sorted(s.drop_last());
        lemma_insert_by_name_sorted(sort_by_name(s.drop_last()), s.last());
    }
}

proof fn lemma_insert_at_position(s: Seq<DirectoryEntry>, e: DirectoryEntry, j: int)
    requires
        0 <= j <= s.len(),
        forall|k: int| j <= k < s.len() ==> !lex_le(#[trigger] s[k].name@, e.name@),
        j > 0 ==> lex_le(s[j - 1].name@, e.name@),
    ensures
        insert_by_name(s, e) == s.insert(j, e),
    decreases s.len(),
{
    if s.len() == 0 {
        assert(s.insert(0, e) =~= seq![e]);
    } else if lex_le(s.last().name@, e.name@) {
        assert(j == s.len());
        assert(s.insert(j, e) =~= s.push(e));
    } else {
        assert(j < s.len());
        lemma_insert_at_position(s.drop_last(), e, j);
        assert(s.drop_last().insert(j, e).push(s.last()) =~= s.insert(j, e));
    }
}

/// Returns the snapshot in ascending name order, exactly as the spec sort
/// arranges it.
pub fn sort_entries(entries: &Vec<DirectoryEntry>) -> (r: Vec<DirectoryEntry>)
    ensures
        r@ == sort_by_name(entries@),
{
    let mut r: Vec<DirectoryEntry> = Vec::new();
    let mut i: usize = 0;
    proof {
        assert(entries@.take(0) =~= Seq::<DirectoryEntry>::empty());
    }
    while i < entries.len()
        invariant
            i <= entries@.len(),
            r@ == sort_by_name(entries@.take(i as int)),
        decreases entries@.len() - i,
    {
        let e = entries[i].clone();
        let mut j: usize = r.len();
        while j > 0 && !str_le(r[j - 1].name.as_str(), e.name.as_str())
            invariant
                j <= r@.len(),
                e == entries@[i as int],
                forall|k: int| j <= k < r@.len() ==> !lex_le(#[trigger] r@[k].name@, e.name@),
            decreases j,
        {
            j = j - 1;
        }
        proof {
            lemma_insert_at_position(r@, e, j as int);
            assert(entries@.take(i + 1).drop_last() =~= entries@.take(i as int));
            assert(entries@.take(i + 1).last() == entries@[i as int]);
        }
        r.insert(j, e);
        i = i + 1;
    }
    proof {
        assert(entries@.take(entries@.len() as int) =~= entries@);
    }
    r
}

} // verus!
