//! The library's stated laws: every assignment partitions the snapshot —
//! no entry duplicated, none dropped — and assignment is a pure function
//! of the snapshot.

use vstd::prelude::*;
use vstd::multiset::Multiset;
use vstd::seq_lib::lemma_multiset_commutative;
use crate::assign::{
    Bucket, bucket_entry_views, count_assignment, size_assignment, size_chunks, size_chunks_rec,
    ext_assignment, ext_group_keys, ext_matches, date_assignment, date_group_keys, date_matches,
};
use crate::entry::{DateField, DateGranularity, DirectoryEntry};
use crate::sort::{sort_by_name, lemma_sort_by_name_multiset};
use crate::ext::ext_key;
use crate::date::date_key;
use crate::place::{PlacementRun, bucket_pairs, pairs_before, lemma_complete_run_covers};

verus! {

/// The entries of a list of entry lists, as one multiset.
pub open spec fn msum(ss: Seq<Seq<DirectoryEntry>>) -> Multiset<DirectoryEntry>
    decreases ss.len(),
{
    if ss.len() == 0 {
        Multiset::empty()
    } else {
        msum(ss.drop_last()).add(ss.last().to_multiset())
    }
}

/// The entries of a bucket list, as one multiset.
pub open spec fn buckets_multiset(bs: Seq<Bucket>) -> Multiset<DirectoryEntry> {
    msum(bucket_entry_views(bs))
}

proof fn lemma_msum_append(a: Seq<Seq<DirectoryEntry>>, b: Seq<Seq<DirectoryEntry>>)
    ensures
        msum(a + b) == msum(a).add(msum(b)),
    decreases b.len(),
{
    broadcast use vstd::multiset::group_multiset_axioms;

    if b.len() == 0 {
        assert(a + b =~= a);
        assert(msum(b) =~= Multiset::<DirectoryEntry>::empty());
        assert(msum(a).add(msum(b)) =~= msum(a));
    } else {
        lemma_msum_append(a, b.drop_last());
        assert((a + b).drop_last() =~= a + b.drop_last());
        assert((a + b).last() == b.last());
        assert(msum(a).add(msum(b.drop_last())).add(b.last().to_multiset()) =~= msum(a).add(
            msum(b),
        ));
    }
}

proof fn lemma_msum_singleton(c: Seq<DirectoryEntry>)
    ensures
        msum(seq![c]) == c.to_multiset(),
{
    broadcast use vstd::multiset::group_multiset_axioms;

    assert(seq![c].drop_last() =~= Seq::<Seq<DirectoryEntry>>::empty());
    assert(seq![c].last() == c);
    assert(msum(Seq::<Seq<DirectoryEntry>>::empty()) == Multiset::<DirectoryEntry>::empty());
    assert(msum(seq![c]) == msum(seq![c].drop_last()).add(c.to_multiset()));
    assert(Multiset::<DirectoryEntry>::empty().add(c.to_multiset()) =~= c.to_multiset());
}

proof fn lemma_to_multiset_empty(s: Seq<DirectoryEntry>)
    requires
        s.len() == 0,
    ensures
        s.to_multiset() == Multiset::<DirectoryEntry>::empty(),
{
    broadcast use vstd::seq_lib::group_to_multiset_ensures;

    assert(s.to_multiset() =~= Multiset::<DirectoryEntry>::empty());
}

/// Every prefix of the by-count buckets holds exactly the matching prefix
/// of the sorted snapshot.
proof fn lemma_count_prefix(
    bs: Seq<Bucket>,
    entries: Seq<DirectoryEntry>,
    prefix: Seq<char>,
    max: nat,
    k: int,
)
    requires
        max >= 1,
        count_assignment(bs, entries, prefix, max),
        0 <= k <= bs.len(),
    ensures
        msum(bucket_entry_views(bs.take(k))) == sort_by_name(entries).subrange(
            0,
            if k * max <= entries.len() {
                k * max
            } else {
                entries.len() as int
            },
        ).to_multiset(),
    decreases k,
{
    broadcast use vstd::multiset::group_multiset_axioms;

    lemma_sort_by_name_multiset(entries);
    let sorted = sort_by_name(entries);
    let n = entries.len() as int;
    if k == 0 {
        assert(bucket_entry_views(bs.take(0)) =~= Seq::<Seq<DirectoryEntry>>::empty());
        assert(msum(bucket_entry_views(bs.take(0))) == Multiset::<DirectoryEntry>::empty());
        assert(0 * max == 0) by (nonlinear_arith);
        lemma_to_multiset_empty(sorted.subrange(0, 0));
    } else {
        lemma_count_prefix(bs, entries, prefix, max, k - 1);
        assert((k - 1) * max < n) by (nonlinear_arith)
            requires
                max >= 1,
                k <= bs.len(),
                (bs.len() as int - 1) * max < n,
        ;
        assert((k - 1) * max == k * max - max) by (nonlinear_arith);
        let lo = (k - 1) * max;
        let hi = if k * max <= n {
            k * max
        } else {
            n
        };
        assert(bs[k - 1].entries@ == sorted.subrange(lo, hi));
        assert(bucket_entry_views(bs.take(k)).drop_last() =~= bucket_entry_views(bs.take(k - 1)));
        assert(bucket_entry_views(bs.take(k)).last() == bs[k - 1].entries@);
        lemma_multiset_commutative(sorted.subrange(0, lo), sorted.subrange(lo, hi));
        assert(sorted.subrange(0, lo) + sorted.subrange(lo, hi) =~= sorted.subrange(0, hi));
        assert(msum(bucket_entry_views(bs.take(k))) == msum(bucket_entry_views(bs.take(k - 1))).add(
            sorted.subrange(lo, hi).to_multiset(),
        ));
        assert(msum(bucket_entry_views(bs.take(k))) =~= sorted.subrange(0, hi).to_multiset());
    }
}

/// Coverage of the by-count policy: its buckets hold the snapshot exactly,
/// no entry duplicated, none dropped.
pub proof fn lemma_count_coverage(
    bs: Seq<Bucket>,
    entries: Seq<DirectoryEntry>,
    prefix: Seq<char>,
    max: nat,
)
    requires
        max >= 1,
        count_assignment(bs, entries, prefix, max),
    ensures
        buckets_multiset(bs) == entries.to_multiset(),
{
    let sorted = sort_by_name(entries);
    let n = entries.len() as int;
    lemma_count_prefix(bs, entries, prefix, max, bs.len() as int);
    assert(bs.take(bs.len() as int) =~= bs);
    assert(sorted.subrange(0, n) =~= sorted) by {
        lemma_sort_by_name_multiset(entries);
    }
    lemma_sort_by_name_multiset(entries);
}

/// The greedy size grouping neither drops nor duplicates: its chunks hold
/// the open bucket plus everything still to come.
proof fn lemma_size_chunks_msum(
    s: Seq<DirectoryEntry>,
    max: nat,
    cur: Seq<DirectoryEntry>,
    cur_size: nat,
)
    ensures
        msum(size_chunks_rec(s, max, cur, cur_size)) == cur.to_multiset().add(s.to_multiset()),
    decreases s.len(),
{
    broadcast use vstd::multiset::group_multiset_axioms;
    broadcast use vstd::seq_lib::group_to_multiset_ensures;

    if s.len() == 0 {
        lemma_to_multiset_empty(s);
        if cur.len() == 0 {
            lemma_to_multiset_empty(cur);
            assert(msum(size_chunks_rec(s, max, cur, cur_size)) =~= cur.to_multiset().add(
                s.to_multiset(),
            ));
        } else {
            lemma_msum_singleton(cur);
            assert(msum(seq![cur]) =~= cur.to_multiset().add(s.to_multiset()));
        }
    } else {
        let e = s[0];
        assert(s =~= seq![e] + s.skip(1));
        lemma_multiset_commutative(seq![e], s.skip(1));
        assert(seq![e] =~= Seq::<DirectoryEntry>::empty().push(e));
        lemma_to_multiset_empty(Seq::<DirectoryEntry>::empty());
        assert(seq![e].to_multiset() =~= Multiset::<DirectoryEntry>::empty().insert(e));
        if cur.len() > 0 && cur_size + e.size_bytes >= max {
            lemma_size_chunks_msum(s.skip(1), max, seq![e], e.size_bytes as nat);
            lemma_msum_append(
                seq![cur],
                size_chunks_rec(s.skip(1), max, seq![e], e.size_bytes as nat),
            );
            lemma_msum_singleton(cur);
            assert(msum(size_chunks_rec(s, max, cur, cur_size)) =~= cur.to_multiset().add(
                s.to_multiset(),
            ));
        } else {
            lemma_size_chunks_msum(s.skip(1), max, cur.push(e), (cur_size + e.size_bytes) as nat);
            assert(msum(size_chunks_rec(s, max, cur, cur_size)) =~= cur.to_multiset().add(
                s.to_multiset(),
            ));
        }
    }
}

/// Coverage of the by-size policy: its buckets hold the snapshot exactly,
/// no entry duplicated, none dropped.
pub proof fn lemma_size_coverage(
    bs: Seq<Bucket>,
    entries: Seq<DirectoryEntry>,
    prefix: Seq<char>,
    max: nat,
)
    requires
        size_assignment(bs, entries, prefix, max),
    ensures
        buckets_multiset(bs) == entries.to_multiset(),
{
    broadcast use vstd::multiset::group_multiset_axioms;

    let sorted = sort_by_name(entries);
    lemma_size_chunks_msum(sorted, max, Seq::empty(), 0);
    lemma_to_multiset_empty(Seq::<DirectoryEntry>::empty());
    assert(bucket_entry_views(bs) =~= size_chunks(sorted, max));
    assert(msum(size_chunks(sorted, max)) =~= sorted.to_multiset());
    lemma_sort_by_name_multiset(entries);
}

/// One predicate of a list, applied.
pub open spec fn pred_holds(
    preds: Seq<spec_fn(DirectoryEntry) -> bool>,
    i: int,
    e: DirectoryEntry,
) -> bool {
    preds[i](e)
}

/// The groups a predicate list cuts a snapshot into, one filter per
/// predicate.
pub open spec fn group_filters(
    preds: Seq<spec_fn(DirectoryEntry) -> bool>,
    s: Seq<DirectoryEntry>,
) -> Seq<Seq<DirectoryEntry>> {
    Seq::new(preds.len(), |i: int| s.filter(preds[i]))
}

proof fn lemma_group_filters_empty(preds: Seq<spec_fn(DirectoryEntry) -> bool>)
    ensures
        msum(group_filters(preds, Seq::empty())) == Multiset::<DirectoryEntry>::empty(),
    decreases preds.len(),
{
    broadcast use vstd::multiset::group_multiset_axioms;

    reveal(Seq::filter);
    if preds.len() == 0 {
        assert(group_filters(preds, Seq::empty()) =~= Seq::<Seq<DirectoryEntry>>::empty());
    } else {
        lemma_group_filters_empty(preds.drop_last());
        let gf = group_filters(preds, Seq::empty());
        assert(gf.drop_last() =~= group_filters(preds.drop_last(), Seq::empty()));
        assert(gf.last() == Seq::<DirectoryEntry>::empty().filter(preds.last()));
        lemma_to_multiset_empty(gf.last());
        assert(msum(gf) =~= Multiset::<DirectoryEntry>::empty());
    }
}

proof fn lemma_msum_update_push(
    ss: Seq<Seq<DirectoryEntry>>,
    tt: Seq<Seq<DirectoryEntry>>,
    i0: int,
    e: DirectoryEntry,
)
    requires
        ss.len() == tt.len(),
        0 <= i0 < ss.len(),
        ss[i0] == tt[i0].push(e),
        forall|j: int| 0 <= j < ss.len() && j != i0 ==> ss[j] == #[trigger] tt[j],
    ensures
        msum(ss) == msum(tt).insert(e),
    decreases ss.len(),
{
    broadcast use vstd::multiset::group_multiset_axioms;
    broadcast use vstd::seq_lib::group_to_multiset_ensures;

    if i0 == ss.len() - 1 {
        assert(ss.drop_last() =~= tt.drop_last());
        assert(ss.last().to_multiset() =~= tt.last().to_multiset().insert(e));
        assert(msum(ss) =~= msum(tt).insert(e));
    } else {
        lemma_msum_update_push(ss.drop_last(), tt.drop_last(), i0, e);
        assert(ss.last() == tt.last());
        assert(msum(ss) =~= msum(tt).insert(e));
    }
}

/// Predicates that are pairwise disjoint and jointly cover a snapshot cut
/// it into groups that hold it exactly: no entry duplicated, none dropped.
proof fn lemma_partition_msum(
    preds: Seq<spec_fn(DirectoryEntry) -> bool>,
    s: Seq<DirectoryEntry>,
    idx: spec_fn(DirectoryEntry) -> int,
)
    requires
        forall|i: int, j: int, e: DirectoryEntry|
            0 <= i < j < preds.len() ==> !(#[trigger] pred_holds(preds, i, e) && #[trigger] pred_holds(preds, j, e)),
        forall|k: int| #![trigger s[k]]
            0 <= k < s.len() ==> 0 <= idx(s[k]) < preds.len() && pred_holds(preds, idx(s[k]), s[k]),
    ensures
        msum(group_filters(preds, s)) == s.to_multiset(),
    decreases s.len(),
{
    broadcast use vstd::multiset::group_multiset_axioms;
    broadcast use vstd::seq_lib::group_to_multiset_ensures;

    reveal(Seq::filter);
    if s.len() == 0 {
        assert(s =~= Seq::<DirectoryEntry>::empty());
        lemma_group_filters_empty(preds);
        lemma_to_multiset_empty(s);
    } else {
        let t = s.drop_last();
        let e = s.last();
        assert forall|k: int| #![trigger t[k]] 0 <= k < t.len() implies 0 <= idx(t[k])
            < preds.len() && pred_holds(preds, idx(t[k]), t[k]) by {
            assert(t[k] == s[k]);
            assert(0 <= idx(s[k]) < preds.len() && pred_holds(preds, idx(s[k]), s[k]));
        }
        lemma_partition_msum(preds, t, idx);
        assert(s[s.len() - 1] == e);
        assert(0 <= idx(e) < preds.len() && pred_holds(preds, idx(e), e));
        let i0 = idx(e);
        assert(preds[i0](e));
        assert forall|j: int| 0 <= j < preds.len() && j != i0 implies !preds[j](e) by {
            if preds[j](e) {
                if j < i0 {
                    assert(!(pred_holds(preds, j, e) && pred_holds(preds, i0, e)));
                } else {
                    assert(!(pred_holds(preds, i0, e) && pred_holds(preds, j, e)));
                }
            }
        }
        let gfs = group_filters(preds, s);
        let gft = group_filters(preds, t);
        assert forall|j: int| 0 <= j < preds.len() && j != i0 implies gfs[j] == #[trigger] gft[j] by {
            assert(s.filter(preds[j]) == t.filter(preds[j]));
        }
        assert(gfs[i0] == gft[i0].push(e));
        lemma_msum_update_push(gfs, gft, i0, e);
        assert(s =~= t.push(e));
        assert(s.to_multiset() =~= t.to_multiset().insert(e));
    }
}

/// Whatever `insert_unique` holds is the old keys plus the new one.
proof fn lemma_insert_unique_contains(ks: Seq<Seq<char>>, k: Seq<char>, x: Seq<char>)
    ensures
        crate::assign::insert_unique(ks, k).contains(x) <==> ks.contains(x) || x == k,
    decreases ks.len(),
{
    let out = crate::assign::insert_unique(ks, k);
    if ks.len() == 0 {
        assert(out =~= seq![k]);
        assert(out.contains(x) <==> x == k) by {
            if out.contains(x) {
                let i = choose|i: int| 0 <= i < out.len() && out[i] == x;
                assert(out[0] == x);
            }
            if x == k {
                assert(out[0] == x);
            }
        }
    } else if ks.last() == k {
    } else if crate::lex::lex_le(ks.last(), k) {
        assert(out == ks.push(k));
        assert(out.contains(x) <==> ks.contains(x) || x == k) by {
            if out.contains(x) {
                let i = choose|i: int| 0 <= i < out.len() && out[i] == x;
                if i < ks.len() {
                    assert(ks[i] == x);
                }
            }
            if ks.contains(x) {
                let i = choose|i: int| 0 <= i < ks.len() && ks[i] == x;
                assert(out[i] == x);
            }
            if x == k {
                assert(out[ks.len() as int] == x);
            }
        }
    } else {
        lemma_insert_unique_contains(ks.drop_last(), k, x);
        let inner = crate::assign::insert_unique(ks.drop_last(), k);
        assert(out == inner.push(ks.last()));
        assert(out.contains(x) <==> inner.contains(x) || x == ks.last()) by {
            if out.contains(x) {
                let i = choose|i: int| 0 <= i < out.len() && out[i] == x;
                if i < inner.len() {
                    assert(inner[i] == x);
                }
            }
            if inner.contains(x) {
                let i = choose|i: int| 0 <= i < inner.len() && inner[i] == x;
                assert(out[i] == x);
            }
            if x == ks.last() {
                assert(out[out.len() - 1] == x);
            }
        }
        assert(ks.contains(x) <==> ks.drop_last().contains(x) || x == ks.last()) by {
            if ks.contains(x) {
                let i = choose|i: int| 0 <= i < ks.len() && ks[i] == x;
                if i < ks.len() - 1 {
                    assert(ks.drop_last()[i] == x);
                }
            }
            if ks.drop_last().contains(x) {
                let i = choose|i: int| 0 <= i < ks.drop_last().len() && ks.drop_last()[i] == x;
                assert(ks[i] == x);
            }
        }
    }
}

/// The key list stays strictly ascending as keys are inserted.
pub open spec fn ascending_keys(ks: Seq<Seq<char>>) -> bool {
    forall|i: int, j: int|
        0 <= i < j < ks.len() ==> crate::lex::lex_le(#[trigger] ks[i], #[trigger] ks[j]) && ks[i]
            != ks[j]
}

proof fn lemma_insert_unique_ascending(ks: Seq<Seq<char>>, k: Seq<char>)
    requires
        ascending_keys(ks),
    ensures
        ascending_keys(crate::assign::insert_unique(ks, k)),
    decreases ks.len(),
{
    let out = crate::assign::insert_unique(ks, k);
    if ks.len() == 0 {
        assert(out =~= seq![k]);
    } else if ks.last() == k {
    } else if crate::lex::lex_le(ks.last(), k) {
        assert forall|i: int, j: int| 0 <= i < j < out.len() implies crate::lex::lex_le(
            #[trigger] out[i],
            #[trigger] out[j],
        ) && out[i] != out[j] by {
            if j == out.len() - 1 {
                if i < ks.len() - 1 {
                    crate::lex::lemma_lex_transitive(ks[i], ks.last(), k);
                }
                if out[i] == k {
                    crate::lex::lemma_lex_antisymmetric(ks.last(), out[i]);
                }
            }
        }
    } else {
        crate::lex::lemma_lex_total(ks.last(), k);
        assert(ascending_keys(ks.drop_last()));
        lemma_insert_unique_ascending(ks.drop_last(), k);
        let inner = crate::assign::insert_unique(ks.drop_last(), k);
        assert(out == inner.push(ks.last()));
        assert forall|i: int, j: int| 0 <= i < j < out.len() implies crate::lex::lex_le(
            #[trigger] out[i],
            #[trigger] out[j],
        ) && out[i] != out[j] by {
            if j == out.len() - 1 {
                assert(inner.contains(inner[i]));
                lemma_insert_unique_contains(ks.drop_last(), k, inner[i]);
                if inner[i] == k {
                    assert(crate::lex::lex_le(k, ks.last()) && k != ks.last());
                } else {
                    let m = choose|m: int|
                        0 <= m < ks.drop_last().len() && ks.drop_last()[m] == inner[i];
                    assert(crate::lex::lex_le(ks[m], ks.last()) && ks[m] != ks.last());
                }
            }
        }
    }
}

/// The extension buckets come in strictly ascending key order, so the
/// bucket list is deterministic and lexicographic.
pub proof fn lemma_ext_keys_ascending(s: Seq<DirectoryEntry>)
    ensures
        ascending_keys(ext_group_keys(s)),
    decreases s.len(),
{
    if s.len() != 0 {
        lemma_ext_keys_ascending(s.drop_last());
        lemma_insert_unique_ascending(ext_group_keys(s.drop_last()), ext_key(s.last().name@));
    }
}

proof fn lemma_ext_keys_complete(s: Seq<DirectoryEntry>, k: int)
    requires
        0 <= k < s.len(),
    ensures
        ext_group_keys(s).contains(ext_key(s[k].name@)),
    decreases s.len(),
{
    let keys = ext_group_keys(s);
    let prev = ext_group_keys(s.drop_last());
    if k == s.len() - 1 {
        lemma_insert_unique_contains(prev, ext_key(s.last().name@), ext_key(s[k].name@));
    } else {
        lemma_ext_keys_complete(s.drop_last(), k);
        lemma_insert_unique_contains(prev, ext_key(s.last().name@), ext_key(s[k].name@));
    }
}

/// Coverage of the by-extension policy: its buckets hold the snapshot
/// exactly, no entry duplicated, none dropped.
pub proof fn lemma_ext_coverage(bs: Seq<Bucket>, entries: Seq<DirectoryEntry>, prefix: Seq<char>)
    requires
        ext_assignment(bs, entries, prefix),
    ensures
        buckets_multiset(bs) == entries.to_multiset(),
{
    let keys = ext_group_keys(entries);
    let preds = Seq::new(keys.len(), |i: int| ext_matches(keys[i]));
    lemma_ext_keys_ascending(entries);
    assert forall|i: int, j: int, e: DirectoryEntry| 0 <= i < j < preds.len() implies !(
    #[trigger] pred_holds(preds, i, e) && #[trigger] pred_holds(preds, j, e)) by {
        if preds[i](e) && preds[j](e) {
            assert(keys[i] == ext_key(e.name@) && keys[j] == ext_key(e.name@));
        }
    }
    let idx = |e: DirectoryEntry|
        choose|i: int| 0 <= i < keys.len() && keys[i] == ext_key(e.name@);
    assert forall|k: int| #![trigger entries[k]] 0 <= k < entries.len() implies 0 <= idx(
        entries[k],
    ) < preds.len() && pred_holds(preds, idx(entries[k]), entries[k]) by {
        lemma_ext_keys_complete(entries, k);
        let w = choose|i: int| 0 <= i < keys.len() && keys[i] == ext_key(entries[k].name@);
        assert(keys[w] == ext_key(entries[k].name@));
        assert(keys[idx(entries[k])] == ext_key(entries[k].name@));
        assert(pred_holds(preds, idx(entries[k]), entries[k]));
    }
    lemma_partition_msum(preds, entries, idx);
    assert(bucket_entry_views(bs) =~= group_filters(preds, entries));
}

/// Whatever `insert_unique_nat` holds is the old keys plus the new one.
proof fn lemma_insert_unique_nat_contains(ks: Seq<nat>, k: nat, x: nat)
    ensures
        crate::assign::insert_unique_nat(ks, k).contains(x) <==> ks.contains(x) || x == k,
    decreases ks.len(),
{
    let out = crate::assign::insert_unique_nat(ks, k);
    if ks.len() == 0 {
        assert(out =~= seq![k]);
        assert(out.contains(x) <==> x == k) by {
            if out.contains(x) {
                let i = choose|i: int| 0 <= i < out.len() && out[i] == x;
                assert(out[0] == x);
            }
            if x == k {
                assert(out[0] == x);
            }
        }
    } else if ks.last() == k {
    } else if ks.last() < k {
        assert(out == ks.push(k));
        assert(out.contains(x) <==> ks.contains(x) || x == k) by {
            if out.contains(x) {
                let i = choose|i: int| 0 <= i < out.len() && out[i] == x;
                if i < ks.len() {
                    assert(ks[i] == x);
                }
            }
            if ks.contains(x) {
                let i = choose|i: int| 0 <= i < ks.len() && ks[i] == x;
                assert(out[i] == x);
            }
            if x == k {
                assert(out[ks.len() as int] == x);
            }
        }
    } else {
        lemma_insert_unique_nat_contains(ks.drop_last(), k, x);
        let inner = crate::assign::insert_unique_nat(ks.drop_last(), k);
        assert(out == inner.push(ks.last()));
        assert(out.contains(x) <==> inner.contains(x) || x == ks.last()) by {
            if out.contains(x) {
                let i = choose|i: int| 0 <= i < out.len() && out[i] == x;
                if i < inner.len() {
                    assert(inner[i] == x);
                }
            }
            if inner.contains(x) {
                let i = choose|i: int| 0 <= i < inner.len() && inner[i] == x;
                assert(out[i] == x);
            }
            if x == ks.last() {
                assert(out[out.len() - 1] == x);
            }
        }
        assert(ks.contains(x) <==> ks.drop_last().contains(x) || x == ks.last()) by {
            if ks.contains(x) {
                let i = choose|i: int| 0 <= i < ks.len() && ks[i] == x;
                if i < ks.len() - 1 {
                    assert(ks.drop_last()[i] == x);
                }
            }
            if ks.drop_last().contains(x) {
                let i = choose|i: int| 0 <= i < ks.drop_last().len() && ks.drop_last()[i] == x;
                assert(ks[i] == x);
            }
        }
    }
}

/// A numeric key list stays strictly ascending as keys are inserted.
pub open spec fn ascending_nat_keys(ks: Seq<nat>) -> bool {
    forall|i: int, j: int| 0 <= i < j < ks.len() ==> #[trigger] ks[i] < #[trigger] ks[j]
}

proof fn lemma_insert_unique_nat_ascending(ks: Seq<nat>, k: nat)
    requires
        ascending_nat_keys(ks),
    ensures
        ascending_nat_keys(crate::assign::insert_unique_nat(ks, k)),
    decreases ks.len(),
{
    let out = crate::assign::insert_unique_nat(ks, k);
    if ks.len() == 0 {
        assert(out =~= seq![k]);
    } else if ks.last() == k {
    } else if ks.last() < k {
        assert forall|i: int, j: int| 0 <= i < j < out.len() implies #[trigger] out[i]
            < #[trigger] out[j] by {
            if j == out.len() - 1 && i < ks.len() - 1 {
                assert(ks[i] < ks[ks.len() - 1]);
            }
        }
    } else {
        assert(ascending_nat_keys(ks.drop_last()));
        lemma_insert_unique_nat_ascending(ks.drop_last(), k);
        let inner = crate::assign::insert_unique_nat(ks.drop_last(), k);
        assert(out == inner.push(ks.last()));
        assert forall|i: int, j: int| 0 <= i < j < out.len() implies #[trigger] out[i]
            < #[trigger] out[j] by {
            if j == out.len() - 1 {
                assert(inner.contains(inner[i]));
                lemma_insert_unique_nat_contains(ks.drop_last(), k, inner[i]);
                if inner[i] != k {
                    let m = choose|m: int|
                        0 <= m < ks.drop_last().len() && ks.drop_last()[m] == inner[i];
                    assert(ks[m] < ks[ks.len() - 1]);
                }
            }
        }
    }
}

/// The date buckets come in strictly ascending key order; together with
/// the truncation keys growing with time, the bucket list is
/// chronological.
pub proof fn lemma_date_keys_ascending(s: Seq<DirectoryEntry>, field: DateField, g: DateGranularity)
    ensures
        ascending_nat_keys(date_group_keys(s, field, g)),
    decreases s.len(),
{
    if s.len() != 0 {
        lemma_date_keys_ascending(s.drop_last(), field, g);
        lemma_insert_unique_nat_ascending(
            date_group_keys(s.drop_last(), field, g),
            date_key(s.last().spec_timestamp(field), g),
        );
    }
}

proof fn lemma_date_keys_complete(
    s: Seq<DirectoryEntry>,
    field: DateField,
    g: DateGranularity,
    k: int,
)
    requires
        0 <= k < s.len(),
    ensures
        date_group_keys(s, field, g).contains(date_key(s[k].spec_timestamp(field), g)),
    decreases s.len(),
{
    let prev = date_group_keys(s.drop_last(), field, g);
    if k == s.len() - 1 {
        lemma_insert_unique_nat_contains(
            prev,
            date_key(s.last().spec_timestamp(field), g),
            date_key(s[k].spec_timestamp(field), g),
        );
    } else {
        lemma_date_keys_complete(s.drop_last(), field, g, k);
        lemma_insert_unique_nat_contains(
            prev,
            date_key(s.last().spec_timestamp(field), g),
            date_key(s[k].spec_timestamp(field), g),
        );
    }
}

/// Coverage of the by-date policy: its buckets hold the snapshot exactly,
/// no entry duplicated, none dropped.
pub proof fn lemma_date_coverage(
    bs: Seq<Bucket>,
    entries: Seq<DirectoryEntry>,
    prefix: Seq<char>,
    field: DateField,
    g: DateGranularity,
)
    requires
        date_assignment(bs, entries, prefix, field, g),
    ensures
        buckets_multiset(bs) == entries.to_multiset(),
{
    let keys = date_group_keys(entries, field, g);
    let preds = Seq::new(keys.len(), |i: int| date_matches(keys[i], field, g));
    lemma_date_keys_ascending(entries, field, g);
    assert forall|i: int, j: int, e: DirectoryEntry| 0 <= i < j < preds.len() implies !(
    #[trigger] pred_holds(preds, i, e) && #[trigger] pred_holds(preds, j, e)) by {
        if preds[i](e) && preds[j](e) {
            assert(keys[i] == date_key(e.spec_timestamp(field), g));
            assert(keys[j] == date_key(e.spec_timestamp(field), g));
        }
    }
    let idx = |e: DirectoryEntry|
        choose|i: int| 0 <= i < keys.len() && keys[i] == date_key(e.spec_timestamp(field), g);
    assert forall|k: int| #![trigger entries[k]] 0 <= k < entries.len() implies 0 <= idx(
        entries[k],
    ) < preds.len() && pred_holds(preds, idx(entries[k]), entries[k]) by {
        lemma_date_keys_complete(entries, field, g, k);
        let w = choose|i: int|
            0 <= i < keys.len() && keys[i] == date_key(entries[k].spec_timestamp(field), g);
        assert(keys[w] == date_key(entries[k].spec_timestamp(field), g));
        assert(keys[idx(entries[k])] == date_key(entries[k].spec_timestamp(field), g));
        assert(pred_holds(preds, idx(entries[k]), entries[k]));
    }
    lemma_partition_msum(preds, entries, idx);
    assert(bucket_entry_views(bs) =~= group_filters(preds, entries));
}

/// Determinism: two by-count assignments over one snapshot are the same
/// assignment — same bucket names, same entry placement.
pub proof fn lemma_count_deterministic(
    b1: Seq<Bucket>,
    b2: Seq<Bucket>,
    entries: Seq<DirectoryEntry>,
    prefix: Seq<char>,
    max: nat,
)
    requires
        max >= 1,
        count_assignment(b1, entries, prefix, max),
        count_assignment(b2, entries, prefix, max),
    ensures
        b1.len() == b2.len(),
        forall|i: int|
            0 <= i < b1.len() ==> (#[trigger] b1[i]).key@ == b2[i].key@ && b1[i].entries@
                == b2[i].entries@,
{
    let n = entries.len() as int;
    let l1 = b1.len() as int;
    let l2 = b2.len() as int;
    assert(l1 == l2) by (nonlinear_arith)
        requires
            max >= 1,
            (l1 - 1) * max < n <= l1 * max,
            (l2 - 1) * max < n <= l2 * max,
    ;
}

/// Determinism: two by-size assignments over one snapshot are the same
/// assignment.
pub proof fn lemma_size_deterministic(
    b1: Seq<Bucket>,
    b2: Seq<Bucket>,
    entries: Seq<DirectoryEntry>,
    prefix: Seq<char>,
    max: nat,
)
    requires
        size_assignment(b1, entries, prefix, max),
        size_assignment(b2, entries, prefix, max),
    ensures
        b1.len() == b2.len(),
        forall|i: int|
            0 <= i < b1.len() ==> (#[trigger] b1[i]).key@ == b2[i].key@ && b1[i].entries@
                == b2[i].entries@,
{
}

/// Determinism: two by-extension assignments over one snapshot are the
/// same assignment.
pub proof fn lemma_ext_deterministic(
    b1: Seq<Bucket>,
    b2: Seq<Bucket>,
    entries: Seq<DirectoryEntry>,
    prefix: Seq<char>,
)
    requires
        ext_assignment(b1, entries, prefix),
        ext_assignment(b2, entries, prefix),
    ensures
        b1.len() == b2.len(),
        forall|i: int|
            0 <= i < b1.len() ==> (#[trigger] b1[i]).key@ == b2[i].key@ && b1[i].entries@
                == b2[i].entries@,
{
}

/// Determinism: two by-date assignments over one snapshot are the same
/// assignment.
pub proof fn lemma_date_deterministic(
    b1: Seq<Bucket>,
    b2: Seq<Bucket>,
    entries: Seq<DirectoryEntry>,
    prefix: Seq<char>,
    field: DateField,
    g: DateGranularity,
)
    requires
        date_assignment(b1, entries, prefix, field, g),
        date_assignment(b2, entries, prefix, field, g),
    ensures
        b1.len() == b2.len(),
        forall|i: int|
            0 <= i < b1.len() ==> (#[trigger] b1[i]).key@ == b2[i].key@ && b1[i].entries@
                == b2[i].entries@,
{
}

/// The entries a list of transfer pairs names, in transfer order.
pub open spec fn transferred_entries(bs: Seq<Bucket>, pairs: Seq<(usize, usize)>) -> Seq<
    DirectoryEntry,
> {
    Seq::new(pairs.len(), |i: int| bs[pairs[i].0 as int].entries@[pairs[i].1 as int])
}

proof fn lemma_transferred_prefix(bs: Seq<Bucket>, b: int)
    requires
        0 <= b <= bs.len(),
        bs.len() <= usize::MAX,
        forall|i: int| 0 <= i < bs.len() ==> (#[trigger] bs[i]).entries@.len() <= usize::MAX,
    ensures
        transferred_entries(bs, pairs_before(bs, b)).to_multiset() == msum(
            bucket_entry_views(bs.take(b)),
        ),
    decreases b,
{
    broadcast use vstd::multiset::group_multiset_axioms;

    if b == 0 {
        assert(transferred_entries(bs, pairs_before(bs, 0)) =~= Seq::<DirectoryEntry>::empty());
        lemma_to_multiset_empty(transferred_entries(bs, pairs_before(bs, 0)));
        assert(bucket_entry_views(bs.take(0)) =~= Seq::<Seq<DirectoryEntry>>::empty());
        assert(msum(bucket_entry_views(bs.take(0))) == Multiset::<DirectoryEntry>::empty());
    } else {
        lemma_transferred_prefix(bs, b - 1);
        let prev = pairs_before(bs, b - 1);
        let n = bs[b - 1].entries@.len() as int;
        let ps = pairs_before(bs, b);
        assert(ps == prev + bucket_pairs(b - 1, n));
        assert(transferred_entries(bs, ps) =~= transferred_entries(bs, prev)
            + transferred_entries(bs, bucket_pairs(b - 1, n)));
        assert(transferred_entries(bs, bucket_pairs(b - 1, n)) =~= bs[b - 1].entries@);
        lemma_multiset_commutative(
            transferred_entries(bs, prev),
            transferred_entries(bs, bucket_pairs(b - 1, n)),
        );
        assert(bucket_entry_views(bs.take(b)).drop_last() =~= bucket_entry_views(bs.take(b - 1)));
        assert(bucket_entry_views(bs.take(b)).last() == bs[b - 1].entries@);
        assert(transferred_entries(bs, ps).to_multiset() =~= msum(bucket_entry_views(bs.take(b))));
    }
}

/// A completed placement run transferred exactly the assignment it was
/// given: each entry of each bucket once, nothing else.  Chained with a
/// policy's coverage law, the transfers of a completed run are exactly
/// the snapshot that was assigned.
pub proof fn lemma_complete_run_transfers_assignment(p: PlacementRun)
    requires
        p.wf(),
        p.failure is None,
        p.bucket_idx == p.buckets@.len(),
        p.buckets@.len() <= usize::MAX,
        forall|i: int|
            0 <= i < p.buckets@.len() ==> (#[trigger] p.buckets@[i]).entries@.len() <= usize::MAX,
    ensures
        transferred_entries(p.buckets@, p.completed_pairs()).to_multiset() == buckets_multiset(
            p.buckets@,
        ),
{
    lemma_complete_run_covers(p);
    lemma_transferred_prefix(p.buckets@, p.buckets@.len() as int);
    assert(p.buckets@.take(p.buckets@.len() as int) =~= p.buckets@);
}

} // verus!
