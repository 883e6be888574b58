//! Bucket assignment: the pure mapping from an entry snapshot to an
//! ordered list of buckets, one function per policy.
//!
//! Every assigner is deterministic: its contract pins the exact bucket
//! keys and the exact entry-to-bucket placement, so two runs over the same
//! snapshot cannot differ.  Nothing here touches the filesystem.

use vstd::prelude::*;
use crate::entry::{DirectoryEntry, SplitError};
use crate::lex::{lex_le, str_le, str_eq};
use crate::sort::{sort_by_name, sort_entries};
use crate::ext::{ext_key, extension_key};
use crate::text::{dec_digits, string_push, push_dec};
use crate::date::{date_key, date_key_of, label_of_key, label_of_key_exec};
use crate::entry::{DateField, DateGranularity};

verus! {

/// One destination subdirectory and the entries assigned to it, in
/// transfer order.  `key` is the full directory name, prefix included.
pub struct Bucket {
    pub key: String,
    pub entries: Vec<DirectoryEntry>,
}

/// The directory name of the `i`-th sequential bucket:
/// the naming prefix, an underscore, then the decimal index.
pub open spec fn indexed_key(prefix: Seq<char>, i: nat) -> Seq<char> {
    prefix + seq!['_'] + dec_digits(i)
}

/// The directory name of a labelled bucket: the naming prefix, an
/// underscore, then the label.
pub open spec fn labelled_key(prefix: Seq<char>, label: Seq<char>) -> Seq<char> {
    prefix + seq!['_'] + label
}

fn make_indexed_key(prefix: &str, i: u64) -> (k: String)
    ensures
        k@ == indexed_key(prefix@, i as nat),
{
    let mut k = prefix.to_owned();
    string_push(&mut k, '_');
    push_dec(&mut k, i);
    proof {
        assert(k@ =~= indexed_key(prefix@, i as nat));
    }
    k
}

fn make_labelled_key(prefix: &str, label: &str) -> (k: String)
    ensures
        k@ == labelled_key(prefix@, label@),
{
    let mut k = prefix.to_owned();
    string_push(&mut k, '_');
    k.append(label);
    proof {
        assert(k@ =~= labelled_key(prefix@, label@));
    }
    k
}

/// What a correct by-count assignment looks like: the snapshot in name
/// order, cut into consecutive groups of `max` entries, the last group
/// holding the remainder.
pub open spec fn count_assignment(
    bs: Seq<Bucket>,
    entries: Seq<DirectoryEntry>,
    prefix: Seq<char>,
    max: nat,
) -> bool {
    let sorted = sort_by_name(entries);
    let n = entries.len() as int;
    &&& (bs.len() as int - 1) * max < n <= bs.len() * max
    &&& forall|i: int|
        0 <= i < bs.len() ==> {
            &&& (#[trigger] bs[i]).key@ == indexed_key(prefix, i as nat)
            &&& bs[i].entries@ == sorted.subrange(
                i * max,
                if (i + 1) * max <= n {
                    (i + 1) * max
                } else {
                    n
                },
            )
        }
}

/// Splits the snapshot into buckets of at most `max_files` entries, in
/// name order.  Refuses a zero limit, and refuses to act at all when the
/// snapshot already fits within one bucket.
pub fn split_by_file_count(
    entries: &Vec<DirectoryEntry>,
    name_scheme: &str,
    max_files: u32,
) -> (r: Result<Vec<Bucket>, SplitError>)
    ensures
        max_files == 0 ==> r is Err && r->Err_0 == SplitError::InvalidPolicyParameter,
        max_files > 0 && entries@.len() <= max_files ==> r is Err && r->Err_0
            == SplitError::NothingToDo,
        max_files > 0 && entries@.len() > max_files ==> r is Ok && count_assignment(
            r->Ok_0@,
            entries@,
            name_scheme@,
            max_files as nat,
        ),
{
    if max_files == 0 {
        return Err(SplitError::InvalidPolicyParameter);
    }
    if entries.len() <= max_files as usize {
        return Err(SplitError::NothingToDo);
    }
    let sorted = sort_entries(entries);
    proof {
        crate::sort::lemma_sort_by_name_multiset(entries@);
    }
    let n = sorted.len();
    let max = max_files as usize;
    let mut buckets: Vec<Bucket> = Vec::new();
    let mut i: usize = 0;
    proof {
        assert(buckets@.len() * max == 0) by (nonlinear_arith)
            requires
                buckets@.len() == 0,
        ;
    }
    while i < n
        invariant
            n == entries@.len(),
            n == sorted@.len(),
            sorted@ == sort_by_name(entries@),
            1 <= max,
            max == max_files,
            i <= n,
            i == buckets@.len() * max || (i == n && n < buckets@.len() * max && (buckets@.len()
                as int - 1) * max < n),
            forall|j: int|
                0 <= j < buckets@.len() ==> {
                    &&& (#[trigger] buckets@[j]).key@ == indexed_key(name_scheme@, j as nat)
                    &&& buckets@[j].entries@ == sort_by_name(entries@).subrange(
                        j * max,
                        if (j + 1) * max <= n {
                            (j + 1) * max
                        } else {
                            n as int
                        },
                    )
                },
        decreases n - i,
    {
        let start = i;
        let end = if n - i > max {
            i + max
        } else {
            n
        };
        let ghost bidx = buckets@.len();
        proof {
            assert(i == bidx * max);
            assert((bidx + 1) * max == bidx * max + max) by (nonlinear_arith);
        }
        let mut chunk: Vec<DirectoryEntry> = Vec::new();
        let mut j: usize = start;
        proof {
            assert(sorted@.subrange(start as int, start as int) =~= Seq::<
                DirectoryEntry,
            >::empty());
        }
        while j < end
            invariant
                start <= j <= end <= n,
                n == sorted@.len(),
                chunk@ == sorted@.subrange(start as int, j as int),
            decreases end - j,
        {
            chunk.push(sorted[j].clone());
            proof {
                assert(sorted@.subrange(start as int, j + 1) =~= sorted@.subrange(
                    start as int,
                    j as int,
                ).push(sorted@[j as int]));
            }
            j = j + 1;
        }
        let key = make_indexed_key(name_scheme, buckets.len() as u64);
        buckets.push(Bucket { key, entries: chunk });
        proof {
            assert(buckets@.len() == bidx + 1);
            assert(buckets@[bidx as int].entries@ == sort_by_name(entries@).subrange(
                bidx * max,
                if (bidx + 1) * max <= n {
                    (bidx + 1) * max
                } else {
                    n as int
                },
            ));
            assert((bidx + 1) * max == bidx * max + max) by (nonlinear_arith);
        }
        i = end;
    }
    proof {
        let bl = buckets@.len() as int;
        assert((bl - 1) * max < n <= bl * max) by {
            if i == bl * max {
                assert((bl - 1) * max == bl * max - max) by (nonlinear_arith);
            }
        }
    }
    Ok(buckets)
}

/// The greedy size grouping: each entry joins the open bucket unless the
/// bucket is nonempty and taking the entry would make its total reach or
/// exceed `max`; then the bucket closes and the entry opens the next one.
/// Only a nonempty open bucket is ever closed, so no bucket is empty.
pub open spec fn size_chunks_rec(
    s: Seq<DirectoryEntry>,
    max: nat,
    cur: Seq<DirectoryEntry>,
    cur_size: nat,
) -> Seq<Seq<DirectoryEntry>>
    decreases s.len(),
{
    if s.len() == 0 {
        if cur.len() == 0 {
            Seq::empty()
        } else {
            seq![cur]
        }
    } else {
        let e = s[0];
        if cur.len() > 0 && cur_size + e.size_bytes >= max {
            seq![cur] + size_chunks_rec(s.skip(1), max, seq![e], e.size_bytes as nat)
        } else {
            size_chunks_rec(s.skip(1), max, cur.push(e), (cur_size + e.size_bytes) as nat)
        }
    }
}

/// The greedy size grouping of a whole snapshot, starting from an empty
/// open bucket.
pub open spec fn size_chunks(s: Seq<DirectoryEntry>, max: nat) -> Seq<Seq<DirectoryEntry>> {
    size_chunks_rec(s, max, Seq::empty(), 0)
}

/// The running total of an open bucket.
pub open spec fn total_size(s: Seq<DirectoryEntry>) -> nat
    decreases s.len(),
{
    if s.len() == 0 {
        0
    } else {
        (total_size(s.drop_last()) + s.last().size_bytes) as nat
    }
}

/// What a correct by-size assignment looks like: the snapshot in name
/// order, grouped greedily under the byte limit.
pub open spec fn size_assignment(
    bs: Seq<Bucket>,
    entries: Seq<DirectoryEntry>,
    prefix: Seq<char>,
    max: nat,
) -> bool {
    let chunks = size_chunks(sort_by_name(entries), max);
    &&& bs.len() == chunks.len()
    &&& forall|i: int|
        0 <= i < bs.len() ==> {
            &&& (#[trigger] bs[i]).key@ == indexed_key(prefix, i as nat)
            &&& bs[i].entries@ == chunks[i]
        }
}

/// The views of the entry lists of a bucket sequence.
pub open spec fn bucket_entry_views(bs: Seq<Bucket>) -> Seq<Seq<DirectoryEntry>> {
    Seq::new(bs.len(), |i: int| bs[i].entries@)
}

/// Splits the snapshot, in name order, into buckets whose totals stay
/// below `max_bytes`.  Refuses a zero limit, and refuses the whole run
/// when a single entry already exceeds the limit.
pub fn split_by_file_size(
    entries: &Vec<DirectoryEntry>,
    name_scheme: &str,
    max_bytes: u64,
) -> (r: Result<Vec<Bucket>, SplitError>)
    ensures
        max_bytes == 0 ==> r is Err && r->Err_0 == SplitError::InvalidPolicyParameter,
        max_bytes > 0 && (exists|i: int|
            0 <= i < entries@.len() && (#[trigger] entries@[i]).size_bytes > max_bytes) ==> r
            is Err && r->Err_0 == SplitError::EntryTooLarge,
        max_bytes > 0 && (forall|i: int|
            0 <= i < entries@.len() ==> (#[trigger] entries@[i]).size_bytes <= max_bytes) ==> r
            is Ok && size_assignment(r->Ok_0@, entries@, name_scheme@, max_bytes as nat),
{
    if max_bytes == 0 {
        return Err(SplitError::InvalidPolicyParameter);
    }
    let mut i: usize = 0;
    while i < entries.len()
        invariant
            max_bytes >= 1,
            i <= entries@.len(),
            forall|k: int| 0 <= k < i ==> (#[trigger] entries@[k]).size_bytes <= max_bytes,
        decreases entries@.len() - i,
    {
        if entries[i].size_bytes > max_bytes {
            return Err(SplitError::EntryTooLarge);
        }
        i = i + 1;
    }
    let sorted = sort_entries(entries);
    proof {
        crate::sort::lemma_sort_by_name_multiset(entries@);
        broadcast use vstd::seq_lib::group_to_multiset_ensures;

        assert forall|k: int| 0 <= k < sorted@.len() implies (#[trigger] sorted@[k]).size_bytes
            <= max_bytes by {
            assert(sorted@.to_multiset().count(sorted@[k]) > 0);
            assert(entries@.to_multiset().count(sorted@[k]) > 0);
            assert(entries@.contains(sorted@[k]));
        }
    }
    let n = sorted.len();
    let max = max_bytes;
    let mut buckets: Vec<Bucket> = Vec::new();
    let mut cur: Vec<DirectoryEntry> = Vec::new();
    let mut cur_size: u64 = 0;
    let mut j: usize = 0;
    proof {
        assert(sorted@.skip(0) =~= sorted@);
        assert(bucket_entry_views(buckets@) =~= Seq::<Seq<DirectoryEntry>>::empty());
        assert(size_chunks(sorted@, max as nat) =~= bucket_entry_views(buckets@)
            + size_chunks_rec(sorted@.skip(0), max as nat, cur@, cur_size as nat));
    }
    while j < n
        invariant
            n == sorted@.len(),
            sorted@ == sort_by_name(entries@),
            1 <= max,
            j <= n,
            forall|k: int| 0 <= k < n ==> (#[trigger] sorted@[k]).size_bytes <= max,
            cur_size == total_size(cur@),
            cur_size <= max,
            j == 0 ==> cur@.len() == 0 && cur_size == 0,
            j > 0 ==> cur@.len() > 0,
            size_chunks(sorted@, max as nat) == bucket_entry_views(buckets@) + size_chunks_rec(
                sorted@.skip(j as int),
                max as nat,
                cur@,
                cur_size as nat,
            ),
            forall|k: int|
                0 <= k < buckets@.len() ==> (#[trigger] buckets@[k]).key@ == indexed_key(
                    name_scheme@,
                    k as nat,
                ),
        decreases n - j,
    {
        let e = sorted[j].clone();
        proof {
            assert(sorted@.skip(j as int)[0] == sorted@[j as int]);
            assert(sorted@.skip(j as int).skip(1) =~= sorted@.skip(j + 1));
        }
        let close = cur.len() > 0 && e.size_bytes >= max - cur_size;
        if close {
            let key = make_indexed_key(name_scheme, buckets.len() as u64);
            let ghost old_buckets = buckets@;
            let ghost old_cur = cur@;
            let esize = e.size_bytes;
            buckets.push(Bucket { key, entries: cur });
            cur = Vec::new();
            cur.push(e);
            cur_size = esize;
            proof {
                assert(cur@ =~= seq![sorted@[j as int]]);
                assert(total_size(cur@) == cur_size) by {
                    reveal_with_fuel(total_size, 2);
                    assert(cur@.drop_last() =~= Seq::<DirectoryEntry>::empty());
                }
                assert(bucket_entry_views(buckets@) =~= bucket_entry_views(old_buckets).push(
                    old_cur,
                ));
                assert(size_chunks_rec(sorted@.skip(j as int), max as nat, old_cur,
                    total_size(old_cur)) == seq![old_cur] + size_chunks_rec(
                    sorted@.skip(j + 1),
                    max as nat,
                    cur@,
                    cur_size as nat,
                ));
                assert(bucket_entry_views(old_buckets) + (seq![old_cur] + size_chunks_rec(
                    sorted@.skip(j + 1),
                    max as nat,
                    cur@,
                    cur_size as nat,
                )) =~= bucket_entry_views(buckets@) + size_chunks_rec(
                    sorted@.skip(j + 1),
                    max as nat,
                    cur@,
                    cur_size as nat,
                ));
            }
        } else {
            let ghost old_cur = cur@;
            cur_size = cur_size + e.size_bytes;
            cur.push(e);
            proof {
                assert(cur@.drop_last() =~= old_cur);
            }
        }
        j = j + 1;
    }
    if cur.len() > 0 {
        let key = make_indexed_key(name_scheme, buckets.len() as u64);
        let ghost old_buckets = buckets@;
        let ghost old_cur = cur@;
        buckets.push(Bucket { key, entries: cur });
        proof {
            assert(sorted@.skip(n as int).len() == 0);
            assert(size_chunks_rec(sorted@.skip(n as int), max as nat, old_cur, cur_size as nat)
                == seq![old_cur]);
            assert(bucket_entry_views(buckets@) =~= bucket_entry_views(old_buckets).push(old_cur));
            assert(bucket_entry_views(old_buckets) + seq![old_cur] =~= bucket_entry_views(
                buckets@,
            ));
            assert(size_chunks(sorted@, max as nat) =~= bucket_entry_views(buckets@));
        }
    } else {
        proof {
            assert(sorted@.skip(n as int).len() == 0);
            assert(size_chunks_rec(sorted@.skip(n as int), max as nat, cur@, cur_size as nat)
                =~= Seq::<Seq<DirectoryEntry>>::empty());
            assert(bucket_entry_views(buckets@) + Seq::<Seq<DirectoryEntry>>::empty()
                =~= bucket_entry_views(buckets@));
            assert(size_chunks(sorted@, max as nat) =~= bucket_entry_views(buckets@));
        }
    }
    proof {
        let chunks = size_chunks(sort_by_name(entries@), max as nat);
        assert(bucket_entry_views(buckets@).len() == buckets@.len());
        assert(forall|k: int|
            0 <= k < buckets@.len() ==> (#[trigger] buckets@[k]).entries@ == chunks[k]);
    }
    Ok(buckets)
}

/// Inserts a grouping key into an ascending key list, keeping it sorted
/// and without duplicates.
pub open spec fn insert_unique(ks: Seq<Seq<char>>, k: Seq<char>) -> Seq<Seq<char>>
    decreases ks.len(),
{
    if ks.len() == 0 {
        seq![k]
    } else if ks.last() == k {
        ks
    } else if lex_le(ks.last(), k) {
        ks.push(k)
    } else {
        insert_unique(ks.drop_last(), k).push(ks.last())
    }
}

/// The distinct extension keys of a snapshot, in ascending order.
pub open spec fn ext_group_keys(s: Seq<DirectoryEntry>) -> Seq<Seq<char>>
    decreases s.len(),
{
    if s.len() == 0 {
        Seq::empty()
    } else {
        insert_unique(ext_group_keys(s.drop_last()), ext_key(s.last().name@))
    }
}

/// The entries whose extension key is `k`.
pub open spec fn ext_matches(k: Seq<char>) -> spec_fn(DirectoryEntry) -> bool {
    |e: DirectoryEntry| ext_key(e.name@) == k
}

/// The views of a list of key strings.
pub open spec fn key_views(ks: Seq<String>) -> Seq<Seq<char>> {
    Seq::new(ks.len(), |i: int| ks[i]@)
}

proof fn lemma_insert_unique_present(ks: Seq<Seq<char>>, k: Seq<char>, j: int)
    requires
        0 < j <= ks.len(),
        ks[j - 1] == k,
        forall|m: int| j <= m < ks.len() ==> !lex_le(#[trigger] ks[m], k),
    ensures
        insert_unique(ks, k) == ks,
    decreases ks.len(),
{
    if ks.last() == k {
    } else if lex_le(ks.last(), k) {
        assert(j == ks.len());
        assert(false);
    } else {
        assert(j < ks.len());
        lemma_insert_unique_present(ks.drop_last(), k, j);
        assert(insert_unique(ks, k) =~= ks);
    }
}

proof fn lemma_insert_unique_at(ks: Seq<Seq<char>>, k: Seq<char>, j: int)
    requires
        0 <= j <= ks.len(),
        forall|m: int| j <= m < ks.len() ==> !lex_le(#[trigger] ks[m], k),
        j > 0 ==> lex_le(ks[j - 1], k) && ks[j - 1] != k,
    ensures
        insert_unique(ks, k) == ks.insert(j, k),
    decreases ks.len(),
{
    if ks.len() == 0 {
        assert(ks.insert(0, k) =~= seq![k]);
    } else if ks.last() == k {
        crate::lex::lemma_lex_reflexive(k);
        assert(j == ks.len());
        assert(false);
    } else if lex_le(ks.last(), k) {
        assert(j == ks.len());
        assert(ks.insert(j, k) =~= ks.push(k));
    } else {
        assert(j < ks.len());
        lemma_insert_unique_at(ks.drop_last(), k, j);
        assert(ks.drop_last().insert(j, k).push(ks.last()) =~= ks.insert(j, k));
    }
}

/// What a correct by-extension assignment looks like: one bucket per
/// distinct extension key, ascending by key, entries in snapshot order.
pub open spec fn ext_assignment(
    bs: Seq<Bucket>,
    entries: Seq<DirectoryEntry>,
    prefix: Seq<char>,
) -> bool {
    &&& bs.len() == ext_group_keys(entries).len()
    &&& forall|i: int|
        0 <= i < bs.len() ==> {
            &&& (#[trigger] bs[i]).key@ == labelled_key(prefix, ext_group_keys(entries)[i])
            &&& bs[i].entries@ == entries.filter(ext_matches(ext_group_keys(entries)[i]))
        }
}

/// Splits the snapshot into one bucket per distinct extension, the bucket
/// list in ascending key order, each bucket's entries in snapshot order.
/// Extensions compare case-insensitively; entries without one share the
/// empty key.
pub fn split_by_file_ext(entries: &Vec<DirectoryEntry>, name_scheme: &str) -> (r: Vec<Bucket>)
    ensures
        ext_assignment(r@, entries@, name_scheme@),
{
    let mut keys: Vec<String> = Vec::new();
    let mut i: usize = 0;
    proof {
        assert(entries@.take(0) =~= Seq::<DirectoryEntry>::empty());
        assert(key_views(keys@) =~= Seq::<Seq<char>>::empty());
    }
    while i < entries.len()
        invariant
            i <= entries@.len(),
            key_views(keys@) == ext_group_keys(entries@.take(i as int)),
        decreases entries@.len() - i,
    {
        let k = extension_key(entries[i].name.as_str());
        let mut j: usize = keys.len();
        while j > 0 && !str_le(keys[j - 1].as_str(), k.as_str())
            invariant
                j <= keys@.len(),
                k@ == ext_key(entries@[i as int].name@),
                forall|m: int| j <= m < keys@.len() ==> !lex_le(#[trigger] keys@[m]@, k@),
            decreases j,
        {
            j = j - 1;
        }
        let present = j > 0 && str_eq(keys[j - 1].as_str(), k.as_str());
        proof {
            assert(entries@.take(i + 1).drop_last() =~= entries@.take(i as int));
            assert(entries@.take(i + 1).last() == entries@[i as int]);
            let kv = key_views(keys@);
            assert(forall|m: int| j <= m < kv.len() ==> !lex_le(#[trigger] kv[m], k@));
            if present {
                lemma_insert_unique_present(kv, k@, j as int);
            } else {
                lemma_insert_unique_at(kv, k@, j as int);
            }
        }
        if !present {
            let ghost old_keys = keys@;
            keys.insert(j, k);
            proof {
                assert(key_views(keys@) =~= key_views(old_keys).insert(j as int, k@));
            }
        }
        i = i + 1;
    }
    proof {
        assert(entries@.take(entries@.len() as int) =~= entries@);
    }
    let mut buckets: Vec<Bucket> = Vec::new();
    let mut ki: usize = 0;
    while ki < keys.len()
        invariant
            ki <= keys@.len(),
            key_views(keys@) == ext_group_keys(entries@),
            buckets@.len() == ki,
            forall|m: int|
                0 <= m < ki ==> {
                    &&& (#[trigger] buckets@[m]).key@ == labelled_key(
                        name_scheme@,
                        ext_group_keys(entries@)[m],
                    )
                    &&& buckets@[m].entries@ == entries@.filter(
                        ext_matches(ext_group_keys(entries@)[m]),
                    )
                },
        decreases keys@.len() - ki,
    {
        let ghost pred = ext_matches(keys@[ki as int]@);
        let mut chosen: Vec<DirectoryEntry> = Vec::new();
        let mut j: usize = 0;
        proof {
            reveal(Seq::filter);
            assert(entries@.take(0) =~= Seq::<DirectoryEntry>::empty());
        }
        while j < entries.len()
            invariant
                j <= entries@.len(),
                ki < keys@.len(),
                pred == ext_matches(keys@[ki as int]@),
                chosen@ == entries@.take(j as int).filter(pred),
            decreases entries@.len() - j,
        {
            proof {
                reveal(Seq::filter);
                assert(entries@.take(j + 1).drop_last() =~= entries@.take(j as int));
                assert(entries@.take(j + 1).last() == entries@[j as int]);
            }
            let ek = extension_key(entries[j].name.as_str());
            if str_eq(ek.as_str(), keys[ki].as_str()) {
                chosen.push(entries[j].clone());
            }
            j = j + 1;
        }
        proof {
            assert(entries@.take(entries@.len() as int) =~= entries@);
        }
        let key = make_labelled_key(name_scheme, keys[ki].as_str());
        buckets.push(Bucket { key, entries: chosen });
        ki = ki + 1;
    }
    buckets
}

/// Inserts a numeric grouping key into an ascending key list, keeping it
/// sorted and without duplicates.
pub open spec fn insert_unique_nat(ks: Seq<nat>, k: nat) -> Seq<nat>
    decreases ks.len(),
{
    if ks.len() == 0 {
        seq![k]
    } else if ks.last() == k {
        ks
    } else if ks.last() < k {
        ks.push(k)
    } else {
        insert_unique_nat(ks.drop_last(), k).push(ks.last())
    }
}

/// The distinct truncated-timestamp keys of a snapshot under a date field
/// and granularity, in ascending (chronological) order.
pub open spec fn date_group_keys(
    s: Seq<DirectoryEntry>,
    field: DateField,
    g: DateGranularity,
) -> Seq<nat>
    decreases s.len(),
{
    if s.len() == 0 {
        Seq::empty()
    } else {
        insert_unique_nat(
            date_group_keys(s.drop_last(), field, g),
            date_key(s.last().spec_timestamp(field), g),
        )
    }
}

/// The entries whose timestamp truncates to key `k`.
pub open spec fn date_matches(k: nat, field: DateField, g: DateGranularity) -> spec_fn(
    DirectoryEntry,
) -> bool {
    |e: DirectoryEntry| date_key(e.spec_timestamp(field), g) == k
}

/// The numeric views of a list of keys.
pub open spec fn nat_views(ks: Seq<u64>) -> Seq<nat> {
    Seq::new(ks.len(), |i: int| ks[i] as nat)
}

proof fn lemma_insert_unique_nat_present(ks: Seq<nat>, k: nat, j: int)
    requires
        0 < j <= ks.len(),
        ks[j - 1] == k,
        forall|m: int| j <= m < ks.len() ==> !(#[trigger] ks[m] <= k),
    ensures
        insert_unique_nat(ks, k) == ks,
    decreases ks.len(),
{
    if ks.last() == k {
    } else if ks.last() < k {
        assert(j == ks.len());
        assert(false);
    } else {
        assert(j < ks.len());
        lemma_insert_unique_nat_present(ks.drop_last(), k, j);
        assert(insert_unique_nat(ks, k) =~= ks);
    }
}

proof fn lemma_insert_unique_nat_at(ks: Seq<nat>, k: nat, j: int)
    requires
        0 <= j <= ks.len(),
        forall|m: int| j <= m < ks.len() ==> !(#[trigger] ks[m] <= k),
        j > 0 ==> ks[j - 1] < k,
    ensures
        insert_unique_nat(ks, k) == ks.insert(j, k),
    decreases ks.len(),
{
    if ks.len() == 0 {
        assert(ks.insert(0, k) =~= seq![k]);
    } else if ks.last() == k {
        assert(j == ks.len());
        assert(false);
    } else if ks.last() < k {
        assert(j == ks.len());
        assert(ks.insert(j, k) =~= ks.push(k));
    } else {
        assert(j < ks.len());
        lemma_insert_unique_nat_at(ks.drop_last(), k, j);
        assert(ks.drop_last().insert(j, k).push(ks.last()) =~= ks.insert(j, k));
    }
}

/// What a correct by-date assignment looks like: one bucket per distinct
/// truncated timestamp, in chronological order, entries in snapshot order.
pub open spec fn date_assignment(
    bs: Seq<Bucket>,
    entries: Seq<DirectoryEntry>,
    prefix: Seq<char>,
    field: DateField,
    g: DateGranularity,
) -> bool {
    &&& bs.len() == date_group_keys(entries, field, g).len()
    &&& forall|i: int|
        0 <= i < bs.len() ==> {
            &&& (#[trigger] bs[i]).key@ == labelled_key(
                prefix,
                label_of_key(date_group_keys(entries, field, g)[i], g),
            )
            &&& bs[i].entries@ == entries.filter(
                date_matches(date_group_keys(entries, field, g)[i], field, g),
            )
        }
}

/// Splits the snapshot into one bucket per distinct truncated timestamp of
/// the chosen field, the bucket list in chronological order, each bucket
/// labelled `YYYY`, `YYYY-MM`, `YYYY-MM-DD` or `YYYY-MM-DD-HH` after the
/// prefix, and each bucket's entries in snapshot order.
pub fn split_by_date(
    entries: &Vec<DirectoryEntry>,
    name_scheme: &str,
    field: DateField,
    granularity: DateGranularity,
) -> (r: Vec<Bucket>)
    ensures
        date_assignment(r@, entries@, name_scheme@, field, granularity),
{
    let mut keys: Vec<u64> = Vec::new();
    let mut i: usize = 0;
    proof {
        assert(entries@.take(0) =~= Seq::<DirectoryEntry>::empty());
        assert(nat_views(keys@) =~= Seq::<nat>::empty());
    }
    while i < entries.len()
        invariant
            i <= entries@.len(),
            nat_views(keys@) == date_group_keys(entries@.take(i as int), field, granularity),
        decreases entries@.len() - i,
    {
        let k = date_key_of(entries[i].timestamp(field), granularity);
        let mut j: usize = keys.len();
        while j > 0 && keys[j - 1] > k
            invariant
                j <= keys@.len(),
                k as nat == date_key(entries@[i as int].spec_timestamp(field), granularity),
                forall|m: int| j <= m < keys@.len() ==> !(#[trigger] keys@[m] <= k),
            decreases j,
        {
            j = j - 1;
        }
        let present = j > 0 && keys[j - 1] == k;
        proof {
            assert(entries@.take(i + 1).drop_last() =~= entries@.take(i as int));
            assert(entries@.take(i + 1).last() == entries@[i as int]);
            let kv = nat_views(keys@);
            assert(forall|m: int| j <= m < kv.len() ==> !(#[trigger] kv[m] <= k as nat));
            if present {
                lemma_insert_unique_nat_present(kv, k as nat, j as int);
            } else {
                lemma_insert_unique_nat_at(kv, k as nat, j as int);
            }
        }
        if !present {
            let ghost old_keys = keys@;
            keys.insert(j, k);
            proof {
                assert(nat_views(keys@) =~= nat_views(old_keys).insert(j as int, k as nat));
            }
        }
        i = i + 1;
    }
    proof {
        assert(entries@.take(entries@.len() as int) =~= entries@);
    }
    let mut buckets: Vec<Bucket> = Vec::new();
    let mut ki: usize = 0;
    while ki < keys.len()
        invariant
            ki <= keys@.len(),
            nat_views(keys@) == date_group_keys(entries@, field, granularity),
            buckets@.len() == ki,
            forall|m: int|
                0 <= m < ki ==> {
                    &&& (#[trigger] buckets@[m]).key@ == labelled_key(
                        name_scheme@,
                        label_of_key(
                            date_group_keys(entries@, field, granularity)[m],
                            granularity,
                        ),
                    )
                    &&& buckets@[m].entries@ == entries@.filter(
                        date_matches(
                            date_group_keys(entries@, field, granularity)[m],
                            field,
                            granularity,
                        ),
                    )
                },
        decreases keys@.len() - ki,
    {
        let ghost pred = date_matches(keys@[ki as int] as nat, field, granularity);
        let mut chosen: Vec<DirectoryEntry> = Vec::new();
        let mut j: usize = 0;
        proof {
            reveal(Seq::filter);
            assert(entries@.take(0) =~= Seq::<DirectoryEntry>::empty());
        }
        while j < entries.len()
            invariant
                j <= entries@.len(),
                ki < keys@.len(),
                pred == date_matches(keys@[ki as int] as nat, field, granularity),
                chosen@ == entries@.take(j as int).filter(pred),
            decreases entries@.len() - j,
        {
            proof {
                reveal(Seq::filter);
                assert(entries@.take(j + 1).drop_last() =~= entries@.take(j as int));
                assert(entries@.take(j + 1).last() == entries@[j as int]);
            }
            let ek = date_key_of(entries[j].timestamp(field), granularity);
            if ek == keys[ki] {
                chosen.push(entries[j].clone());
            }
            j = j + 1;
        }
        proof {
            assert(entries@.take(entries@.len() as int) =~= entries@);
        }
        let label = label_of_key_exec(keys[ki], granularity);
        let key = make_labelled_key(name_scheme, label.as_str());
        buckets.push(Bucket { key, entries: chosen });
        ki = ki + 1;
    }
    buckets
}

} // verus!
