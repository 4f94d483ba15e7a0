//! Ranking agents best first.
//!
//! An entry is an agent id paired with an integer score that orders agents
//! as their fitness does: a higher score is a fitter agent. Ranking is a
//! stable insertion sort on the score, highest first, so agents with equal
//! scores keep the order in which they were given.
use vstd::prelude::*;

verus! {

broadcast use vstd::seq_lib::group_to_multiset_ensures;

/// The id of a ranking entry.
pub open spec fn id_of(e: (u64, u64)) -> u64 {
    e.0
}

/// The score of a ranking entry.
pub open spec fn score_of(e: (u64, u64)) -> u64 {
    e.1
}

/// `e` inserted into `sorted` right after the last entry that scores at
/// least as high as `e` (at the front when there is none).
pub open spec fn insert_by_score(sorted: Seq<(u64, u64)>, e: (u64, u64)) -> Seq<(u64, u64)>
    decreases sorted.len(),
{
    if sorted.len() == 0 {
        seq![e]
    } else if score_of(sorted.last()) >= score_of(e) {
        sorted.push(e)
    } else {
        insert_by_score(sorted.drop_last(), e).push(sorted.last())
    }
}

/// The entries ordered by score, highest first, equal scores in their
/// original order.
pub open spec fn sorted_by_score(entries: Seq<(u64, u64)>) -> Seq<(u64, u64)>
    decreases entries.len(),
{
    if entries.len() == 0 {
        Seq::empty()
    } else {
        insert_by_score(sorted_by_score(entries.drop_last()), entries.last())
    }
}

/// The ids of the entries, in order.
pub open spec fn ids_of(entries: Seq<(u64, u64)>) -> Seq<u64> {
    entries.map_values(|e: (u64, u64)| id_of(e))
}

/// Scores never increase along the sequence.
pub open spec fn is_descending(s: Seq<(u64, u64)>) -> bool {
    forall|i: int, j: int| 0 <= i < j < s.len() ==> score_of(#[trigger] s[i]) >= score_of(#[trigger] s[j])
}

/// Inserting after the last entry scoring at least as high is inserting at
/// the position found by scanning back from the end.
proof fn lemma_insert_at_scan_position(sorted: Seq<(u64, u64)>, e: (u64, u64), p: int)
    requires
        0 <= p <= sorted.len(),
        forall|j: int| p <= j < sorted.len() ==> score_of(#[trigger] sorted[j]) < score_of(e),
        p > 0 ==> score_of(sorted[p - 1]) >= score_of(e),
    ensures
        insert_by_score(sorted, e) == sorted.insert(p, e),
    decreases sorted.len(),
{
    if sorted.len() == 0 {
        assert(sorted.insert(p, e) =~= seq![e]);
    } else if score_of(sorted.last()) >= score_of(e) {
        assert(sorted.insert(p, e) =~= sorted.push(e));
    } else {
        let init = sorted.drop_last();
        assert forall|j: int| p <= j < init.len() implies score_of(#[trigger] init[j]) < score_of(e) by {
            assert(init[j] == sorted[j]);
        }
        lemma_insert_at_scan_position(init, e, p);
        assert(init.insert(p, e).push(sorted.last()) =~= sorted.insert(p, e));
    }
}

/// Rank entries by score, highest first, and return their ids in that order.
pub fn rank_by_score(entries: &Vec<(u64, u64)>) -> (ids: Vec<u64>)
    ensures
        ids@ == ids_of(sorted_by_score(entries@)),
{
    let mut sorted: Vec<(u64, u64)> = Vec::new();
    let n = entries.len();
    let mut i: usize = 0;
    while i < n
        invariant
            n == entries@.len(),
            i <= n,
            sorted@ == sorted_by_score(entries@.take(i as int)),
        decreases n - i,
    {
        let e = entries[i];
        let mut p = sorted.len();
        while p > 0 && sorted[p - 1].1 < e.1
            invariant
                p <= sorted@.len(),
                forall|j: int| p <= j < sorted@.len() ==> score_of(#[trigger] sorted@[j]) < score_of(e),
            decreases p,
        {
            p = p - 1;
        }
        proof {
            lemma_insert_at_scan_position(sorted@, e, p as int);
            assert(entries@.take(i + 1).drop_last() =~= entries@.take(i as int));
        }
        sorted.insert(p, e);
        i = i + 1;
    }
    assert(entries@.take(n as int) =~= entries@);
    let mut ids: Vec<u64> = Vec::new();
    let mut k: usize = 0;
    while k < sorted.len()
        invariant
            k <= sorted@.len(),
            ids@ == ids_of(sorted@.take(k as int)),
        decreases sorted@.len() - k,
    {
        ids.push(sorted[k].0);
        assert(ids_of(sorted@.take(k + 1)) =~= ids_of(sorted@.take(k as int)).push(sorted@[k as int].0));
        k = k + 1;
    }
    assert(sorted@.take(sorted@.len() as int) =~= sorted@);
    ids
}

/// Inserting into a descending sequence keeps it descending, and adds
/// exactly the inserted entry.
proof fn lemma_insert_by_score(sorted: Seq<(u64, u64)>, e: (u64, u64))
    requires
        is_descending(sorted),
    ensures
        is_descending(insert_by_score(sorted, e)),
        insert_by_score(sorted, e).to_multiset() == sorted.to_multiset().insert(e),
        insert_by_score(sorted, e).len() == sorted.len() + 1,
        ids_of(insert_by_score(sorted, e)).to_multiset() == ids_of(sorted).to_multiset().insert(e.0),
    decreases sorted.len(),
{
    if sorted.len() == 0 {
        assert(ids_of(seq![e]) =~= seq![e.0]);
        assert(seq![e] =~= Seq::<(u64, u64)>::empty().push(e));
        assert(seq![e.0] =~= Seq::<u64>::empty().push(e.0));
    } else if score_of(sorted.last()) >= score_of(e) {
        assert(ids_of(sorted.push(e)) =~= ids_of(sorted).push(e.0));
    } else {
        let init = sorted.drop_last();
        let last = sorted.last();
        assert(is_descending(init)) by {
            assert forall|i: int, j: int| 0 <= i < j < init.len() implies score_of(#[trigger] init[i]) >= score_of(
                #[trigger] init[j],
            ) by {
                assert(init[i] == sorted[i] && init[j] == sorted[j]);
            }
        }
        lemma_insert_by_score(init, e);
        let ins = insert_by_score(init, e);
        let r = ins.push(last);
        assert(sorted =~= init.push(last));
        assert(ids_of(r) =~= ids_of(ins).push(last.0));
        assert(ids_of(sorted) =~= ids_of(init).push(last.0));
        assert(r.to_multiset() =~= sorted.to_multiset().insert(e));
        assert(ids_of(r).to_multiset() =~= ids_of(sorted).to_multiset().insert(e.0));
        // every entry of `ins` scores at least as high as `last`
        assert forall|k: int| 0 <= k < ins.len() implies score_of(#[trigger] ins[k]) >= score_of(last) by {
            lemma_insert_members(init, e, k);
            if ins[k] != e {
                let m = choose|m: int| 0 <= m < init.len() && init[m] == ins[k];
                assert(sorted[m] == init[m]);
                assert(sorted[sorted.len() - 1] == last);
            }
        }
        assert forall|i: int, j: int| 0 <= i < j < r.len() implies score_of(#[trigger] r[i]) >= score_of(
            #[trigger] r[j],
        ) by {
            if j == r.len() - 1 {
                assert(r[j] == last);
                assert(r[i] == ins[i]);
            } else {
                assert(r[i] == ins[i] && r[j] == ins[j]);
            }
        }
    }
}

/// Every entry of an insertion is the inserted entry or an entry that was
/// already there.
proof fn lemma_insert_members(sorted: Seq<(u64, u64)>, e: (u64, u64), k: int)
    requires
        0 <= k < insert_by_score(sorted, e).len(),
        insert_by_score(sorted, e).len() == sorted.len() + 1,
    ensures
        insert_by_score(sorted, e)[k] == e || exists|m: int|
            0 <= m < sorted.len() && sorted[m] == insert_by_score(sorted, e)[k],
    decreases sorted.len(),
{
    if sorted.len() == 0 {
    } else if score_of(sorted.last()) >= score_of(e) {
        if k < sorted.len() {
            assert(sorted[k] == insert_by_score(sorted, e)[k]);
        }
    } else {
        let init = sorted.drop_last();
        let ins = insert_by_score(init, e);
        if k == ins.len() {
            assert(sorted[sorted.len() - 1] == insert_by_score(sorted, e)[k]);
        } else {
            assert(ins.len() == init.len() + 1) by {
                lemma_insert_len(init, e);
            }
            lemma_insert_members(init, e, k);
            if ins[k] != e {
                let m = choose|m: int| 0 <= m < init.len() && init[m] == ins[k];
                assert(sorted[m] == init[m]);
            }
        }
    }
}

proof fn lemma_insert_len(sorted: Seq<(u64, u64)>, e: (u64, u64))
    ensures
        insert_by_score(sorted, e).len() == sorted.len() + 1,
    decreases sorted.len(),
{
    if sorted.len() > 0 && score_of(sorted.last()) < score_of(e) {
        lemma_insert_len(sorted.drop_last(), e);
    }
}

/// Ranking puts the entries in descending order of score, and the ranking
/// holds exactly the given entries (and so exactly the given ids), each as
/// many times as it was given.
pub proof fn lemma_ranking_is_sorted_permutation(entries: Seq<(u64, u64)>)
    ensures
        is_descending(sorted_by_score(entries)),
        sorted_by_score(entries).to_multiset() == entries.to_multiset(),
        sorted_by_score(entries).len() == entries.len(),
        ids_of(sorted_by_score(entries)).to_multiset() == ids_of(entries).to_multiset(),
    decreases entries.len(),
{
    if entries.len() == 0 {
        assert(ids_of(entries) =~= Seq::<u64>::empty());
        assert(ids_of(Seq::<(u64, u64)>::empty()) =~= Seq::<u64>::empty());
    } else {
        let init = entries.drop_last();
        lemma_ranking_is_sorted_permutation(init);
        lemma_insert_by_score(sorted_by_score(init), entries.last());
        assert(entries =~= init.push(entries.last()));
        assert(ids_of(entries) =~= ids_of(init).push(entries.last().0));
    }
}

} // verus!
