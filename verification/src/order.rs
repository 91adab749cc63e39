use vstd::prelude::*;

verus! {

/// A sort key: higher `score` first, then higher `tie`; `slot` says where the keyed item stands.
#[derive(Clone, Copy)]
pub struct RankKey {
    pub score: usize,
    pub tie: i128,
    pub slot: usize,
}

/// `a` comes strictly before `b` in rank order.
pub open spec fn precedes(a: RankKey, b: RankKey) -> bool {
    a.score > b.score || (a.score == b.score && a.tie > b.tie)
}

/// Inserts `x` in front of the first key that it strictly precedes, so that equal keys keep
/// their arrival order.
pub open spec fn insert_ranked(r: Seq<RankKey>, x: RankKey) -> Seq<RankKey>
    decreases r.len(),
{
    if r.len() == 0 {
        seq![x]
    } else if precedes(x, r[0]) {
        seq![x] + r
    } else {
        seq![r[0]] + insert_ranked(r.drop_first(), x)
    }
}

/// The keys in rank order: a stable sort by descending score, then descending tie.
pub open spec fn ranked(keys: Seq<RankKey>) -> Seq<RankKey>
    decreases keys.len(),
{
    if keys.len() == 0 {
        Seq::empty()
    } else {
        insert_ranked(ranked(keys.drop_last()), keys.last())
    }
}

/// No key is strictly preceded by a key after it.
pub open spec fn in_rank_order(r: Seq<RankKey>) -> bool {
    forall|i: int, j: int| 0 <= i < j < r.len() ==> !precedes(#[trigger] r[j], #[trigger] r[i])
}

proof fn lemma_insert_at(r: Seq<RankKey>, x: RankKey, j: int)
    requires
        0 <= j <= r.len(),
        forall|k: int| 0 <= k < j ==> !precedes(x, #[trigger] r[k]),
        j < r.len() ==> precedes(x, r[j]),
    ensures
        insert_ranked(r, x) == r.insert(j, x),
    decreases r.len(),
{
    if r.len() == 0 {
        assert(r.insert(j, x) =~= seq![x]);
    } else if j == 0 {
        assert(r.insert(0, x) =~= seq![x] + r);
    } else {
        let t = r.drop_first();
        assert forall|k: int| 0 <= k < j - 1 implies !precedes(x, #[trigger] t[k]) by {
            assert(t[k] == r[k + 1]);
        }
        lemma_insert_at(t, x, j - 1);
        assert(seq![r[0]] + t.insert(j - 1, x) =~= r.insert(j, x));
    }
}

/// Sorts keys into rank order by insertion, keeping equal keys in arrival order.
pub fn rank(keys: &Vec<RankKey>) -> (r: Vec<RankKey>)
    ensures
        r@ == ranked(keys@),
{
    let mut out: Vec<RankKey> = Vec::new();
    let mut i: usize = 0;
    proof {
        assert(keys@.take(0) =~= Seq::<RankKey>::empty());
    }
    while i < keys.len()
        invariant
            i <= keys@.len(),
            out@ == ranked(keys@.take(i as int)),
        decreases keys@.len() - i,
    {
        let x = keys[i];
        let mut j: usize = 0;
        while j < out.len()
            invariant
                j <= out@.len(),
                forall|k: int| 0 <= k < j ==> !precedes(x, #[trigger] out@[k]),
            ensures
                j <= out@.len(),
                forall|k: int| 0 <= k < j ==> !precedes(x, #[trigger] out@[k]),
                j < out@.len() ==> precedes(x, out@[j as int]),
            decreases out@.len() - j,
        {
            let y = out[j];
            if x.score > y.score || (x.score == y.score && x.tie > y.tie) {
                break;
            }
            j = j + 1;
        }
        proof {
            lemma_insert_at(out@, x, j as int);
            assert(keys@.take(i as int + 1).drop_last() =~= keys@.take(i as int));
        }
        out.insert(j, x);
        i = i + 1;
    }
    proof {
        assert(keys@.take(keys@.len() as int) =~= keys@);
    }
    out
}

proof fn lemma_insert_ranked_members(r: Seq<RankKey>, x: RankKey)
    ensures
        insert_ranked(r, x).len() == r.len() + 1,
        forall|i: int|
            0 <= i < r.len() + 1 ==> (#[trigger] insert_ranked(r, x)[i] == x
                || r.contains(insert_ranked(r, x)[i])),
    decreases r.len(),
{
    if r.len() > 0 && !precedes(x, r[0]) {
        let t = r.drop_first();
        lemma_insert_ranked_members(t, x);
        let q = insert_ranked(r, x);
        assert forall|i: int| 0 <= i < r.len() + 1 implies (#[trigger] q[i] == x || r.contains(q[i])) by {
            if i == 0 {
                assert(r.contains(r[0]));
            } else {
                assert(q[i] == insert_ranked(t, x)[i - 1]);
                if q[i] != x {
                    let j = choose|j: int| 0 <= j < t.len() && t[j] == q[i];
                    assert(r[j + 1] == q[i]);
                }
            }
        }
    } else if r.len() > 0 {
        let q = insert_ranked(r, x);
        assert forall|i: int| 0 <= i < r.len() + 1 implies (#[trigger] q[i] == x || r.contains(q[i])) by {
            if i > 0 {
                assert(q[i] == r[i - 1]);
            }
        }
    }
}

/// Every key of the rank order is one of the keys ranked.
pub proof fn lemma_ranked_members(keys: Seq<RankKey>)
    ensures
        ranked(keys).len() == keys.len(),
        forall|i: int| 0 <= i < keys.len() ==> keys.contains(#[trigger] ranked(keys)[i]),
    decreases keys.len(),
{
    if keys.len() > 0 {
        let rest = keys.drop_last();
        lemma_ranked_members(rest);
        lemma_insert_ranked_members(ranked(rest), keys.last());
        assert forall|i: int| 0 <= i < keys.len() implies keys.contains(#[trigger] ranked(keys)[i]) by {
            let y = ranked(keys)[i];
            if y == keys.last() {
                assert(keys[keys.len() - 1] == y);
            } else {
                let j = choose|j: int| 0 <= j < ranked(rest).len() && ranked(rest)[j] == y;
                let m = choose|m: int| 0 <= m < rest.len() && rest[m] == ranked(rest)[j];
                assert(keys[m] == y);
            }
        }
    }
}

proof fn lemma_precedes_transitive(a: RankKey, b: RankKey, c: RankKey)
    requires
        precedes(a, b),
        precedes(b, c),
    ensures
        precedes(a, c),
{
}

proof fn lemma_insert_in_order(r: Seq<RankKey>, x: RankKey)
    requires
        in_rank_order(r),
    ensures
        in_rank_order(insert_ranked(r, x)),
    decreases r.len(),
{
    if r.len() == 0 {
    } else if precedes(x, r[0]) {
        let q = insert_ranked(r, x);
        assert forall|i: int, j: int| 0 <= i < j < q.len() implies !precedes(#[trigger] q[j], #[trigger] q[i]) by {
            if i == 0 {
                assert(q[j] == r[j - 1]);
                if precedes(q[j], x) {
                    lemma_precedes_transitive(q[j], x, r[0]);
                    if j - 1 > 0 {
                        assert(!precedes(r[j - 1], r[0]));
                    }
                }
            } else {
                assert(q[i] == r[i - 1]);
                assert(q[j] == r[j - 1]);
            }
        }
    } else {
        let t = r.drop_first();
        assert forall|i: int, j: int| 0 <= i < j < t.len() implies !precedes(#[trigger] t[j], #[trigger] t[i]) by {
            assert(t[i] == r[i + 1]);
            assert(t[j] == r[j + 1]);
        }
        lemma_insert_in_order(t, x);
        lemma_insert_ranked_members(t, x);
        let q = insert_ranked(r, x);
        let u = insert_ranked(t, x);
        assert forall|i: int, j: int| 0 <= i < j < q.len() implies !precedes(#[trigger] q[j], #[trigger] q[i]) by {
            assert(q[j] == u[j - 1]);
            if i == 0 {
                if u[j - 1] != x {
                    let k = choose|k: int| 0 <= k < t.len() && t[k] == u[j - 1];
                    assert(r[k + 1] == q[j]);
                }
            } else {
                assert(q[i] == u[i - 1]);
            }
        }
    }
}

proof fn lemma_insert_multiset(r: Seq<RankKey>, x: RankKey)
    ensures
        insert_ranked(r, x).to_multiset() =~= r.to_multiset().insert(x),
    decreases r.len(),
{
    broadcast use vstd::seq_lib::to_multiset_insert;

    if r.len() == 0 {
        assert(seq![x] =~= r.insert(0, x));
    } else if precedes(x, r[0]) {
        assert(seq![x] + r =~= r.insert(0, x));
    } else {
        let t = r.drop_first();
        lemma_insert_multiset(t, x);
        let u = insert_ranked(t, x);
        assert(seq![r[0]] + u =~= u.insert(0, r[0]));
        assert(r =~= t.insert(0, r[0]));
    }
}

/// Rank order is a sort: the keys come out in rank order, and they are the same keys, each as
/// many times as it went in.
pub proof fn lemma_ranked_is_sorted_permutation(keys: Seq<RankKey>)
    ensures
        in_rank_order(ranked(keys)),
        ranked(keys).to_multiset() =~= keys.to_multiset(),
    decreases keys.len(),
{
    broadcast use vstd::seq_lib::to_multiset_build;

    if keys.len() > 0 {
        let rest = keys.drop_last();
        lemma_ranked_is_sorted_permutation(rest);
        lemma_insert_in_order(ranked(rest), keys.last());
        lemma_insert_multiset(ranked(rest), keys.last());
        assert(keys =~= rest.push(keys.last()));
        assert(rest.push(keys.last()).to_multiset() =~= rest.to_multiset().insert(keys.last()));
    } else {
        assert(ranked(keys) =~= keys);
    }
}

} // verus!
