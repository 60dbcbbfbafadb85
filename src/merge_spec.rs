use crate::key_order::{key_lt, lemma_key_cmp_equal, lemma_key_lt_transitive, lemma_key_total};
use crate::storage_iterator::{strictly_sorted, Entry};
use vstd::prelude::*;

verus! {

/// Among the first `n` sources, the one whose head comes first: the smallest
/// head key, and on equal keys the smallest source index. -1 when all of
/// them are used up.
pub open spec fn pick(ss: Seq<Seq<Entry>>, n: int) -> int
    decreases n,
{
    if n <= 0 {
        -1
    } else {
        let p = pick(ss, n - 1);
        if ss[n - 1].len() == 0 {
            p
        } else if p < 0 || key_lt(ss[n - 1][0].0, ss[p][0].0) {
            n - 1
        } else {
            p
        }
    }
}

/// Every source whose head has key `k` moves past it.
pub open spec fn drop_key(ss: Seq<Seq<Entry>>, k: Seq<u8>) -> Seq<Seq<Entry>> {
    ss.map_values(
        |s: Seq<Entry>|
            if s.len() > 0 && s[0].0 == k {
                s.drop_first()
            } else {
                s
            },
    )
}

/// The sources after the advance of source `f` failed while moving every
/// source past key `k`: those before it, but the current one `c`, moved past
/// `k`; `f` itself is discarded; the others are as they were.
pub open spec fn drained_until(ss: Seq<Seq<Entry>>, k: Seq<u8>, f: int, c: int) -> Seq<Seq<Entry>> {
    Seq::new(
        ss.len(),
        |i: int|
            if i == c {
                ss[i]
            } else if i < f {
                drop_key(ss, k)[i]
            } else if i == f {
                seq![]
            } else {
                ss[i]
            },
    )
}

/// The number of elements left over all sources.
pub open spec fn total_len(ss: Seq<Seq<Entry>>) -> nat
    decreases ss.len(),
{
    if ss.len() == 0 {
        0
    } else {
        total_len(ss.drop_last()) + ss.last().len()
    }
}

/// The merged stream: repeatedly emit the first head and move every source
/// with that key past it, so each key appears once, taken from the source
/// with the smallest index.
pub open spec fn merged(ss: Seq<Seq<Entry>>) -> Seq<Entry>
    decreases total_len(ss),
    via merged_decreases
{
    let p = pick(ss, ss.len() as int);
    if p < 0 {
        seq![]
    } else {
        seq![ss[p][0]] + merged(drop_key(ss, ss[p][0].0))
    }
}

#[via_fn]
proof fn merged_decreases(ss: Seq<Seq<Entry>>) {
    let p = pick(ss, ss.len() as int);
    if p >= 0 {
        lemma_pick_range(ss, ss.len() as int);
        lemma_total_len_shrinks(drop_key(ss, ss[p][0].0), ss, p);
    }
}

/// `pick` names a non-empty source, or -1 exactly when all are empty.
pub proof fn lemma_pick_range(ss: Seq<Seq<Entry>>, n: int)
    requires
        0 <= n <= ss.len(),
    ensures
        -1 <= pick(ss, n) < n,
        pick(ss, n) >= 0 ==> ss[pick(ss, n)].len() > 0,
        pick(ss, n) < 0 <==> (forall|j: int| 0 <= j < n ==> #[trigger] ss[j].len() == 0),
    decreases n,
{
    if n > 0 {
        lemma_pick_range(ss, n - 1);
    }
}

/// Sources that each hold no more than their counterpart hold no more in
/// total, and strictly less when one of them does.
pub proof fn lemma_total_len_shrinks(a: Seq<Seq<Entry>>, b: Seq<Seq<Entry>>, i: int)
    requires
        a.len() == b.len(),
        forall|j: int| 0 <= j < a.len() ==> #[trigger] a[j].len() <= b[j].len(),
    ensures
        total_len(a) <= total_len(b),
        0 <= i < a.len() && a[i].len() < b[i].len() ==> total_len(a) < total_len(b),
    decreases a.len(),
{
    if a.len() > 0 {
        let a1 = a.drop_last();
        let b1 = b.drop_last();
        assert forall|j: int| 0 <= j < a1.len() implies #[trigger] a1[j].len() <= b1[j].len() by {
            assert(a[j].len() <= b[j].len());
        }
        lemma_total_len_shrinks(a1, b1, i);
    }
}

/// Merging sources that are all used up gives nothing.
pub proof fn lemma_merged_of_empty_sources(ss: Seq<Seq<Entry>>)
    requires
        forall|j: int| 0 <= j < ss.len() ==> #[trigger] ss[j].len() == 0,
    ensures
        merged(ss) == Seq::<Entry>::empty(),
{
    lemma_pick_range(ss, ss.len() as int);
}

/// Some element of `s` has key `k`.
pub open spec fn has_key(s: Seq<Entry>, k: Seq<u8>) -> bool {
    exists|t: int| 0 <= t < s.len() && #[trigger] s[t].0 == k
}

/// `e` stands in source `i`, and no source before `i` holds its key.
pub open spec fn first_holder(ss: Seq<Seq<Entry>>, e: Entry, i: int) -> bool {
    &&& 0 <= i < ss.len()
    &&& ss[i].contains(e)
    &&& forall|i2: int| 0 <= i2 < i ==> !has_key(#[trigger] ss[i2], e.0)
}

/// `e` is the element that the merge owes for its key: it stands in the
/// first source that holds that key.
pub open spec fn surfaces(ss: Seq<Seq<Entry>>, e: Entry) -> bool {
    exists|i: int| #[trigger] first_holder(ss, e, i)
}

/// The head that `pick` names comes first: no head has a smaller key, and
/// a head with the same key stands at a later position.
pub proof fn lemma_pick_min(ss: Seq<Seq<Entry>>, n: int)
    requires
        0 <= n <= ss.len(),
        pick(ss, n) >= 0,
    ensures
        forall|j: int|
            0 <= j < n && #[trigger] ss[j].len() > 0 ==> {
                &&& !key_lt(ss[j][0].0, ss[pick(ss, n)][0].0)
                &&& ss[j][0].0 == ss[pick(ss, n)][0].0 ==> pick(ss, n) <= j
            },
    decreases n,
{
    let p = pick(ss, n);
    let q = pick(ss, n - 1);
    lemma_pick_range(ss, n - 1);
    if q >= 0 {
        lemma_pick_min(ss, n - 1);
    }
    assert forall|j: int| 0 <= j < n && #[trigger] ss[j].len() > 0 implies {
        &&& !key_lt(ss[j][0].0, ss[p][0].0)
        &&& ss[j][0].0 == ss[p][0].0 ==> p <= j
    } by {
        lemma_key_cmp_equal(ss[j][0].0, ss[j][0].0);
        if p == n - 1 && j < n - 1 && q >= 0 {
            if key_lt(ss[j][0].0, ss[p][0].0) {
                lemma_key_lt_transitive(ss[j][0].0, ss[p][0].0, ss[q][0].0);
            }
        }
    }
}

/// Past the head, every element of a source has a key above the picked one;
/// a head may equal it only at or after the picked position.
proof fn lemma_above_pick(ss: Seq<Seq<Entry>>, i: int, t: int)
    requires
        forall|j: int| 0 <= j < ss.len() ==> strictly_sorted(#[trigger] ss[j]),
        pick(ss, ss.len() as int) >= 0,
        0 <= i < ss.len(),
        0 <= t < ss[i].len(),
    ensures
        ({
            let k = ss[pick(ss, ss.len() as int)][0].0;
            &&& !key_lt(ss[i][t].0, k)
            &&& ss[i][t].0 == k ==> t == 0 && pick(ss, ss.len() as int) <= i
            &&& t > 0 ==> key_lt(k, ss[i][t].0)
        }),
{
    let p = pick(ss, ss.len() as int);
    let k = ss[p][0].0;
    let hd = ss[i][0].0;
    let e = ss[i][t].0;
    lemma_pick_min(ss, ss.len() as int);
    assert(ss[i].len() > 0);
    lemma_key_cmp_equal(k, k);
    lemma_key_cmp_equal(e, e);
    if t > 0 {
        assert(strictly_sorted(ss[i]));
        assert(key_lt(hd, e));
        lemma_key_total(hd, k);
        if hd != k {
            lemma_key_lt_transitive(k, hd, e);
        }
        if key_lt(e, k) {
            lemma_key_lt_transitive(hd, e, k);
        }
    }
}

/// The merge is strictly sorted by key, and holds exactly the elements that
/// stand in the first source holding their key: when several sources hold a
/// key, only the element of the one with the smallest index comes out.
pub proof fn lemma_merged_keeps_first_source(ss: Seq<Seq<Entry>>)
    requires
        forall|i: int| 0 <= i < ss.len() ==> strictly_sorted(#[trigger] ss[i]),
    ensures
        strictly_sorted(merged(ss)),
        forall|e: Entry| merged(ss).contains(e) <==> surfaces(ss, e),
    decreases total_len(ss),
{
    let n = ss.len() as int;
    let p = pick(ss, n);
    lemma_pick_range(ss, n);
    if p < 0 {
        assert forall|e: Entry| !surfaces(ss, e) by {
            if surfaces(ss, e) {
                let i = choose|i: int| #[trigger] first_holder(ss, e, i);
                assert(ss[i].len() == 0);
            }
        }
    } else {
        let h = ss[p][0];
        let k = h.0;
        let ss2 = drop_key(ss, k);
        lemma_total_len_shrinks(ss2, ss, p);
        assert forall|i: int| 0 <= i < ss2.len() implies strictly_sorted(#[trigger] ss2[i]) by {
            assert(strictly_sorted(ss[i]));
            if ss[i].len() > 0 && ss[i][0].0 == k {
                assert forall|a: int, b: int| 0 <= a < b < ss2[i].len() implies key_lt(
                    #[trigger] ss2[i][a].0,
                    #[trigger] ss2[i][b].0,
                ) by {
                    assert(ss2[i][a] == ss[i][a + 1]);
                    assert(ss2[i][b] == ss[i][b + 1]);
                }
            }
        }
        lemma_merged_keeps_first_source(ss2);
        let m2 = merged(ss2);
        // What is left past the picked key lies above it.
        assert forall|i: int, t: int| 0 <= i < n && 0 <= t < ss2[i].len() implies key_lt(
            k,
            #[trigger] ss2[i][t].0,
        ) by {
            if ss[i].len() > 0 && ss[i][0].0 == k {
                assert(ss2[i] == ss[i].drop_first());
                assert(ss2[i][t] == ss[i][t + 1]);
                lemma_above_pick(ss, i, t + 1);
            } else {
                assert(ss2[i] == ss[i]);
                lemma_above_pick(ss, i, t);
                lemma_key_total(ss[i][t].0, k);
            }
        }
        assert forall|a: int| 0 <= a < m2.len() implies key_lt(k, #[trigger] m2[a].0) by {
            assert(m2.contains(m2[a]));
            assert(surfaces(ss2, m2[a]));
            let i = choose|i: int| #[trigger] first_holder(ss2, m2[a], i);
            assert(ss2[i].contains(m2[a]));
            let t = choose|t: int| 0 <= t < ss2[i].len() && ss2[i][t] == m2[a];
            assert(key_lt(k, ss2[i][t].0));
        }
        let m = merged(ss);
        assert(m == seq![h] + m2);
        assert forall|a: int, b: int| 0 <= a < b < m.len() implies key_lt(
            #[trigger] m[a].0,
            #[trigger] m[b].0,
        ) by {
            if a > 0 {
                assert(m[a] == m2[a - 1]);
                assert(m[b] == m2[b - 1]);
            } else {
                assert(m[b] == m2[b - 1]);
            }
        }
        assert forall|e: Entry| m.contains(e) <==> surfaces(ss, e) by {
            lemma_key_cmp_equal(k, k);
            if e.0 == k {
                if m2.contains(e) {
                    let a = choose|a: int| 0 <= a < m2.len() && m2[a] == e;
                    assert(key_lt(k, m2[a].0));
                }
                if m.contains(e) {
                    let a = choose|a: int| 0 <= a < m.len() && m[a] == e;
                    if a > 0 {
                        assert(m2[a - 1] == e);
                        assert(key_lt(k, m2[a - 1].0));
                    }
                    assert(e == h);
                }
                if e == h {
                    assert(m[0] == e);
                }
                if e == h {
                    assert(ss[p][0] == e);
                    assert forall|i2: int| 0 <= i2 < p implies !has_key(#[trigger] ss[i2], e.0) by {
                        if has_key(ss[i2], e.0) {
                            let t = choose|t: int| 0 <= t < ss[i2].len() && #[trigger] ss[i2][t].0 == e.0;
                            lemma_above_pick(ss, i2, t);
                        }
                    }
                    assert(first_holder(ss, e, p));
                }
                if surfaces(ss, e) {
                    let i = choose|i: int| #[trigger] first_holder(ss, e, i);
                    let t = choose|t: int| 0 <= t < ss[i].len() && ss[i][t] == e;
                    assert(ss[i][t].0 == k);
                    lemma_above_pick(ss, i, t);
                    if i > p {
                        assert(ss[p][0].0 == e.0);
                        assert(has_key(ss[p], e.0));
                    }
                    assert(e == h);
                }
            } else {
                assert forall|i: int| 0 <= i < n implies (#[trigger] ss[i].contains(e) <==> ss2[i].contains(e)) && (has_key(ss[i], e.0) <==> has_key(ss2[i], e.0)) by {
                    if ss[i].len() > 0 && ss[i][0].0 == k {
                        if ss[i].contains(e) {
                            let t = choose|t: int| 0 <= t < ss[i].len() && ss[i][t] == e;
                            assert(ss2[i][t - 1] == e);
                        }
                        if ss2[i].contains(e) {
                            let t = choose|t: int| 0 <= t < ss2[i].len() && ss2[i][t] == e;
                            assert(ss[i][t + 1] == e);
                        }
                        if has_key(ss[i], e.0) {
                            let t = choose|t: int| 0 <= t < ss[i].len() && #[trigger] ss[i][t].0 == e.0;
                            assert(ss2[i][t - 1].0 == e.0);
                        }
                        if has_key(ss2[i], e.0) {
                            let t = choose|t: int| 0 <= t < ss2[i].len() && #[trigger] ss2[i][t].0 == e.0;
                            assert(ss[i][t + 1].0 == e.0);
                        }
                    }
                }
                if surfaces(ss, e) {
                    let i = choose|i: int| #[trigger] first_holder(ss, e, i);
                    assert(ss[i].contains(e) <==> ss2[i].contains(e));
                    assert forall|i2: int| 0 <= i2 < i implies !has_key(#[trigger] ss2[i2], e.0) by {
                        assert(ss[i2].contains(e) <==> ss2[i2].contains(e));
                        assert(!has_key(ss[i2], e.0));
                    }
                    assert(first_holder(ss2, e, i));
                }
                if surfaces(ss2, e) {
                    let i = choose|i: int| #[trigger] first_holder(ss2, e, i);
                    assert(ss[i].contains(e) <==> ss2[i].contains(e));
                    assert forall|i2: int| 0 <= i2 < i implies !has_key(#[trigger] ss[i2], e.0) by {
                        assert(ss[i2].contains(e) <==> ss2[i2].contains(e));
                        assert(!has_key(ss2[i2], e.0));
                    }
                    assert(first_holder(ss, e, i));
                }
                assert(m.contains(e) <==> m2.contains(e)) by {
                    if m2.contains(e) {
                        let a = choose|a: int| 0 <= a < m2.len() && m2[a] == e;
                        assert(m[a + 1] == e);
                    }
                    if m.contains(e) {
                        let a = choose|a: int| 0 <= a < m.len() && m[a] == e;
                        assert(a > 0);
                        assert(m2[a - 1] == e);
                    }
                }
            }
        }
    }
}

/// Sources that share no key merge into their sorted union: the merge is
/// strictly sorted and holds exactly the elements of all of them.
pub proof fn lemma_disjoint_merge_is_sorted_union(ss: Seq<Seq<Entry>>)
    requires
        forall|i: int| 0 <= i < ss.len() ==> strictly_sorted(#[trigger] ss[i]),
        forall|i: int, j: int, k: Seq<u8>|
            0 <= i < ss.len() && 0 <= j < ss.len() && i != j && #[trigger] has_key(ss[i], k)
                ==> !#[trigger] has_key(ss[j], k),
    ensures
        strictly_sorted(merged(ss)),
        forall|e: Entry|
            merged(ss).contains(e) <==> exists|i: int| 0 <= i < ss.len() && #[trigger] ss[i].contains(e),
{
    lemma_merged_keeps_first_source(ss);
    assert forall|e: Entry| merged(ss).contains(e) <==> exists|i: int| 0 <= i < ss.len() && #[trigger] ss[i].contains(e) by {
        if exists|i: int| 0 <= i < ss.len() && #[trigger] ss[i].contains(e) {
            let i = choose|i: int| 0 <= i < ss.len() && #[trigger] ss[i].contains(e);
            let t = choose|t: int| 0 <= t < ss[i].len() && ss[i][t] == e;
            assert(has_key(ss[i], e.0));
            assert forall|i2: int| 0 <= i2 < i implies !has_key(#[trigger] ss[i2], e.0) by {}
            assert(first_holder(ss, e, i));
            assert(surfaces(ss, e));
            assert(merged(ss).contains(e));
        }
        if merged(ss).contains(e) {
            assert(surfaces(ss, e));
            let i = choose|i: int| #[trigger] first_holder(ss, e, i);
            assert(ss[i].contains(e));
        }
    }
}

} // verus!
