use vstd::prelude::*;

verus! {

/// A selector's specificity: its count of ids, of classes, of tag names.
pub type Specificity = (usize, usize, usize);

/// A specificity as a triple of integers.
pub type Rank = (int, int, int);

pub open spec fn rank(s: Specificity) -> Rank {
    (s.0 as int, s.1 as int, s.2 as int)
}

/// The order of specificities: lexicographic, as tuples compare.
pub open spec fn rank_le(a: Rank, b: Rank) -> bool {
    ||| a.0 < b.0
    ||| (a.0 == b.0 && a.1 < b.1)
    ||| (a.0 == b.0 && a.1 == b.1 && a.2 <= b.2)
}

/// `a <= b` for specificities, as tuples compare.
pub fn specificity_le(a: Specificity, b: Specificity) -> (r: bool)
    ensures
        r == rank_le(rank(a), rank(b)),
{
    a.0 < b.0 || (a.0 == b.0 && a.1 < b.1) || (a.0 == b.0 && a.1 == b.1 && a.2 <= b.2)
}

/// `x` put into `sorted` after the last element whose key is not greater
/// than its own.
pub open spec fn insert_sorted<T>(sorted: Seq<T>, x: T, key: spec_fn(T) -> Rank) -> Seq<T>
    decreases sorted.len(),
{
    if sorted.len() == 0 {
        seq![x]
    } else if rank_le(key(sorted.last()), key(x)) {
        sorted.push(x)
    } else {
        insert_sorted(sorted.drop_last(), x, key).push(sorted.last())
    }
}

/// The stable sort of `s` by `key`: what `sort_by_key` gives.
pub open spec fn sort_by_key<T>(s: Seq<T>, key: spec_fn(T) -> Rank) -> Seq<T>
    decreases s.len(),
{
    if s.len() == 0 {
        Seq::empty()
    } else {
        insert_sorted(sort_by_key(s.drop_last(), key), s.last(), key)
    }
}

pub open spec fn sorted_by<T>(s: Seq<T>, key: spec_fn(T) -> Rank) -> bool {
    forall|i: int, j: int| 0 <= i <= j < s.len() ==> rank_le(key(s[i]), key(s[j]))
}

pub open spec fn pair_key<T>() -> spec_fn((Specificity, T)) -> Rank {
    |p: (Specificity, T)| rank(p.0)
}

// ---------------------------------------------------------------------------
// Facts about the sort
// ---------------------------------------------------------------------------

proof fn lemma_insert_sorted_at<T>(sorted: Seq<T>, x: T, key: spec_fn(T) -> Rank, p: int)
    requires
        0 <= p <= sorted.len(),
        forall|k: int| p <= k < sorted.len() ==> !rank_le(key(#[trigger] sorted[k]), key(x)),
        p == 0 || rank_le(key(sorted[p - 1]), key(x)),
    ensures
        insert_sorted(sorted, x, key) == sorted.insert(p, x),
    decreases sorted.len(),
{
    if sorted.len() == 0 {
        assert(sorted.insert(p, x) =~= seq![x]);
    } else if p == sorted.len() {
        assert(sorted.insert(p, x) =~= sorted.push(x));
    } else {
        assert(!rank_le(key(sorted[sorted.len() - 1]), key(x)));
        let d = sorted.drop_last();
        assert forall|k: int| p <= k < d.len() implies !rank_le(key(#[trigger] d[k]), key(x)) by {
            assert(d[k] == sorted[k]);
        }
        lemma_insert_sorted_at(d, x, key, p);
        assert(d.insert(p, x).push(sorted.last()) =~= sorted.insert(p, x));
    }
}

proof fn lemma_insert_sorted_multiset<T>(sorted: Seq<T>, x: T, key: spec_fn(T) -> Rank)
    ensures
        insert_sorted(sorted, x, key).to_multiset() == sorted.to_multiset().insert(x),
    decreases sorted.len(),
{
    broadcast use vstd::seq_lib::group_seq_properties;

    if sorted.len() > 0 && !rank_le(key(sorted.last()), key(x)) {
        lemma_insert_sorted_multiset(sorted.drop_last(), x, key);
        assert(sorted =~= sorted.drop_last().push(sorted.last()));
        assert(sorted.to_multiset() =~= sorted.drop_last().to_multiset().insert(sorted.last()));
        assert(insert_sorted(sorted, x, key).to_multiset() =~= sorted.to_multiset().insert(x));
    }
}

proof fn lemma_rank_total(a: Rank, b: Rank)
    ensures
        rank_le(a, b) || rank_le(b, a),
        rank_le(a, b) && rank_le(b, a) ==> a == b,
{
}

proof fn lemma_rank_trans(a: Rank, b: Rank, c: Rank)
    requires
        rank_le(a, b),
        rank_le(b, c),
    ensures
        rank_le(a, c),
{
}

proof fn lemma_insert_sorted_sorted<T>(sorted: Seq<T>, x: T, key: spec_fn(T) -> Rank)
    requires
        sorted_by(sorted, key),
    ensures
        sorted_by(insert_sorted(sorted, x, key), key),
        insert_sorted(sorted, x, key).len() == sorted.len() + 1,
        forall|k: int|
            0 <= k < insert_sorted(sorted, x, key).len() ==> (#[trigger] insert_sorted(
                sorted,
                x,
                key,
            )[k] == x || sorted.contains(insert_sorted(sorted, x, key)[k])),
    decreases sorted.len(),
{
    let r = insert_sorted(sorted, x, key);
    if sorted.len() == 0 {
    } else if rank_le(key(sorted.last()), key(x)) {
        assert forall|i: int, j: int| 0 <= i <= j < r.len() implies rank_le(
            key(r[i]),
            key(r[j]),
        ) by {
            if j == r.len() - 1 && i < j {
                lemma_rank_trans(key(sorted[i]), key(sorted.last()), key(x));
            }
        }
        assert forall|k: int| 0 <= k < r.len() implies (#[trigger] r[k] == x || sorted.contains(
            r[k],
        )) by {
            if k < sorted.len() {
                assert(sorted[k] == r[k]);
            }
        }
    } else {
        let d = sorted.drop_last();
        let last = sorted.last();
        assert(sorted_by(d, key));
        lemma_insert_sorted_sorted(d, x, key);
        let rd = insert_sorted(d, x, key);
        lemma_rank_total(key(last), key(x));
        assert forall|k: int| 0 <= k < rd.len() implies rank_le(key(#[trigger] rd[k]), key(last)) by {
            if rd[k] == x {
            } else {
                let m = choose|m: int| 0 <= m < d.len() && d[m] == rd[k];
                assert(sorted[m] == d[m]);
            }
        }
        assert forall|i: int, j: int| 0 <= i <= j < r.len() implies rank_le(
            key(r[i]),
            key(r[j]),
        ) by {
            if j == r.len() - 1 && i < j {
                assert(r[i] == rd[i]);
            } else if i < j {
                assert(r[i] == rd[i] && r[j] == rd[j]);
            }
        }
        assert forall|k: int| 0 <= k < r.len() implies (#[trigger] r[k] == x || sorted.contains(
            r[k],
        )) by {
            if k < rd.len() {
                assert(r[k] == rd[k]);
                if rd[k] != x {
                    let m = choose|m: int| 0 <= m < d.len() && d[m] == rd[k];
                    assert(sorted[m] == d[m]);
                }
            } else {
                assert(sorted[sorted.len() - 1] == r[k]);
            }
        }
    }
}

/// The sort of a sequence is ordered by the key.
pub proof fn lemma_sort_sorted<T>(s: Seq<T>, key: spec_fn(T) -> Rank)
    ensures
        sorted_by(sort_by_key(s, key), key),
        sort_by_key(s, key).len() == s.len(),
    decreases s.len(),
{
    if s.len() > 0 {
        lemma_sort_sorted(s.drop_last(), key);
        lemma_insert_sorted_sorted(sort_by_key(s.drop_last(), key), s.last(), key);
    }
}

/// The sort of a sequence holds the same elements, as often.
pub proof fn lemma_sort_multiset<T>(s: Seq<T>, key: spec_fn(T) -> Rank)
    ensures
        sort_by_key(s, key).to_multiset() == s.to_multiset(),
    decreases s.len(),
{
    broadcast use vstd::seq_lib::group_seq_properties;

    if s.len() > 0 {
        lemma_sort_multiset(s.drop_last(), key);
        lemma_insert_sorted_multiset(sort_by_key(s.drop_last(), key), s.last(), key);
        assert(s =~= s.drop_last().push(s.last()));
        assert(s.to_multiset() =~= s.drop_last().to_multiset().insert(s.last()));
    }
}

pub open spec fn rank_is<T>(key: spec_fn(T) -> Rank, r: Rank) -> spec_fn(T) -> bool {
    |x: T| key(x) == r
}

proof fn lemma_filter_push<T>(s: Seq<T>, a: T, p: spec_fn(T) -> bool)
    ensures
        s.push(a).filter(p) == if p(a) {
            s.filter(p).push(a)
        } else {
            s.filter(p)
        },
{
    reveal(Seq::filter);
    assert(s.push(a).drop_last() =~= s);
}

proof fn lemma_insert_sorted_filter<T>(sorted: Seq<T>, x: T, key: spec_fn(T) -> Rank, r: Rank)
    ensures
        insert_sorted(sorted, x, key).filter(rank_is(key, r)) == if key(x) == r {
            sorted.filter(rank_is(key, r)).push(x)
        } else {
            sorted.filter(rank_is(key, r))
        },
    decreases sorted.len(),
{
    let p = rank_is(key, r);
    if sorted.len() == 0 {
        lemma_filter_push(Seq::<T>::empty(), x, p);
        assert(seq![x] =~= Seq::<T>::empty().push(x));
        reveal(Seq::filter);
    } else if rank_le(key(sorted.last()), key(x)) {
        lemma_filter_push(sorted, x, p);
    } else {
        let d = sorted.drop_last();
        let last = sorted.last();
        lemma_insert_sorted_filter(d, x, key, r);
        lemma_filter_push(insert_sorted(d, x, key), last, p);
        lemma_filter_push(d, last, p);
        assert(d.push(last) =~= sorted);
    }
}

/// The sort is stable: the elements of any one rank keep the order that
/// they had.
pub proof fn lemma_sort_stable<T>(s: Seq<T>, key: spec_fn(T) -> Rank, r: Rank)
    ensures
        sort_by_key(s, key).filter(rank_is(key, r)) == s.filter(rank_is(key, r)),
    decreases s.len(),
{
    if s.len() == 0 {
        reveal(Seq::filter);
    } else {
        let d = s.drop_last();
        lemma_sort_stable(d, key, r);
        lemma_insert_sorted_filter(sort_by_key(d, key), s.last(), key, r);
        lemma_filter_push(d, s.last(), rank_is(key, r));
        assert(d.push(s.last()) =~= s);
    }
}

/// Specificities compare as tuples: ids first, then classes, then tag
/// names. A specificity that is smaller as a tuple is below the other and
/// not above it.
pub proof fn lemma_rank_le_is_tuple_order(a: Rank, b: Rank)
    requires
        a.0 < b.0 || (a.0 == b.0 && a.1 < b.1) || (a.0 == b.0 && a.1 == b.1 && a.2 < b.2),
    ensures
        rank_le(a, b),
        !rank_le(b, a),
{
}

/// The sort orders by tuple order: no element's key is smaller, as a
/// tuple, than the key of an element before it.
pub proof fn lemma_sort_by_tuple_order<T>(s: Seq<T>, key: spec_fn(T) -> Rank)
    ensures
        forall|p: int, q: int|
            0 <= p < q < sort_by_key(s, key).len() ==> !({
                let a = key(#[trigger] sort_by_key(s, key)[q]);
                let b = key(#[trigger] sort_by_key(s, key)[p]);
                a.0 < b.0 || (a.0 == b.0 && a.1 < b.1) || (a.0 == b.0 && a.1 == b.1 && a.2 < b.2)
            }),
{
    lemma_sort_sorted(s, key);
    let t = sort_by_key(s, key);
    assert forall|p: int, q: int| 0 <= p < q < t.len() implies !({
        let a = key(#[trigger] t[q]);
        let b = key(#[trigger] t[p]);
        a.0 < b.0 || (a.0 == b.0 && a.1 < b.1) || (a.0 == b.0 && a.1 == b.1 && a.2 < b.2)
    }) by {
        let a = key(t[q]);
        let b = key(t[p]);
        assert(rank_le(b, a));
        if a.0 < b.0 || (a.0 == b.0 && a.1 < b.1) || (a.0 == b.0 && a.1 == b.1 && a.2 < b.2) {
            lemma_rank_le_is_tuple_order(a, b);
        }
    }
}

/// The order of specificities is total and transitive.
pub proof fn lemma_rank_order(a: Rank, b: Rank, c: Rank)
    ensures
        rank_le(a, a),
        rank_le(a, b) || rank_le(b, a),
        rank_le(a, b) && rank_le(b, a) ==> a == b,
        rank_le(a, b) && rank_le(b, c) ==> rank_le(a, c),
{
}

/// Sorting commutes with a map `f` that keeps the keys.
pub proof fn lemma_sort_map<A, B>(
    s: Seq<A>,
    f: spec_fn(A) -> B,
    ka: spec_fn(A) -> Rank,
    kb: spec_fn(B) -> Rank,
)
    requires
        forall|i: int| 0 <= i < s.len() ==> ka(#[trigger] s[i]) == kb(f(s[i])),
    ensures
        sort_by_key(s, ka).map_values(f) == sort_by_key(s.map_values(f), kb),
    decreases s.len(),
{
    broadcast use vstd::seq_lib::group_seq_properties;

    if s.len() > 0 {
        let d = s.drop_last();
        assert forall|i: int| 0 <= i < d.len() implies ka(#[trigger] d[i]) == kb(f(d[i])) by {
            assert(d[i] == s[i]);
        }
        lemma_sort_map(d, f, ka, kb);
        assert(s.map_values(f).drop_last() =~= d.map_values(f));
        lemma_sort_multiset(d, ka);
        assert forall|x: A| #[trigger] sort_by_key(d, ka).contains(x) implies ka(x) == kb(f(x)) by {
            assert(sort_by_key(d, ka).to_multiset().count(x) > 0);
            assert(d.to_multiset().count(x) > 0);
            assert(d.contains(x));
            let k = choose|k: int| 0 <= k < d.len() && d[k] == x;
            assert(ka(d[k]) == kb(f(d[k])));
        }
        lemma_insert_map(sort_by_key(d, ka), s.last(), f, ka, kb);
    }
}

proof fn lemma_insert_map<A, B>(
    sorted: Seq<A>,
    x: A,
    f: spec_fn(A) -> B,
    ka: spec_fn(A) -> Rank,
    kb: spec_fn(B) -> Rank,
)
    requires
        forall|y: A| #[trigger] sorted.contains(y) ==> ka(y) == kb(f(y)),
        ka(x) == kb(f(x)),
    ensures
        insert_sorted(sorted, x, ka).map_values(f) == insert_sorted(sorted.map_values(f), f(x), kb),
    decreases sorted.len(),
{
    if sorted.len() == 0 {
        assert(seq![x].map_values(f) =~= seq![f(x)]);
    } else {
        let m = sorted.map_values(f);
        assert(sorted.contains(sorted.last()));
        assert(m.last() == f(sorted.last()));
        if rank_le(ka(sorted.last()), ka(x)) {
            assert(sorted.push(x).map_values(f) =~= m.push(f(x)));
        } else {
            let d = sorted.drop_last();
            assert forall|y: A| #[trigger] d.contains(y) implies ka(y) == kb(f(y)) by {
                let k = choose|k: int| 0 <= k < d.len() && d[k] == y;
                assert(sorted[k] == d[k]);
                assert(sorted.contains(y));
            }
            lemma_insert_map(d, x, f, ka, kb);
            assert(m.drop_last() =~= d.map_values(f));
            assert(insert_sorted(d, x, ka).push(sorted.last()).map_values(f) =~= insert_sorted(
                d,
                x,
                ka,
            ).map_values(f).push(f(sorted.last())));
        }
    }
}

// ---------------------------------------------------------------------------
// The exec sort
// ---------------------------------------------------------------------------

/// Sorts pairs by their specificity, keeping the order of pairs whose
/// specificities are equal.
pub fn sort_by_specificity<T>(v: Vec<(Specificity, T)>) -> (r: Vec<(Specificity, T)>)
    ensures
        r@ == sort_by_key(v@, pair_key()),
{
    let ghost orig = v@;
    let mut v = v;
    let mut r: Vec<(Specificity, T)> = Vec::new();
    let mut taken: usize = 0;
    proof {
        assert(orig.take(0) =~= Seq::<(Specificity, T)>::empty());
        assert(orig.skip(0) =~= orig);
    }
    let _n = v.len();
    while v.len() > 0
        invariant
            orig.len() == _n,
            taken <= orig.len(),
            v@ == orig.skip(taken as int),
            r@ == sort_by_key(orig.take(taken as int), pair_key()),
        decreases v.len(),
    {
        let x = v.remove(0);
        let ghost xs = x;
        let mut p = r.len();
        while p > 0 && !specificity_le(r[p - 1].0, x.0)
            invariant
                p <= r@.len(),
                xs.0 == x.0,
                forall|k: int| p <= k < r@.len() ==> !rank_le(rank((#[trigger] r@[k]).0), rank(xs.0)),
            decreases p,
        {
            p = p - 1;
        }
        proof {
            let key = pair_key::<T>();
            assert forall|k: int| p <= k < r@.len() implies !rank_le(
                key(#[trigger] r@[k]),
                key(xs),
            ) by {
                assert(key(r@[k]) == rank(r@[k].0));
            }
            if p > 0 {
                assert(key(r@[p - 1]) == rank(r@[p - 1].0));
            }
            lemma_insert_sorted_at(r@, xs, key, p as int);
            assert(orig.take(taken + 1).drop_last() =~= orig.take(taken as int));
            assert(orig.skip(taken as int)[0] == orig[taken as int]);
            assert(v@ =~= orig.skip(taken + 1));
        }
        r.insert(p, x);
        taken = taken + 1;
    }
    proof {
        assert(orig.take(taken as int) =~= orig);
    }
    r
}

} // verus!
