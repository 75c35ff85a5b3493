//! Stable ordering by an integer key.
//!
//! Every ordering in the library (leaderboard ranks, popular challenges) is a
//! stable sort: items are put in order of a key, and items with equal keys keep
//! the order in which they were stored. Such an order is a permutation of the
//! positions `0..n` that is strictly increasing in the pair (key, position).
use vstd::prelude::*;

verus! {

/// Position `a` comes before position `b` in the stable order by `keys`.
pub open spec fn stable_before(keys: Seq<int>, a: int, b: int) -> bool {
    keys[a] < keys[b] || (keys[a] == keys[b] && a < b)
}

/// `ord` lists the positions of `keys` sorted by key, ties kept in position order.
pub open spec fn is_stable_order(keys: Seq<int>, ord: Seq<usize>) -> bool {
    &&& ord.len() == keys.len()
    &&& forall|i: int| 0 <= i < ord.len() ==> (#[trigger] ord[i]) < keys.len()
    &&& forall|k: usize| k < keys.len() ==> #[trigger] ord.contains(k)
    &&& forall|i: int, j: int|
        0 <= i < j < ord.len() ==> stable_before(keys, #[trigger] ord[i] as int, #[trigger] ord[j] as int)
}

/// The identity order of `n` positions.
pub open spec fn identity_order(n: nat) -> Seq<usize> {
    Seq::new(n, |i: int| i as usize)
}

/// The keys, as mathematical integers.
pub open spec fn int_keys(keys: Seq<i128>) -> Seq<int> {
    keys.map_values(|k: i128| k as int)
}

/// Stable sort by key: the positions of `keys` in ascending key order, equal
/// keys in position order.
pub fn stable_order(keys: &Vec<i128>) -> (ord: Vec<usize>)
    ensures
        is_stable_order(int_keys(keys@), ord@),
{
    let ghost ks = int_keys(keys@);
    let n = keys.len();
    let mut ord: Vec<usize> = Vec::new();
    let mut i: usize = 0;
    while i < n
        invariant
            n == keys.len(),
            ks == int_keys(keys@),
            i <= n,
            ord.len() == i,
            forall|q: int| 0 <= q < ord.len() ==> (#[trigger] ord@[q]) < i,
            forall|k: usize| k < i ==> #[trigger] ord@.contains(k),
            forall|a: int, b: int|
                0 <= a < b < ord.len() ==> stable_before(ks, #[trigger] ord@[a] as int, #[trigger] ord@[b] as int),
        decreases n - i,
    {
        let ki = keys[i];
        let mut p: usize = 0;
        while p < ord.len() && keys[ord[p]] <= ki
            invariant
                n == keys.len(),
                ks == int_keys(keys@),
                i < n,
                ki == keys@[i as int],
                p <= ord.len(),
                ord.len() == i,
                forall|q: int| 0 <= q < ord.len() ==> (#[trigger] ord@[q]) < i,
                forall|q: int| 0 <= q < p ==> ks[#[trigger] ord@[q] as int] <= ks[i as int],
            decreases ord.len() - p,
        {
            p = p + 1;
        }
        let ghost old_ord = ord@;
        ord.insert(p, i);
        proof {
            assert(ord@ == old_ord.subrange(0, p as int).push(i).add(old_ord.subrange(p as int, old_ord.len() as int)));
            assert forall|q: int| 0 <= q < ord.len() implies (#[trigger] ord@[q]) < i + 1 by {
                if q < p {
                    assert(ord@[q] == old_ord[q]);
                } else if q > p {
                    assert(ord@[q] == old_ord[q - 1]);
                }
            }
            assert forall|k: usize| k < i + 1 implies #[trigger] ord@.contains(k) by {
                if k == i {
                    assert(ord@[p as int] == i);
                } else {
                    assert(old_ord.contains(k));
                    let q = choose|q: int| 0 <= q < old_ord.len() && old_ord[q] == k;
                    if q < p {
                        assert(ord@[q] == k);
                    } else {
                        assert(ord@[q + 1] == k);
                    }
                }
            }
            assert forall|a: int, b: int| 0 <= a < b < ord.len() implies stable_before(
                ks,
                #[trigger] ord@[a] as int,
                #[trigger] ord@[b] as int,
            ) by {
                if b < p {
                    assert(ord@[a] == old_ord[a] && ord@[b] == old_ord[b]);
                } else if b == p {
                    assert(ord@[a] == old_ord[a]);
                    assert(ks[old_ord[a] as int] <= ks[i as int]);
                } else if a > p {
                    assert(ord@[a] == old_ord[a - 1] && ord@[b] == old_ord[b - 1]);
                } else if a == p {
                    // the key at old position p exceeds keys[i]; old order is sorted from there on
                    assert(ord@[b] == old_ord[b - 1]);
                    assert(ks[old_ord[p as int] as int] > ks[i as int]);
                    if b - 1 > p {
                        assert(stable_before(ks, old_ord[p as int] as int, old_ord[b - 1] as int));
                    }
                } else {
                    assert(ord@[a] == old_ord[a] && ord@[b] == old_ord[b - 1]);
                }
            }
        }
        i = i + 1;
    }
    ord
}

/// Only one order is a stable order for given keys: the stable sort is
/// deterministic.
pub proof fn lemma_stable_order_unique(keys: Seq<int>, o1: Seq<usize>, o2: Seq<usize>)
    requires
        is_stable_order(keys, o1),
        is_stable_order(keys, o2),
    ensures
        o1 == o2,
{
    assert forall|i: int| 0 <= i < o1.len() implies o1[i] == o2[i] by {
        lemma_stable_order_agree(keys, o1, o2, i);
    }
    assert(o1 =~= o2);
}

proof fn lemma_stable_order_agree(keys: Seq<int>, o1: Seq<usize>, o2: Seq<usize>, i: int)
    requires
        is_stable_order(keys, o1),
        is_stable_order(keys, o2),
        0 <= i < o1.len(),
    ensures
        forall|j: int| 0 <= j <= i ==> o1[j] == o2[j],
    decreases i,
{
    if i > 0 {
        lemma_stable_order_agree(keys, o1, o2, i - 1);
    }
    let a = o1[i];
    let b = o2[i];
    assert(o2.contains(a));
    let j = choose|j: int| 0 <= j < o2.len() && o2[j] == a;
    assert(o1.contains(b));
    let m = choose|m: int| 0 <= m < o1.len() && o1[m] == b;
    if j < i {
        assert(o1[j] == o2[j]);
        assert(stable_before(keys, o1[j] as int, o1[i] as int));
    }
    if m < i {
        assert(o1[m] == o2[m]);
        assert(stable_before(keys, o2[m] as int, o2[i] as int));
    }
    if a != b {
        assert(j != i && m != i);
        assert(stable_before(keys, o2[i] as int, o2[j] as int));
        assert(stable_before(keys, o1[i] as int, o1[m] as int));
    }
}

/// When the keys already increase strictly, the stable order leaves every
/// position where it is.
pub proof fn lemma_increasing_keys_identity(keys: Seq<int>, ord: Seq<usize>)
    requires
        is_stable_order(keys, ord),
        forall|a: int, b: int| 0 <= a < b < keys.len() ==> keys[a] < keys[b],
        keys.len() <= usize::MAX,
    ensures
        ord == identity_order(keys.len()),
{
    let id = identity_order(keys.len());
    assert forall|k: usize| k < keys.len() implies #[trigger] id.contains(k) by {
        assert(id[k as int] == k);
    }
    assert forall|a: int, b: int| 0 <= a < b < id.len() implies stable_before(
        keys,
        #[trigger] id[a] as int,
        #[trigger] id[b] as int,
    ) by {
        assert(id[a] == a && id[b] == b);
    }
    lemma_stable_order_unique(keys, ord, id);
}

/// `s` put in the order `ord`.
pub open spec fn reorder<A>(s: Seq<A>, ord: Seq<usize>) -> Seq<A> {
    Seq::new(ord.len(), |i: int| s[ord[i] as int])
}

/// Putting a sequence in the order of a permutation of its positions keeps
/// the same elements, each as often.
pub proof fn lemma_reorder_to_multiset<A>(s: Seq<A>, ord: Seq<usize>)
    requires
        ord.len() == s.len(),
        forall|i: int| 0 <= i < ord.len() ==> (#[trigger] ord[i]) < s.len(),
        forall|i: int, j: int| 0 <= i < j < ord.len() ==> (#[trigger] ord[i]) != (#[trigger] ord[j]),
    ensures
        reorder(s, ord).to_multiset() == s.to_multiset(),
    decreases s.len(),
{
    broadcast use vstd::seq_lib::group_to_multiset_ensures;

    let n = s.len();
    if n == 0 {
        assert(reorder(s, ord) =~= s);
    } else {
        let k = ord[n - 1] as int;
        let s2 = s.remove(k);
        let ord2 = Seq::new(
            (n - 1) as nat,
            |i: int|
                if ord[i] as int > k {
                    (ord[i] - 1) as usize
                } else {
                    ord[i]
                },
        );
        assert forall|i: int, j: int| 0 <= i < j < ord2.len() implies (#[trigger] ord2[i]) != (#[trigger] ord2[j]) by {
            assert(ord[i] != ord[j]);
            assert(ord[i] as int != k && ord[j] as int != k) by {
                assert(ord[i] != ord[n - 1]);
                assert(ord[j] != ord[n - 1]);
            }
        }
        assert forall|i: int| 0 <= i < ord2.len() implies (#[trigger] ord2[i]) < s2.len() by {
            assert(ord[i] != ord[n - 1]);
        }
        lemma_reorder_to_multiset(s2, ord2);
        let t = reorder(s, ord);
        assert forall|i: int| 0 <= i < n - 1 implies (#[trigger] reorder(s2, ord2)[i]) == t[i] by {
            assert(ord[i] != ord[n - 1]);
        }
        assert(reorder(s2, ord2) =~= t.drop_last());
        assert(t =~= t.drop_last().push(s[k]));
        assert(s.to_multiset().count(s[k]) > 0) by {
            assert(s.contains(s[k]));
        }
        assert(t.to_multiset() =~= s2.to_multiset().insert(s[k]));
        assert(s2.to_multiset() == s.to_multiset().remove(s[k]));
        assert(s.to_multiset().remove(s[k]).insert(s[k]) =~= s.to_multiset());
    }
}

} // verus!
