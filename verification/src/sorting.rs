//! Ascending order on sequences of ratings: what "sorted" means, the sorted
//! rearrangement of a sequence, and an executable insertion sort proved to
//! produce it.
use vstd::prelude::*;

verus! {

broadcast use vstd::seq_lib::group_to_multiset_ensures, vstd::multiset::group_multiset_axioms;

/// `s` is in ascending order.
pub open spec fn sorted(s: Seq<u64>) -> bool {
    forall|i: int, j: int| 0 <= i <= j < s.len() ==> s[i] <= s[j]
}

/// `s` with `x` placed in front of the first element that is not smaller than it.
pub open spec fn insert_sorted(s: Seq<u64>, x: u64) -> Seq<u64>
    decreases s.len(),
{
    if s.len() == 0 {
        seq![x]
    } else if x <= s[0] {
        seq![x] + s
    } else {
        seq![s[0]] + insert_sorted(s.drop_first(), x)
    }
}

/// The ascending rearrangement of `s`.
pub open spec fn sort_seq(s: Seq<u64>) -> Seq<u64>
    decreases s.len(),
{
    if s.len() == 0 {
        s
    } else {
        insert_sorted(sort_seq(s.drop_last()), s.last())
    }
}

proof fn lemma_multiset_cons(x: u64, s: Seq<u64>)
    ensures
        (seq![x] + s).to_multiset() =~= s.to_multiset().insert(x),
{
    let c = seq![x] + s;
    assert(c.remove(0) =~= s);
    assert(c[0] == x);
    assert(c.contains(x));
}

proof fn lemma_insert_sorted(s: Seq<u64>, x: u64)
    requires
        sorted(s),
    ensures
        sorted(insert_sorted(s, x)),
        insert_sorted(s, x).len() == s.len() + 1,
        insert_sorted(s, x).to_multiset() =~= s.to_multiset().insert(x),
    decreases s.len(),
{
    let r = insert_sorted(s, x);
    if s.len() == 0 {
        lemma_multiset_cons(x, s);
        assert(r =~= seq![x] + s);
    } else if x <= s[0] {
        lemma_multiset_cons(x, s);
    } else {
        let rest = s.drop_first();
        assert(sorted(rest));
        lemma_insert_sorted(rest, x);
        let t = insert_sorted(rest, x);
        lemma_multiset_cons(s[0], t);
        assert(s =~= seq![s[0]] + rest);
        lemma_multiset_cons(s[0], rest);
        assert forall|k: int| 0 <= k < t.len() implies s[0] <= #[trigger] t[k] by {
            assert(t.contains(t[k]));
            assert(t.to_multiset().count(t[k]) > 0);
            if t[k] != x {
                assert(rest.to_multiset().count(t[k]) > 0);
                assert(rest.contains(t[k]));
            }
        }
        assert forall|i: int, j: int| 0 <= i <= j < r.len() implies r[i] <= r[j] by {
            if i > 0 {
                assert(r[i] == t[i - 1]);
                assert(r[j] == t[j - 1]);
            } else {
                if j > 0 {
                    assert(r[j] == t[j - 1]);
                }
            }
        }
    }
}

/// Where the first element not smaller than `x` stands at `p`, placing `x`
/// in front of it is a plain insertion at `p`.
pub proof fn lemma_insert_sorted_at(s: Seq<u64>, x: u64, p: int)
    requires
        0 <= p <= s.len(),
        forall|i: int| 0 <= i < p ==> s[i] < x,
        p < s.len() ==> x <= s[p],
    ensures
        insert_sorted(s, x) =~= s.insert(p, x),
    decreases s.len(),
{
    if s.len() == 0 {
    } else if x <= s[0] {
        assert(p == 0);
    } else {
        let rest = s.drop_first();
        assert(p >= 1);
        lemma_insert_sorted_at(rest, x, p - 1);
        assert(seq![s[0]] + rest.insert(p - 1, x) =~= s.insert(p, x));
    }
}

/// The ascending rearrangement is in ascending order and holds the same
/// elements, each as often, as the sequence it came from.
pub proof fn lemma_sort_seq(s: Seq<u64>)
    ensures
        sorted(sort_seq(s)),
        sort_seq(s).len() == s.len(),
        sort_seq(s).to_multiset() =~= s.to_multiset(),
    decreases s.len(),
{
    if s.len() > 0 {
        let init = s.drop_last();
        lemma_sort_seq(init);
        lemma_insert_sorted(sort_seq(init), s.last());
        assert(init.push(s.last()) =~= s);
    }
}

/// Two ascending sequences with the same elements, each as often, are equal.
pub proof fn lemma_sorted_unique(a: Seq<u64>, b: Seq<u64>)
    requires
        sorted(a),
        sorted(b),
        a.to_multiset() == b.to_multiset(),
    ensures
        a == b,
    decreases a.len(),
{
    assert(a.len() == a.to_multiset().len());
    assert(b.len() == b.to_multiset().len());
    if a.len() > 0 {
        assert(a.contains(a[0]));
        assert(b.to_multiset().count(a[0]) > 0);
        assert(b.contains(a[0]));
        let j = choose|j: int| 0 <= j < b.len() && b[j] == a[0];
        assert(b[0] <= b[j]);
        assert(b.contains(b[0]));
        assert(a.to_multiset().count(b[0]) > 0);
        assert(a.contains(b[0]));
        let k = choose|k: int| 0 <= k < a.len() && a[k] == b[0];
        assert(a[0] <= a[k]);
        assert(a[0] == b[0]);
        assert(a.remove(0) =~= a.drop_first());
        assert(b.remove(0) =~= b.drop_first());
        assert(a.remove(0).to_multiset() == a.to_multiset().remove(a[0]));
        assert(b.remove(0).to_multiset() == b.to_multiset().remove(b[0]));
        lemma_sorted_unique(a.drop_first(), b.drop_first());
        assert forall|i: int| 0 <= i < a.len() implies a[i] == b[i] by {
            if i > 0 {
                assert(a[i] == a.drop_first()[i - 1]);
                assert(b[i] == b.drop_first()[i - 1]);
            }
        }
        assert(a =~= b);
    }
}

/// Rearranging a sequence does not change its ascending rearrangement.
pub proof fn lemma_sort_seq_rearranged(s: Seq<u64>, t: Seq<u64>)
    requires
        s.to_multiset() == t.to_multiset(),
    ensures
        sort_seq(s) == sort_seq(t),
{
    lemma_sort_seq(s);
    lemma_sort_seq(t);
    lemma_sorted_unique(sort_seq(s), sort_seq(t));
}

/// The elements of `v` in ascending order.
pub fn sort_ascending(v: &Vec<u64>) -> (r: Vec<u64>)
    ensures
        r@ == sort_seq(v@),
{
    let mut out: Vec<u64> = Vec::new();
    let n = v.len();
    let mut i: usize = 0;
    while i < n
        invariant
            n == v.len(),
            i <= n,
            out@ == sort_seq(v@.take(i as int)),
        decreases n - i,
    {
        let x = v[i];
        proof {
            lemma_sort_seq(v@.take(i as int));
        }
        let mut p: usize = 0;
        while p < out.len() && out[p] < x
            invariant
                p <= out.len(),
                forall|k: int| 0 <= k < p ==> out@[k] < x,
            decreases out.len() - p,
        {
            p = p + 1;
        }
        proof {
            lemma_insert_sorted_at(out@, x, p as int);
            assert(v@.take(i + 1).drop_last() =~= v@.take(i as int));
            assert(v@.take(i + 1).last() == x);
        }
        out.insert(p, x);
        i = i + 1;
    }
    assert(v@.take(n as int) =~= v@);
    out
}

} // verus!
