//! Counting the positions below a bound that satisfy a predicate.
use vstd::prelude::*;

verus! {

/// The number of `j` in `0..n` with `f(j)`.
pub open spec fn count_idx(n: int, f: spec_fn(int) -> bool) -> nat
    decreases n,
{
    if n <= 0 {
        0
    } else {
        count_idx(n - 1, f) + if f(n - 1) {
            1nat
        } else {
            0nat
        }
    }
}

/// The number of entries of `s` with `f`.
pub open spec fn count_where<A>(s: Seq<A>, f: spec_fn(A) -> bool) -> nat {
    count_idx(s.len() as int, |j: int| f(s[j]))
}

/// The positions below `n` that are below `k` are `min(n, k)` many.
pub proof fn lemma_count_prefix(n: int, k: int)
    requires
        0 <= n,
        0 <= k,
    ensures
        count_idx(n, |j: int| j < k) == if n <= k {
            n
        } else {
            k
        },
    decreases n,
{
    if n > 0 {
        lemma_count_prefix(n - 1, k);
    }
}

/// Predicates that agree below `n` count the same.
pub proof fn lemma_count_ext(n: int, f: spec_fn(int) -> bool, g: spec_fn(int) -> bool)
    requires
        forall|j: int| #![trigger f(j)] #![trigger g(j)] 0 <= j < n ==> f(j) == g(j),
    ensures
        count_idx(n, f) == count_idx(n, g),
    decreases n,
{
    if n > 0 {
        lemma_count_ext(n - 1, f, g);
    }
}

/// Counting the entries of `s` with `f` is counting the positions with `g`
/// when the two agree.
pub proof fn lemma_count_where_ext<A>(s: Seq<A>, f: spec_fn(A) -> bool, g: spec_fn(int) -> bool)
    requires
        forall|j: int| 0 <= j < s.len() ==> #[trigger] f(s[j]) == g(j),
    ensures
        count_where(s, f) == count_idx(s.len() as int, g),
{
    lemma_count_ext(s.len() as int, |j: int| f(s[j]), g);
}

/// A count below `n` is at most `n`, and is `n` exactly when every position counts.
pub proof fn lemma_count_bound(n: int, f: spec_fn(int) -> bool)
    requires
        0 <= n,
    ensures
        count_idx(n, f) <= n,
        count_idx(n, f) == n <==> forall|j: int| 0 <= j < n ==> #[trigger] f(j),
        count_idx(n, f) == 0 <==> forall|j: int| 0 <= j < n ==> !#[trigger] f(j),
    decreases n,
{
    if n > 0 {
        lemma_count_bound(n - 1, f);
        if count_idx(n, f) == n {
            assert forall|j: int| 0 <= j < n implies #[trigger] f(j) by {
                if j < n - 1 {
                } else {
                }
            }
        }
        if count_idx(n, f) == 0 {
            assert forall|j: int| 0 <= j < n implies !#[trigger] f(j) by {
                if j < n - 1 {
                } else {
                }
            }
        }
    }
}

/// Counting `f` splits into the positions where `with` holds and those
/// where `without` does, when these are `f` with and without `g`.
pub proof fn lemma_count_split(
    n: int,
    f: spec_fn(int) -> bool,
    g: spec_fn(int) -> bool,
    with: spec_fn(int) -> bool,
    without: spec_fn(int) -> bool,
)
    requires
        forall|j: int| #[trigger] with(j) == (f(j) && g(j)),
        forall|j: int| #[trigger] without(j) == (f(j) && !g(j)),
    ensures
        count_idx(n, f) == count_idx(n, with) + count_idx(n, without),
    decreases n,
{
    if n > 0 {
        lemma_count_split(n - 1, f, g, with, without);
    }
}

/// Two predicates that never hold together count, in sum, what their
/// disjunction `either` counts.
pub proof fn lemma_count_disjoint(
    n: int,
    f: spec_fn(int) -> bool,
    g: spec_fn(int) -> bool,
    either: spec_fn(int) -> bool,
)
    requires
        forall|j: int| 0 <= j < n ==> !(#[trigger] f(j) && g(j)),
        forall|j: int| #[trigger] either(j) == (f(j) || g(j)),
    ensures
        count_idx(n, f) + count_idx(n, g) == count_idx(n, either),
    decreases n,
{
    if n > 0 {
        lemma_count_disjoint(n - 1, f, g, either);
    }
}

/// A predicate that implies another counts no more.
pub proof fn lemma_count_mono(n: int, f: spec_fn(int) -> bool, g: spec_fn(int) -> bool)
    requires
        forall|j: int| 0 <= j < n && #[trigger] f(j) ==> g(j),
    ensures
        count_idx(n, f) <= count_idx(n, g),
    decreases n,
{
    if n > 0 {
        lemma_count_mono(n - 1, f, g);
    }
}

/// Two predicates that differ at most at position `i` differ in count by
/// what each says of `i`.
pub proof fn lemma_count_change(n: int, f: spec_fn(int) -> bool, g: spec_fn(int) -> bool, i: int)
    requires
        0 <= i < n,
        forall|j: int| #![trigger f(j)] #![trigger g(j)] 0 <= j < n && j != i ==> f(j) == g(j),
    ensures
        count_idx(n, g) + (if f(i) {
            1int
        } else {
            0int
        }) == count_idx(n, f) + (if g(i) {
            1int
        } else {
            0int
        }),
    decreases n,
{
    if i < n - 1 {
        lemma_count_change(n - 1, f, g, i);
    } else {
        lemma_count_ext(n - 1, f, g);
    }
}

/// At most one position is equal to a given one.
pub proof fn lemma_count_single(n: int, a: int)
    ensures
        count_idx(n, |j: int| j == a) <= 1,
    decreases n,
{
    if n > 0 {
        if n - 1 == a {
            lemma_count_bound(n - 1, |j: int| j == a);
            lemma_count_ext(n - 1, |j: int| j == a, |j: int| false);
            lemma_count_zero_pred(n - 1);
        } else {
            lemma_count_single(n - 1, a);
        }
    }
}

/// Nothing counts under the predicate that never holds.
pub proof fn lemma_count_zero_pred(n: int)
    ensures
        count_idx(n, |j: int| false) == 0,
    decreases n,
{
    if n > 0 {
        lemma_count_zero_pred(n - 1);
    }
}

/// The positions below `n` that a sequence of positions contains are at most
/// as many as its length.
pub proof fn lemma_count_contained(n: int, p: Seq<int>)
    ensures
        count_idx(n, |j: int| p.contains(j)) <= p.len(),
    decreases p.len(),
{
    if p.len() == 0 {
        lemma_count_ext(n, |j: int| p.contains(j), |j: int| false);
        lemma_count_zero_pred(n);
    } else {
        let q = p.drop_last();
        let a = p.last();
        lemma_count_contained(n, q);
        lemma_count_single(n, a);
        let fq = |j: int| q.contains(j);
        let fa = |j: int| j == a;
        lemma_count_union(n, fq, fa);
        lemma_count_ext(n, |j: int| fq(j) || fa(j), |j: int| q.contains(j) || j == a);
        assert forall|j: int| 0 <= j < n && #[trigger] p.contains(j) implies (q.contains(j) || j == a) by {
            let k = choose|k: int| 0 <= k < p.len() && p[k] == j;
            if k < p.len() - 1 {
                assert(q[k] == j);
            }
        }
        lemma_count_mono(n, |j: int| p.contains(j), |j: int| q.contains(j) || j == a);
    }
}

/// A disjunction counts at most the sum of its parts.
pub proof fn lemma_count_union(n: int, f: spec_fn(int) -> bool, g: spec_fn(int) -> bool)
    ensures
        count_idx(n, |j: int| f(j) || g(j)) <= count_idx(n, f) + count_idx(n, g),
    decreases n,
{
    if n > 0 {
        lemma_count_union(n - 1, f, g);
    }
}

/// The entries of a sequence of booleans that are true are as many as the
/// times `true` occurs in its multiset.
pub proof fn lemma_count_true_multiset(s: Seq<bool>)
    ensures
        count_idx(s.len() as int, |j: int| s[j]) == s.to_multiset().count(true),
    decreases s.len(),
{
    broadcast use vstd::seq_lib::group_to_multiset_ensures;

    if s.len() == 0 {
        assert(s.to_multiset().count(true) == 0);
    } else {
        let t = s.drop_last();
        lemma_count_true_multiset(t);
        lemma_count_ext(t.len() as int, |j: int| t[j], |j: int| s[j]);
        assert(s =~= t.push(s.last()));
    }
}

} // verus!
