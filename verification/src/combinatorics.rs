//! Combination generation: every fixed-size subsequence of an ordered
//! sequence, and sorted supersets of a sorted subset drawn from a pool.

use vstd::prelude::*;

verus! {

/// The binomial coefficient, by Pascal's rule.
pub open spec fn n_choose_k(n: nat, k: nat) -> nat
    decreases n, k,
{
    if k == 0 {
        1
    } else if n == 0 {
        0
    } else {
        n_choose_k((n - 1) as nat, (k - 1) as nat) + n_choose_k((n - 1) as nat, k)
    }
}

/// All subsequences of `s` of length `size`, in the order produced by
/// choosing, left to right, whether each element is kept: first every
/// combination that keeps `s[0]`, then every combination that drops it.
pub open spec fn combos_spec<T>(s: Seq<T>, size: nat) -> Seq<Seq<T>>
    decreases s.len(),
{
    if size == 0 {
        seq![Seq::<T>::empty()]
    } else if s.len() == 0 {
        Seq::<Seq<T>>::empty()
    } else {
        combos_spec(s.drop_first(), (size - 1) as nat).map_values(|c: Seq<T>| seq![s[0]] + c)
            + combos_spec(s.drop_first(), size)
    }
}

/// `sub` can be obtained from `s` by deleting elements, keeping the order.
pub open spec fn is_subsequence<T>(sub: Seq<T>, s: Seq<T>) -> bool
    decreases s.len(),
{
    if sub.len() == 0 {
        true
    } else if s.len() == 0 {
        false
    } else {
        (sub[0] == s[0] && is_subsequence(sub.drop_first(), s.drop_first())) || is_subsequence(
            sub,
            s.drop_first(),
        )
    }
}

/// Strictly ascending.
pub open spec fn strictly_inc(s: Seq<usize>) -> bool {
    forall|i: int, j: int| 0 <= i < j < s.len() ==> s[i] < s[j]
}

/// The sequence lo, lo + 1, ..., hi - 1.
pub open spec fn range_seq(lo: int, hi: int) -> Seq<usize> {
    Seq::new(if hi >= lo { (hi - lo) as nat } else { 0 }, |i: int| (lo + i) as usize)
}

/// A range whose values fit in usize is strictly ascending.
pub proof fn lemma_range_inc(lo: int, hi: int)
    requires
        0 <= lo,
        hi <= usize::MAX + 1,
    ensures
        strictly_inc(range_seq(lo, hi)),
{
    let r = range_seq(lo, hi);
    assert forall|i: int, j: int| 0 <= i < j < r.len() implies r[i] < r[j] by {
        assert(lo + i < lo + j <= usize::MAX);
    }
}

/// Number of combinations: `combos_spec` has exactly C(|s|, size) entries.
pub proof fn lemma_combos_count<T>(s: Seq<T>, size: nat)
    ensures
        combos_spec(s, size).len() == n_choose_k(s.len(), size),
    decreases s.len(),
{
    if size == 0 {
    } else if s.len() == 0 {
    } else {
        lemma_combos_count(s.drop_first(), (size - 1) as nat);
        lemma_combos_count(s.drop_first(), size);
    }
}

/// Asking for more elements than there are yields no combinations.
pub proof fn lemma_choose_large(n: nat, k: nat)
    requires
        k > n,
    ensures
        n_choose_k(n, k) == 0,
    decreases n,
{
    if n > 0 {
        lemma_choose_large((n - 1) as nat, (k - 1) as nat);
        lemma_choose_large((n - 1) as nat, k);
    }
}

/// Asking for more elements than the input holds yields no combination.
pub proof fn lemma_combos_none_when_large<T>(s: Seq<T>, size: nat)
    requires
        size > s.len(),
    ensures
        combos_spec(s, size) =~= Seq::<Seq<T>>::empty(),
{
    lemma_combos_count(s, size);
    lemma_choose_large(s.len(), size);
}

/// Every entry of `combos_spec(s, size)` has length `size` and is a
/// subsequence of `s`.
pub proof fn lemma_combos_elems<T>(s: Seq<T>, size: nat)
    ensures
        forall|i: int|
            0 <= i < combos_spec(s, size).len() ==> (#[trigger] combos_spec(s, size)[i]).len()
                == size && is_subsequence(combos_spec(s, size)[i], s),
    decreases s.len(),
{
    if size == 0 {
    } else if s.len() == 0 {
    } else {
        lemma_combos_elems(s.drop_first(), (size - 1) as nat);
        lemma_combos_elems(s.drop_first(), size);
        let a = combos_spec(s.drop_first(), (size - 1) as nat).map_values(
            |c: Seq<T>| seq![s[0]] + c,
        );
        let b = combos_spec(s.drop_first(), size);
        assert forall|i: int| 0 <= i < a.len() implies a[i].len() == size && is_subsequence(
            a[i],
            s,
        ) by {
            let c = combos_spec(s.drop_first(), (size - 1) as nat)[i];
            assert(a[i] == seq![s[0]] + c);
            assert((seq![s[0]] + c).drop_first() =~= c);
            assert(a[i][0] == s[0]);
        }
        assert forall|i: int| 0 <= i < b.len() implies b[i].len() == size && is_subsequence(
            b[i],
            s,
        ) by {
            assert(is_subsequence(b[i], s.drop_first()));
        }
        assert(forall|i: int|
            0 <= i < combos_spec(s, size).len() ==> combos_spec(s, size)[i] == if i < a.len() {
                a[i]
            } else {
                b[i - a.len()]
            });
    }
}

/// Every element of a subsequence occurs in the underlying sequence.
pub proof fn lemma_subseq_elements<T>(sub: Seq<T>, s: Seq<T>)
    requires
        is_subsequence(sub, s),
    ensures
        forall|i: int| 0 <= i < sub.len() ==> s.contains(#[trigger] sub[i]),
    decreases s.len(),
{
    if sub.len() == 0 {
    } else if is_subsequence(sub, s.drop_first()) {
        lemma_subseq_elements(sub, s.drop_first());
        assert forall|i: int| 0 <= i < sub.len() implies s.contains(#[trigger] sub[i]) by {
            let j = choose|j: int| 0 <= j < s.drop_first().len() && s.drop_first()[j] == sub[i];
            assert(s[j + 1] == sub[i]);
        }
    } else {
        lemma_subseq_elements(sub.drop_first(), s.drop_first());
        assert forall|i: int| 0 <= i < sub.len() implies s.contains(#[trigger] sub[i]) by {
            if i == 0 {
                assert(s[0] == sub[0]);
            } else {
                assert(s.drop_first().contains(sub.drop_first()[i - 1]));
                let j = choose|j: int|
                    0 <= j < s.drop_first().len() && s.drop_first()[j] == sub.drop_first()[i - 1];
                assert(s[j + 1] == sub[i]);
            }
        }
    }
}

/// On an input without duplicate elements the combinations are pairwise
/// distinct.
pub proof fn lemma_combos_no_dup<T>(s: Seq<T>, size: nat)
    requires
        s.no_duplicates(),
    ensures
        combos_spec(s, size).no_duplicates(),
    decreases s.len(),
{
    if size == 0 {
    } else if s.len() == 0 {
    } else {
        assert(s.drop_first().no_duplicates());
        lemma_combos_no_dup(s.drop_first(), (size - 1) as nat);
        lemma_combos_no_dup(s.drop_first(), size);
        lemma_combos_elems(s.drop_first(), size);
        let inner = combos_spec(s.drop_first(), (size - 1) as nat);
        let a = inner.map_values(|c: Seq<T>| seq![s[0]] + c);
        let b = combos_spec(s.drop_first(), size);
        assert forall|i: int, j: int| 0 <= i < j < a.len() implies a[i] != a[j] by {
            assert(a[i] == seq![s[0]] + inner[i]);
            assert(a[j] == seq![s[0]] + inner[j]);
            assert((seq![s[0]] + inner[i]).drop_first() =~= inner[i]);
            assert((seq![s[0]] + inner[j]).drop_first() =~= inner[j]);
        }
        assert forall|i: int, j: int|
            0 <= i < a.len() && 0 <= j < b.len() implies a[i] != b[j] by {
            assert(a[i] == seq![s[0]] + inner[i]);
            assert(a[i][0] == s[0]);
            assert(b[j].len() == size && is_subsequence(b[j], s.drop_first()));
            lemma_subseq_elements(b[j], s.drop_first());
            if a[i] == b[j] {
                assert(s.drop_first().contains(b[j][0]));
                let m = choose|m: int|
                    0 <= m < s.drop_first().len() && s.drop_first()[m] == b[j][0];
                assert(s[m + 1] == s[0]);
                assert(false);
            }
        }
        let whole = combos_spec(s, size);
        assert forall|i: int, j: int| 0 <= i < j < whole.len() implies whole[i] != whole[j] by {
            assert(whole[i] == if i < a.len() {
                a[i]
            } else {
                b[i - a.len()]
            });
            assert(whole[j] == if j < a.len() {
                a[j]
            } else {
                b[j - a.len()]
            });
        }
    }
}

/// Every subsequence of the right length occurs among the combinations.
pub proof fn lemma_combos_complete<T>(s: Seq<T>, size: nat, c: Seq<T>)
    requires
        is_subsequence(c, s),
        c.len() == size,
    ensures
        combos_spec(s, size).contains(c),
    decreases s.len(),
{
    let whole = combos_spec(s, size);
    if size == 0 {
        assert(c =~= Seq::<T>::empty());
        assert(whole[0] == c);
    } else {
        assert(s.len() > 0);
        let inner = combos_spec(s.drop_first(), (size - 1) as nat);
        let a = inner.map_values(|q: Seq<T>| seq![s[0]] + q);
        let b = combos_spec(s.drop_first(), size);
        if is_subsequence(c, s.drop_first()) {
            lemma_combos_complete(s.drop_first(), size, c);
            let j = choose|j: int| 0 <= j < b.len() && b[j] == c;
            assert(whole[a.len() + j] == c);
        } else {
            assert(c[0] == s[0] && is_subsequence(c.drop_first(), s.drop_first()));
            lemma_combos_complete(s.drop_first(), (size - 1) as nat, c.drop_first());
            let j = choose|j: int| 0 <= j < inner.len() && inner[j] == c.drop_first();
            assert(a[j] == seq![s[0]] + c.drop_first());
            assert(seq![s[0]] + c.drop_first() =~= c);
            assert(whole[j] == c);
        }
    }
}

/// Subsequences compose.
pub proof fn lemma_subseq_trans<T>(a: Seq<T>, b: Seq<T>, c: Seq<T>)
    requires
        is_subsequence(a, b),
        is_subsequence(b, c),
    ensures
        is_subsequence(a, c),
    decreases c.len(),
{
    if a.len() == 0 {
    } else {
        assert(b.len() > 0);
        assert(c.len() > 0);
        if is_subsequence(b, c.drop_first()) {
            lemma_subseq_trans(a, b, c.drop_first());
        } else {
            assert(b[0] == c[0] && is_subsequence(b.drop_first(), c.drop_first()));
            if a[0] == b[0] && is_subsequence(a.drop_first(), b.drop_first()) {
                lemma_subseq_trans(a.drop_first(), b.drop_first(), c.drop_first());
            } else {
                assert(is_subsequence(a, b.drop_first()));
                lemma_subseq_trans(a, b.drop_first(), c.drop_first());
            }
        }
    }
}

/// A subsequence of a strictly ascending sequence is strictly ascending.
pub proof fn lemma_subseq_strictly_inc(sub: Seq<usize>, s: Seq<usize>)
    requires
        is_subsequence(sub, s),
        strictly_inc(s),
    ensures
        strictly_inc(sub),
    decreases s.len(),
{
    if sub.len() == 0 {
    } else if is_subsequence(sub, s.drop_first()) {
        assert(strictly_inc(s.drop_first()));
        lemma_subseq_strictly_inc(sub, s.drop_first());
    } else {
        assert(sub[0] == s[0] && is_subsequence(sub.drop_first(), s.drop_first()));
        assert(strictly_inc(s.drop_first()));
        lemma_subseq_strictly_inc(sub.drop_first(), s.drop_first());
        lemma_subseq_elements(sub.drop_first(), s.drop_first());
        assert forall|i: int, j: int| 0 <= i < j < sub.len() implies sub[i] < sub[j] by {
            if i == 0 {
                assert(s.drop_first().contains(sub.drop_first()[j - 1]));
                let m = choose|m: int|
                    0 <= m < s.drop_first().len() && s.drop_first()[m] == sub.drop_first()[j - 1];
                assert(s[0] < s[m + 1]);
            } else {
                assert(sub.drop_first()[i - 1] < sub.drop_first()[j - 1]);
            }
        }
    }
}

/// A strictly ascending sequence with values in [lo, hi) is a subsequence
/// of the range lo..hi.
pub proof fn lemma_inc_in_range_subseq(b: Seq<usize>, lo: int, hi: int)
    requires
        strictly_inc(b),
        forall|i: int| 0 <= i < b.len() ==> lo <= #[trigger] b[i] < hi,
        0 <= lo,
    ensures
        is_subsequence(b, range_seq(lo, hi)),
    decreases hi - lo,
{
    let r = range_seq(lo, hi);
    if b.len() == 0 {
    } else {
        assert(lo <= b[0] < hi);
        assert(lo < hi);
        assert(r.len() == hi - lo);
        assert(r[0] == lo);
        assert(r.drop_first() =~= range_seq(lo + 1, hi));
        if b[0] == lo {
            assert(forall|i: int|
                0 <= i < b.drop_first().len() ==> lo + 1 <= #[trigger] b.drop_first()[i] < hi);
            assert(strictly_inc(b.drop_first()));
            lemma_inc_in_range_subseq(b.drop_first(), lo + 1, hi);
        } else {
            assert(forall|i: int| 0 <= i < b.len() ==> lo + 1 <= #[trigger] b[i] < hi);
            lemma_inc_in_range_subseq(b, lo + 1, hi);
        }
    }
}

/// Strict ascent excludes duplicates.
pub proof fn lemma_strictly_inc_no_dup(s: Seq<usize>)
    requires
        strictly_inc(s),
    ensures
        s.no_duplicates(),
{
}

/// Merge of two ascending sequences, smaller head first.
pub open spec fn merge_sorted(a: Seq<usize>, b: Seq<usize>) -> Seq<usize>
    decreases a.len() + b.len(),
{
    if a.len() == 0 {
        b
    } else if b.len() == 0 {
        a
    } else if a[0] <= b[0] {
        seq![a[0]] + merge_sorted(a.drop_first(), b)
    } else {
        seq![b[0]] + merge_sorted(a, b.drop_first())
    }
}

/// Merging disjoint strictly ascending sequences gives a strictly
/// ascending sequence holding exactly the elements of both.
pub proof fn lemma_merge_props(a: Seq<usize>, b: Seq<usize>)
    requires
        strictly_inc(a),
        strictly_inc(b),
        forall|x: usize| !(a.contains(x) && b.contains(x)),
    ensures
        merge_sorted(a, b).len() == a.len() + b.len(),
        strictly_inc(merge_sorted(a, b)),
        forall|x: usize| merge_sorted(a, b).contains(x) <==> a.contains(x) || b.contains(x),
    decreases a.len() + b.len(),
{
    let m = merge_sorted(a, b);
    if a.len() == 0 {
    } else if b.len() == 0 {
    } else {
        assert(a.contains(a[0]));
        assert(b.contains(b[0]));
        assert(a[0] != b[0]);
        if a[0] <= b[0] {
            assert(strictly_inc(a.drop_first()));
            assert(forall|x: usize| a.drop_first().contains(x) ==> a.contains(x));
            lemma_merge_props(a.drop_first(), b);
            let rest = merge_sorted(a.drop_first(), b);
            assert forall|i: int, j: int| 0 <= i < j < m.len() implies m[i] < m[j] by {
                if i == 0 {
                    assert(m[j] == rest[j - 1]);
                    assert(rest.contains(rest[j - 1]));
                    if a.drop_first().contains(rest[j - 1]) {
                        let q = choose|q: int|
                            0 <= q < a.drop_first().len() && a.drop_first()[q] == rest[j - 1];
                        assert(a[0] < a[q + 1]);
                    } else {
                        assert(b.contains(rest[j - 1]));
                        let q = choose|q: int| 0 <= q < b.len() && b[q] == rest[j - 1];
                        assert(b[0] <= b[q]);
                    }
                } else {
                    assert(m[i] == rest[i - 1] && m[j] == rest[j - 1]);
                }
            }
            assert forall|x: usize| m.contains(x) implies a.contains(x) || b.contains(x) by {
                let q = choose|q: int| 0 <= q < m.len() && m[q] == x;
                if q == 0 {
                    assert(a.contains(a[0]));
                } else {
                    assert(rest[q - 1] == x);
                    assert(rest.contains(x));
                    if a.drop_first().contains(x) {
                        let w = choose|w: int|
                            0 <= w < a.drop_first().len() && a.drop_first()[w] == x;
                        assert(a[w + 1] == x);
                    }
                }
            }
            assert forall|x: usize| a.contains(x) || b.contains(x) implies m.contains(x) by {
                if x == a[0] {
                    assert(m[0] == x);
                } else {
                    if a.contains(x) {
                        let w = choose|w: int| 0 <= w < a.len() && a[w] == x;
                        assert(w != 0);
                        assert(a.drop_first()[w - 1] == x);
                        assert(a.drop_first().contains(x));
                    }
                    assert(rest.contains(x));
                    let w = choose|w: int| 0 <= w < rest.len() && rest[w] == x;
                    assert(m[w + 1] == x);
                }
            }
        } else {
            assert(strictly_inc(b.drop_first()));
            assert(forall|x: usize| b.drop_first().contains(x) ==> b.contains(x));
            lemma_merge_props(a, b.drop_first());
            let rest = merge_sorted(a, b.drop_first());
            assert forall|i: int, j: int| 0 <= i < j < m.len() implies m[i] < m[j] by {
                if i == 0 {
                    assert(m[j] == rest[j - 1]);
                    assert(rest.contains(rest[j - 1]));
                    if b.drop_first().contains(rest[j - 1]) {
                        let q = choose|q: int|
                            0 <= q < b.drop_first().len() && b.drop_first()[q] == rest[j - 1];
                        assert(b[0] < b[q + 1]);
                    } else {
                        assert(a.contains(rest[j - 1]));
                        let q = choose|q: int| 0 <= q < a.len() && a[q] == rest[j - 1];
                        assert(a[0] <= a[q]);
                    }
                } else {
                    assert(m[i] == rest[i - 1] && m[j] == rest[j - 1]);
                }
            }
            assert forall|x: usize| m.contains(x) implies a.contains(x) || b.contains(x) by {
                let q = choose|q: int| 0 <= q < m.len() && m[q] == x;
                if q == 0 {
                    assert(b.contains(b[0]));
                } else {
                    assert(rest[q - 1] == x);
                    assert(rest.contains(x));
                    if b.drop_first().contains(x) {
                        let w = choose|w: int|
                            0 <= w < b.drop_first().len() && b.drop_first()[w] == x;
                        assert(b[w + 1] == x);
                    }
                }
            }
            assert forall|x: usize| a.contains(x) || b.contains(x) implies m.contains(x) by {
                if x == b[0] {
                    assert(m[0] == x);
                } else {
                    if b.contains(x) {
                        let w = choose|w: int| 0 <= w < b.len() && b[w] == x;
                        assert(w != 0);
                        assert(b.drop_first()[w - 1] == x);
                        assert(b.drop_first().contains(x));
                    }
                    assert(rest.contains(x));
                    let w = choose|w: int| 0 <= w < rest.len() && rest[w] == x;
                    assert(m[w + 1] == x);
                }
            }
        }
    }
}

/// Every sequence is a subsequence of itself.
pub proof fn lemma_subseq_refl<T>(a: Seq<T>)
    ensures
        is_subsequence(a, a),
    decreases a.len(),
{
    if a.len() > 0 {
        lemma_subseq_refl(a.drop_first());
    }
}

/// The left operand survives a merge as a subsequence.
pub proof fn lemma_merge_subseq_left(a: Seq<usize>, b: Seq<usize>)
    ensures
        is_subsequence(a, merge_sorted(a, b)),
    decreases a.len() + b.len(),
{
    let m = merge_sorted(a, b);
    if a.len() == 0 {
    } else if b.len() == 0 {
        lemma_subseq_refl(a);
    } else if a[0] <= b[0] {
        lemma_merge_subseq_left(a.drop_first(), b);
        assert(m == seq![a[0]] + merge_sorted(a.drop_first(), b));
        assert(m.drop_first() =~= merge_sorted(a.drop_first(), b));
        assert(m[0] == a[0]);
    } else {
        lemma_merge_subseq_left(a, b.drop_first());
        assert(m == seq![b[0]] + merge_sorted(a, b.drop_first()));
        assert(m.drop_first() =~= merge_sorted(a, b.drop_first()));
        assert(m.len() > 0);
        assert(is_subsequence(a, m.drop_first()));
    }
}

/// Two strictly ascending sequences over the same elements are equal.
pub proof fn lemma_inc_same_elements(a: Seq<usize>, b: Seq<usize>)
    requires
        strictly_inc(a),
        strictly_inc(b),
        forall|x: usize| a.contains(x) <==> b.contains(x),
    ensures
        a == b,
    decreases a.len(),
{
    if a.len() == 0 {
        if b.len() > 0 {
            assert(b.contains(b[0]));
            assert(false);
        }
        assert(a =~= b);
    } else {
        assert(a.contains(a[0]));
        assert(b.len() > 0);
        assert(b.contains(a[0]));
        assert(a.contains(b[0]));
        let i = choose|i: int| 0 <= i < b.len() && b[i] == a[0];
        let j = choose|j: int| 0 <= j < a.len() && a[j] == b[0];
        assert(b[0] <= b[i]);
        assert(a[0] <= a[j]);
        assert(a[0] == b[0]);
        assert(strictly_inc(a.drop_first()));
        assert(strictly_inc(b.drop_first()));
        assert forall|x: usize| a.drop_first().contains(x) implies b.drop_first().contains(x) by {
            let w = choose|w: int| 0 <= w < a.drop_first().len() && a.drop_first()[w] == x;
            assert(a[w + 1] == x);
            assert(a[0] < x);
            assert(b.contains(x));
            let v = choose|v: int| 0 <= v < b.len() && b[v] == x;
            assert(v != 0);
            assert(b.drop_first()[v - 1] == x);
        }
        assert forall|x: usize| b.drop_first().contains(x) implies a.drop_first().contains(x) by {
            let w = choose|w: int| 0 <= w < b.drop_first().len() && b.drop_first()[w] == x;
            assert(b[w + 1] == x);
            assert(b[0] < x);
            assert(a.contains(x));
            let v = choose|v: int| 0 <= v < a.len() && a[v] == x;
            assert(v != 0);
            assert(a.drop_first()[v - 1] == x);
        }
        lemma_inc_same_elements(a.drop_first(), b.drop_first());
        assert forall|i: int| 0 <= i < a.len() implies a[i] == b[i] by {
            if i > 0 {
                assert(a[i] == a.drop_first()[i - 1]);
                assert(b[i] == b.drop_first()[i - 1]);
            }
        }
        assert(a =~= b);
    }
}

/// View of a sequence of vectors as a sequence of sequences.
pub open spec fn deep_seq<T>(v: Seq<Vec<T>>) -> Seq<Seq<T>> {
    Seq::new(v.len(), |i: int| v[i]@)
}

/// Pushing a vector onto a sequence of vectors pushes its view.
pub proof fn lemma_deep_push<T>(v: Seq<Vec<T>>, x: Vec<T>)
    ensures
        deep_seq(v.push(x)) =~= deep_seq(v).push(x@),
{
    assert forall|j: int| 0 <= j < v.len() + 1 implies deep_seq(v.push(x))[j] == deep_seq(v).push(
        x@,
    )[j] by {
        if j < v.len() {
            assert(v.push(x)[j] == v[j]);
        } else {
            assert(v.push(x)[j] == x);
        }
    }
}

/// Inserting a vector into a sequence of vectors inserts its view.
pub proof fn lemma_deep_insert<T>(v: Seq<Vec<T>>, p: int, x: Vec<T>)
    requires
        0 <= p <= v.len(),
    ensures
        deep_seq(v.insert(p, x)) =~= deep_seq(v).insert(p, x@),
{
    assert forall|j: int| 0 <= j < v.len() + 1 implies deep_seq(v.insert(p, x))[j] == deep_seq(
        v,
    ).insert(p, x@)[j] by {
        if j < p {
            assert(v.insert(p, x)[j] == v[j]);
        } else if j == p {
            assert(v.insert(p, x)[j] == x);
        } else {
            assert(v.insert(p, x)[j] == v[j - 1]);
        }
    }
}

#[verifier::loop_isolation(false)]
fn combos_from<T: Copy>(set: &Vec<T>, start: usize, size: usize) -> (r: Vec<Vec<T>>)
    requires
        start <= set.len(),
    ensures
        deep_seq(r@) == combos_spec(set@.skip(start as int), size as nat),
    decreases set.len() - start, size,
{
    let tail = Ghost(set@.skip(start as int));
    if size == 0 {
        let mut r: Vec<Vec<T>> = Vec::new();
        r.push(Vec::new());
        assert(deep_seq(r@) =~= seq![Seq::<T>::empty()]);
        r
    } else if start == set.len() {
        let r: Vec<Vec<T>> = Vec::new();
        assert(tail@.len() == 0);
        assert(deep_seq(r@) =~= Seq::<Seq<T>>::empty());
        r
    } else {
        assert(tail@.drop_first() =~= set@.skip(start as int + 1));
        assert(tail@[0] == set@[start as int]);
        let first = set[start];
        let with_first = combos_from(set, start + 1, size - 1);
        let ghost inner = combos_spec(set@.skip(start as int + 1), (size - 1) as nat);
        let ghost mapped = inner.map_values(|c: Seq<T>| seq![first] + c);
        let mut r: Vec<Vec<T>> = Vec::new();
        let mut i: usize = 0;
        while i < with_first.len()
            invariant
                i <= with_first.len(),
                deep_seq(with_first@) == inner,
                deep_seq(r@) =~= mapped.take(i as int),
            decreases with_first.len() - i,
        {
            let mut c: Vec<T> = Vec::new();
            c.push(first);
            let src = &with_first[i];
            let mut j: usize = 0;
            while j < src.len()
                invariant
                    j <= src.len(),
                    c@ =~= seq![first] + src@.take(j as int),
                decreases src.len() - j,
            {
                c.push(src[j]);
                assert(src@.take(j + 1) =~= src@.take(j as int).push(src@[j as int]));
                j += 1;
            }
            assert(src@.take(src@.len() as int) =~= src@);
            assert(c@ =~= seq![first] + with_first@[i as int]@);
            assert(inner[i as int] == with_first@[i as int]@);
            let ghost prev = r@;
            let ghost cv = c@;
            r.push(c);
            proof {
                assert(r@ == prev.push(c));
                lemma_deep_push(prev, c);
                assert(mapped[i as int] == seq![first] + inner[i as int]);
                assert(cv == mapped[i as int]);
                assert(mapped.take(i + 1) =~= mapped.take(i as int).push(mapped[i as int]));
                assert(deep_seq(r@) =~= mapped.take(i + 1));
            }
            i += 1;
        }
        assert(deep_seq(r@) =~= mapped);
        let mut rest = combos_from(set, start + 1, size);
        let ghost rest_spec = combos_spec(set@.skip(start as int + 1), size as nat);
        let ghost before = deep_seq(r@);
        let total: usize = rest.len();
        let mut consumed: usize = 0;
        while rest.len() > 0
            invariant
                consumed + rest@.len() == total,
                total == rest_spec.len(),
                deep_seq(rest@) =~= rest_spec.skip(consumed as int),
                deep_seq(r@) =~= before + rest_spec.take(consumed as int),
            decreases rest.len(),
        {
            let ghost prev_rest = rest@;
            let ghost prev_r = r@;
            let x = rest.remove(0);
            proof {
                assert(x == prev_rest[0]);
                assert(deep_seq(prev_rest)[0] == rest_spec.skip(consumed as int)[0]);
                assert(x@ == rest_spec[consumed as int]);
            }
            r.push(x);
            proof {
                assert(rest@ == prev_rest.remove(0));
                assert forall|j: int| 0 <= j < rest@.len() implies deep_seq(rest@)[j]
                    == rest_spec.skip(consumed + 1)[j] by {
                    assert(rest@[j] == prev_rest[j + 1]);
                    assert(deep_seq(prev_rest)[j + 1] == rest_spec.skip(consumed as int)[j + 1]);
                }
                assert(deep_seq(rest@) =~= rest_spec.skip(consumed + 1));
                assert(r@ == prev_r.push(x));
                lemma_deep_push(prev_r, x);
                assert(rest_spec.take(consumed + 1) =~= rest_spec.take(consumed as int).push(
                    rest_spec[consumed as int],
                ));
                assert((before + rest_spec.take(consumed as int)).push(
                    rest_spec[consumed as int],
                ) =~= before + rest_spec.take(consumed + 1));
                assert(deep_seq(r@) =~= before + rest_spec.take(consumed + 1));
            }
            consumed += 1;
        }
        assert(rest_spec.take(rest_spec.len() as int) =~= rest_spec);
        assert(deep_seq(r@) =~= mapped + rest_spec);
        assert(combos_spec(tail@, size as nat) == inner.map_values(|c: Seq<T>| seq![tail@[0]] + c)
            + rest_spec);
        assert(mapped =~= inner.map_values(|c: Seq<T>| seq![tail@[0]] + c));
        r
    }
}

/// Every subsequence of `set` of length `size`, each keeping the input's
/// relative order: exactly C(|set|, size) of them, `[[]]` for size 0 and
/// none at all when `size` exceeds the input length.
pub fn permutations<T: Copy>(set: &Vec<T>, size: usize) -> (r: Vec<Vec<T>>)
    ensures
        deep_seq(r@) == combos_spec(set@, size as nat),
{
    let r = combos_from(set, 0, size);
    assert(set@.skip(0) =~= set@);
    r
}

/// Every sorted `k`-superset of `s` reachable by adding `k - |s|` elements
/// of `pool`: one merge for each combination of the pool.
pub open spec fn superset_candidates(s: Seq<usize>, pool: Seq<usize>, k: nat) -> Seq<Seq<usize>> {
    combos_spec(pool, (k - s.len()) as nat).map_values(|c: Seq<usize>| merge_sorted(s, c))
}

#[verifier::loop_isolation(false)]
fn merge_exec(a: &Vec<usize>, b: &Vec<usize>) -> (r: Vec<usize>)
    ensures
        r@ == merge_sorted(a@, b@),
{
    let mut r: Vec<usize> = Vec::new();
    let mut i: usize = 0;
    let mut j: usize = 0;
    proof {
        assert(a@.skip(0) =~= a@);
        assert(b@.skip(0) =~= b@);
        assert(r@ + merge_sorted(a@, b@) =~= merge_sorted(a@, b@));
    }
    while i < a.len() || j < b.len()
        invariant
            i <= a.len(),
            j <= b.len(),
            merge_sorted(a@, b@) =~= r@ + merge_sorted(a@.skip(i as int), b@.skip(j as int)),
        decreases a.len() - i + b.len() - j,
    {
        let ghost ga = a@.skip(i as int);
        let ghost gb = b@.skip(j as int);
        if i < a.len() && (j >= b.len() || a[i] <= b[j]) {
            proof {
                assert(ga[0] == a@[i as int]);
                assert(ga.drop_first() =~= a@.skip(i + 1));
                if gb.len() == 0 {
                    assert(merge_sorted(ga, gb) == ga);
                    assert(merge_sorted(ga.drop_first(), gb) == ga.drop_first());
                    assert(ga =~= seq![ga[0]] + ga.drop_first());
                } else {
                    assert(gb[0] == b@[j as int]);
                    assert(merge_sorted(ga, gb) == seq![ga[0]] + merge_sorted(
                        ga.drop_first(),
                        gb,
                    ));
                }
            }
            let ghost prev = r@;
            r.push(a[i]);
            proof {
                assert(r@ =~= prev.push(a@[i as int]));
                assert(prev + merge_sorted(ga, gb) =~= r@ + merge_sorted(
                    a@.skip(i + 1),
                    b@.skip(j as int),
                ));
            }
            i += 1;
        } else {
            proof {
                assert(j < b.len());
                assert(gb[0] == b@[j as int]);
                assert(gb.drop_first() =~= b@.skip(j + 1));
                if ga.len() == 0 {
                    assert(merge_sorted(ga, gb) == gb);
                    assert(merge_sorted(ga, gb.drop_first()) == gb.drop_first());
                    assert(gb =~= seq![gb[0]] + gb.drop_first());
                } else {
                    assert(ga[0] == a@[i as int]);
                    assert(gb[0] < ga[0]);
                    assert(merge_sorted(ga, gb) == seq![gb[0]] + merge_sorted(
                        ga,
                        gb.drop_first(),
                    ));
                }
            }
            let ghost prev = r@;
            r.push(b[j]);
            proof {
                assert(r@ =~= prev.push(b@[j as int]));
                assert(prev + merge_sorted(ga, gb) =~= r@ + merge_sorted(
                    a@.skip(i as int),
                    b@.skip(j + 1),
                ));
            }
            j += 1;
        }
    }
    proof {
        assert(a@.skip(i as int).len() == 0);
        assert(b@.skip(j as int).len() == 0);
        assert(merge_sorted(a@.skip(i as int), b@.skip(j as int)).len() == 0);
        assert(merge_sorted(a@, b@) =~= r@);
    }
    r
}

/// Every sorted superset of `starting_set` of size `target_size` built by
/// drawing the missing elements from `available_digits`, one per
/// combination of the pool; none when the starting set is already too
/// large.
#[verifier::loop_isolation(false)]
pub fn larger_sets(
    starting_set: Vec<usize>,
    available_digits: Vec<usize>,
    target_size: usize,
) -> (r: Vec<Vec<usize>>)
    ensures
        starting_set@.len() <= target_size ==> deep_seq(r@) == superset_candidates(
            starting_set@,
            available_digits@,
            target_size as nat,
        ),
        starting_set@.len() > target_size ==> r@.len() == 0,
{
    if starting_set.len() > target_size {
        return Vec::new();
    }
    let need = target_size - starting_set.len();
    let combos = permutations(&available_digits, need);
    let ghost cs = combos_spec(available_digits@, need as nat);
    let ghost target = superset_candidates(starting_set@, available_digits@, target_size as nat);
    let mut r: Vec<Vec<usize>> = Vec::new();
    let mut i: usize = 0;
    while i < combos.len()
        invariant
            i <= combos.len(),
            deep_seq(r@) =~= target.take(i as int),
        decreases combos.len() - i,
    {
        let merged = merge_exec(&starting_set, &combos[i]);
        proof {
            assert(combos@[i as int]@ == cs[i as int]);
            assert(target[i as int] == merge_sorted(starting_set@, cs[i as int]));
        }
        let ghost prev = r@;
        r.push(merged);
        proof {
            lemma_deep_push(prev, merged);
            assert(target.take(i + 1) =~= target.take(i as int).push(target[i as int]));
            assert(deep_seq(r@) =~= target.take(i + 1));
        }
        i += 1;
    }
    proof {
        assert(target.take(target.len() as int) =~= target);
    }
    r
}

/// Laws of the superset expansion: exactly C(|pool|, k - |s|) candidates,
/// pairwise distinct, each strictly ascending of length k, each a superset
/// of `s` drawing only from `s` and the pool.
pub proof fn lemma_superset_candidates_props(s: Seq<usize>, pool: Seq<usize>, k: nat)
    requires
        strictly_inc(s),
        strictly_inc(pool),
        forall|x: usize| !(s.contains(x) && pool.contains(x)),
        s.len() <= k,
    ensures
        superset_candidates(s, pool, k).len() == n_choose_k(pool.len(), (k - s.len()) as nat),
        forall|i: int|
            0 <= i < superset_candidates(s, pool, k).len() ==> {
                let r = #[trigger] superset_candidates(s, pool, k)[i];
                strictly_inc(r) && r.len() == k && (forall|x: usize|
                    s.contains(x) ==> r.contains(x)) && (forall|x: usize|
                    r.contains(x) ==> s.contains(x) || pool.contains(x))
            },
        superset_candidates(s, pool, k).no_duplicates(),
{
    let need = (k - s.len()) as nat;
    let cs = combos_spec(pool, need);
    let out = superset_candidates(s, pool, k);
    lemma_combos_count(pool, need);
    lemma_combos_elems(pool, need);
    lemma_strictly_inc_no_dup(pool);
    lemma_combos_no_dup(pool, need);
    assert forall|i: int| 0 <= i < out.len() implies {
        let r = #[trigger] out[i];
        strictly_inc(r) && r.len() == k && (forall|x: usize| s.contains(x) ==> r.contains(x)) && (
        forall|x: usize| r.contains(x) ==> s.contains(x) || pool.contains(x))
    } by {
        let c = cs[i];
        assert(out[i] == merge_sorted(s, c));
        lemma_subseq_strictly_inc(c, pool);
        lemma_subseq_elements(c, pool);
        assert forall|x: usize| c.contains(x) implies pool.contains(x) by {
            let w = choose|w: int| 0 <= w < c.len() && c[w] == x;
            assert(pool.contains(c[w]));
        }
        lemma_merge_props(s, c);
    }
    assert forall|i: int, j: int| 0 <= i < j < out.len() implies out[i] != out[j] by {
        let ci = cs[i];
        let cj = cs[j];
        assert(out[i] == merge_sorted(s, ci));
        assert(out[j] == merge_sorted(s, cj));
        lemma_subseq_strictly_inc(ci, pool);
        lemma_subseq_strictly_inc(cj, pool);
        lemma_subseq_elements(ci, pool);
        lemma_subseq_elements(cj, pool);
        assert forall|x: usize| ci.contains(x) implies pool.contains(x) by {
            let w = choose|w: int| 0 <= w < ci.len() && ci[w] == x;
            assert(pool.contains(ci[w]));
        }
        assert forall|x: usize| cj.contains(x) implies pool.contains(x) by {
            let w = choose|w: int| 0 <= w < cj.len() && cj[w] == x;
            assert(pool.contains(cj[w]));
        }
        lemma_merge_props(s, ci);
        lemma_merge_props(s, cj);
        if out[i] == out[j] {
            assert forall|x: usize| ci.contains(x) <==> cj.contains(x) by {
                if ci.contains(x) {
                    assert(merge_sorted(s, ci).contains(x));
                    assert(merge_sorted(s, cj).contains(x));
                    assert(!s.contains(x));
                }
                if cj.contains(x) {
                    assert(merge_sorted(s, cj).contains(x));
                    assert(merge_sorted(s, ci).contains(x));
                    assert(!s.contains(x));
                }
            }
            lemma_inc_same_elements(ci, cj);
            assert(false);
        }
    }
}

} // verus!
