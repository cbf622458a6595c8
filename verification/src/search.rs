//! The exhaustive covering-design search: a depth-first exploration of
//! partial covers with memoized per-block coverage and dead-end and
//! duplicate-state pruning.

use crate::combinatorics::combos_spec;
use crate::combinatorics::deep_seq;
use crate::combinatorics::lemma_deep_insert;
use crate::combinatorics::lemma_deep_push;
use crate::combinatorics::larger_sets;
use crate::combinatorics::lemma_superset_candidates_props;
use crate::combinatorics::permutations;
use crate::combinatorics::range_seq;
use crate::combinatorics::strictly_inc;
use crate::combinatorics::superset_candidates;
use crate::cover::block_wf;
use crate::cover::design_cover;
use crate::cover::full_combos;
use crate::cover::lemma_expand_state;
use crate::cover::lemma_push_contains;
use crate::cover::lemma_push_no_dup;
use crate::cover::lemma_solution;
use crate::cover::lemma_unused_member;
use crate::cover::remove_covered;
use crate::combinatorics::n_choose_k;
use vstd::prelude::*;

verus! {

/// The one failure of the engine: construction with parameters that do
/// not satisfy t < k < n.
#[derive(Debug, Clone, Copy, PartialEq, Eq, Structural)]
pub enum SearchError {
    InvalidParameters,
}

/// A partial design: the blocks chosen so far, the t-combinations they
/// cover, and the t-combinations still waiting.
struct SteinerSearch {
    set: Vec<Vec<usize>>,
    unused_permutations: Vec<Vec<usize>>,
    used_permutations: Vec<Vec<usize>>,
}

/// View of a sequence of block-sequences as nested sequences.
spec fn deep3(v: Seq<Vec<Vec<usize>>>) -> Seq<Seq<Seq<usize>>> {
    Seq::new(v.len(), |i: int| deep_seq(v[i]@))
}

/// The exact-cover invariant of one partial design: blocks are well
/// formed, the waiting and covered combinations together are exactly the
/// full target, and the covered ones are exactly the blocks' coverage.
spec fn state_inv(st: SteinerSearch, t: nat, k: nat, n: nat) -> bool {
    let blocks = deep_seq(st.set@);
    let unused = deep_seq(st.unused_permutations@);
    let used = deep_seq(st.used_permutations@);
    &&& forall|i: int| 0 <= i < blocks.len() ==> block_wf(#[trigger] blocks[i], k, n)
    &&& lex_sorted(blocks)
    &&& (unused + used).to_multiset() == full_combos(t, n).to_multiset()
    &&& used.to_multiset() == design_cover(blocks, t).to_multiset()
}

/// The search engine: parameters, the depth-first frontier, the coverage
/// memoization cache, and the dead-end and explored signature caches.
pub struct SteinerSearcher {
    t: usize,
    k: usize,
    n: usize,
    fringe: Vec<SteinerSearch>,
    set_permutations: Vec<(Vec<usize>, Vec<Vec<usize>>)>,
    dead_ends: Vec<Vec<Vec<usize>>>,
    explored: Vec<Vec<Vec<usize>>>,
    emitted: Ghost<Seq<Seq<Seq<usize>>>>,
}

/// What one call of `step` did: returned a finished design, consumed one
/// frontier state, or found the frontier empty.
pub enum StepOutcome {
    /// The popped state was a complete exact cover; here it is.
    Solution(Vec<Vec<usize>>),
    /// One frontier state was discarded as a duplicate or expanded.
    Progress,
    /// The frontier is empty: the search is over.
    Exhausted,
}

/// View of the memoization cache: each block with its recorded coverage.
spec fn memo_view(v: Seq<(Vec<usize>, Vec<Vec<usize>>)>) -> Seq<(Seq<usize>, Seq<Seq<usize>>)> {
    Seq::new(v.len(), |i: int| (v[i].0@, deep_seq(v[i].1@)))
}

/// View of the frontier: each state as (blocks, uncovered, covered).
spec fn frontier_states_view(v: Seq<SteinerSearch>) -> Seq<
    (Seq<Seq<usize>>, Seq<Seq<usize>>, Seq<Seq<usize>>),
> {
    Seq::new(
        v.len(),
        |i: int|
            (
                deep_seq(v[i].set@),
                deep_seq(v[i].unused_permutations@),
                deep_seq(v[i].used_permutations@),
            ),
    )
}

/// A complete exact covering design for S(t, k, n): its blocks' coverage
/// is precisely the full set of t-combinations of 1..=n, each covered
/// once; the blocks are well formed, pairwise distinct, lexicographically
/// sorted, and C(n, t) / C(k, t) in number.
pub open spec fn is_valid_design(d: Seq<Seq<usize>>, t: nat, k: nat, n: nat) -> bool {
    &&& design_cover(d, t).to_multiset() == full_combos(t, n).to_multiset()
    &&& forall|i: int| 0 <= i < d.len() ==> block_wf(#[trigger] d[i], k, n)
    &&& d.len() * n_choose_k(k, t) == n_choose_k(n, t)
    &&& d.no_duplicates()
    &&& lex_sorted(d)
}

proof fn lemma_prefix_refl<A>(a: Seq<A>)
    ensures
        a.is_prefix_of(a),
{
    assert(a =~= a.subrange(0, a.len() as int));
}

proof fn lemma_prefix_push<A>(a: Seq<A>, b: Seq<A>, x: A)
    requires
        a.is_prefix_of(b),
    ensures
        a.is_prefix_of(b.push(x)),
{
    assert forall|i: int| 0 <= i < a.len() implies a[i] == b.push(x).subrange(
        0,
        a.len() as int,
    )[i] by {
        assert(b.push(x)[i] == b[i]);
        assert(a[i] == b.subrange(0, a.len() as int)[i]);
    }
    assert(a =~= b.push(x).subrange(0, a.len() as int));
}

proof fn lemma_prefix_trans<A>(a: Seq<A>, b: Seq<A>, c: Seq<A>)
    requires
        a.is_prefix_of(b),
        b.is_prefix_of(c),
    ensures
        a.is_prefix_of(c),
{
    assert forall|i: int| 0 <= i < a.len() implies a[i] == c.subrange(0, a.len() as int)[i] by {
        assert(a[i] == b.subrange(0, a.len() as int)[i]);
        assert(b[i] == c.subrange(0, b.len() as int)[i]);
    }
    assert(a =~= c.subrange(0, a.len() as int));
}

proof fn lemma_prefix_contains<A>(a: Seq<A>, b: Seq<A>, x: A)
    requires
        a.is_prefix_of(b),
        a.contains(x),
    ensures
        b.contains(x),
{
    let w = choose|w: int| 0 <= w < a.len() && a[w] == x;
    assert(a[w] == b.subrange(0, a.len() as int)[w]);
    assert(b[w] == x);
}

proof fn lemma_memo_push(v: Seq<(Vec<usize>, Vec<Vec<usize>>)>, x: (Vec<usize>, Vec<Vec<usize>>))
    ensures
        memo_view(v.push(x)) =~= memo_view(v).push((x.0@, deep_seq(x.1@))),
{
    assert forall|j: int| 0 <= j < v.len() + 1 implies memo_view(v.push(x))[j] == memo_view(
        v,
    ).push((x.0@, deep_seq(x.1@)))[j] by {
        if j < v.len() {
            assert(v.push(x)[j] == v[j]);
        } else {
            assert(v.push(x)[j] == x);
        }
    }
}

#[verifier::loop_isolation(false)]
fn clone_digits(v: &Vec<usize>) -> (r: Vec<usize>)
    ensures
        r@ == v@,
{
    let mut r: Vec<usize> = Vec::new();
    let mut i: usize = 0;
    while i < v.len()
        invariant
            i <= v.len(),
            r@ =~= v@.take(i as int),
        decreases v.len() - i,
    {
        r.push(v[i]);
        assert(v@.take(i + 1) =~= v@.take(i as int).push(v@[i as int]));
        i += 1;
    }
    assert(v@.take(v@.len() as int) =~= v@);
    r
}

#[verifier::loop_isolation(false)]
fn clone_blocks(v: &Vec<Vec<usize>>) -> (r: Vec<Vec<usize>>)
    ensures
        deep_seq(r@) == deep_seq(v@),
{
    let mut r: Vec<Vec<usize>> = Vec::new();
    let mut i: usize = 0;
    while i < v.len()
        invariant
            i <= v.len(),
            deep_seq(r@) =~= deep_seq(v@).take(i as int),
        decreases v.len() - i,
    {
        let c = clone_digits(&v[i]);
        let ghost prev = r@;
        r.push(c);
        proof {
            lemma_deep_push(prev, c);
            assert(deep_seq(v@).take(i + 1) =~= deep_seq(v@).take(i as int).push(
                deep_seq(v@)[i as int],
            ));
            assert(deep_seq(r@) =~= deep_seq(v@).take(i + 1));
        }
        i += 1;
    }
    assert(deep_seq(v@).take(v@.len() as int) =~= deep_seq(v@));
    r
}

#[verifier::loop_isolation(false)]
fn eq_digits(a: &Vec<usize>, b: &Vec<usize>) -> (r: bool)
    ensures
        r <==> a@ == b@,
{
    if a.len() != b.len() {
        return false;
    }
    let mut i: usize = 0;
    while i < a.len()
        invariant
            i <= a.len(),
            a@.len() == b@.len(),
            forall|j: int| 0 <= j < i ==> a@[j] == b@[j],
        decreases a.len() - i,
    {
        if a[i] != b[i] {
            return false;
        }
        i += 1;
    }
    assert(a@ =~= b@);
    true
}

#[verifier::loop_isolation(false)]
fn contains_usize(v: &Vec<usize>, x: usize) -> (r: bool)
    ensures
        r <==> v@.contains(x),
{
    let mut i: usize = 0;
    while i < v.len()
        invariant
            i <= v.len(),
            forall|j: int| 0 <= j < i ==> v@[j] != x,
        decreases v.len() - i,
    {
        if v[i] == x {
            return true;
        }
        i += 1;
    }
    false
}

#[verifier::loop_isolation(false)]
fn contains_block(list: &Vec<Vec<usize>>, x: &Vec<usize>) -> (r: bool)
    ensures
        r <==> deep_seq(list@).contains(x@),
{
    let mut i: usize = 0;
    while i < list.len()
        invariant
            i <= list.len(),
            forall|j: int| 0 <= j < i ==> deep_seq(list@)[j] != x@,
        decreases list.len() - i,
    {
        if eq_digits(&list[i], x) {
            assert(deep_seq(list@)[i as int] == x@);
            return true;
        }
        i += 1;
    }
    false
}

#[verifier::loop_isolation(false)]
fn eq_sig(a: &Vec<Vec<usize>>, b: &Vec<Vec<usize>>) -> (r: bool)
    ensures
        r <==> deep_seq(a@) == deep_seq(b@),
{
    if a.len() != b.len() {
        assert(deep_seq(a@).len() != deep_seq(b@).len());
        return false;
    }
    let mut i: usize = 0;
    while i < a.len()
        invariant
            i <= a.len(),
            a@.len() == b@.len(),
            forall|j: int| 0 <= j < i ==> deep_seq(a@)[j] == deep_seq(b@)[j],
        decreases a.len() - i,
    {
        if !eq_digits(&a[i], &b[i]) {
            assert(deep_seq(a@)[i as int] != deep_seq(b@)[i as int]);
            return false;
        }
        i += 1;
    }
    assert(deep_seq(a@) =~= deep_seq(b@));
    true
}

#[verifier::loop_isolation(false)]
fn contains_sig(list: &Vec<Vec<Vec<usize>>>, x: &Vec<Vec<usize>>) -> (r: bool)
    ensures
        r <==> deep3(list@).contains(deep_seq(x@)),
{
    let mut i: usize = 0;
    while i < list.len()
        invariant
            i <= list.len(),
            forall|j: int| 0 <= j < i ==> deep3(list@)[j] != deep_seq(x@),
        decreases list.len() - i,
    {
        if eq_sig(&list[i], x) {
            assert(deep3(list@)[i as int] == deep_seq(x@));
            return true;
        }
        i += 1;
    }
    false
}

#[verifier::loop_isolation(false)]
fn any_common(a: &Vec<Vec<usize>>, b: &Vec<Vec<usize>>) -> (r: bool)
    ensures
        r <==> exists|c: Seq<usize>| deep_seq(a@).contains(c) && deep_seq(b@).contains(c),
{
    let mut i: usize = 0;
    while i < a.len()
        invariant
            i <= a.len(),
            forall|j: int| 0 <= j < i ==> !deep_seq(b@).contains(#[trigger] deep_seq(a@)[j]),
        decreases a.len() - i,
    {
        if contains_block(b, &a[i]) {
            assert(deep_seq(a@).contains(deep_seq(a@)[i as int]));
            return true;
        }
        i += 1;
    }
    proof {
        if exists|c: Seq<usize>| deep_seq(a@).contains(c) && deep_seq(b@).contains(c) {
            let c = choose|c: Seq<usize>| deep_seq(a@).contains(c) && deep_seq(b@).contains(c);
            let w = choose|w: int| 0 <= w < deep_seq(a@).len() && deep_seq(a@)[w] == c;
            assert(!deep_seq(b@).contains(deep_seq(a@)[w]));
            assert(false);
        }
    }
    false
}

#[verifier::loop_isolation(false)]
fn remove_all(u: &Vec<Vec<usize>>, l: &Vec<Vec<usize>>) -> (r: Vec<Vec<usize>>)
    ensures
        deep_seq(r@) == remove_covered(deep_seq(u@), deep_seq(l@)),
{
    let ghost us = deep_seq(u@);
    let ghost ls = deep_seq(l@);
    let mut r: Vec<Vec<usize>> = Vec::new();
    let mut i: usize = 0;
    while i < u.len()
        invariant
            i <= u.len(),
            deep_seq(r@) =~= remove_covered(us.take(i as int), ls),
        decreases u.len() - i,
    {
        proof {
            assert(us.take(i + 1).drop_last() =~= us.take(i as int));
            assert(us.take(i + 1).last() == us[i as int]);
        }
        if !contains_block(l, &u[i]) {
            let c = clone_digits(&u[i]);
            let ghost prev = r@;
            r.push(c);
            proof {
                lemma_deep_push(prev, c);
                assert(remove_covered(us.take(i + 1), ls) =~= remove_covered(
                    us.take(i as int),
                    ls,
                ).push(us[i as int]));
                assert(deep_seq(r@) =~= remove_covered(us.take(i + 1), ls));
            }
        } else {
            proof {
                assert(remove_covered(us.take(i + 1), ls) =~= remove_covered(
                    us.take(i as int),
                    ls,
                ));
            }
        }
        i += 1;
    }
    assert(us.take(us.len() as int) =~= us);
    r
}

#[verifier::loop_isolation(false)]
fn append_blocks(dst: &mut Vec<Vec<usize>>, src: &Vec<Vec<usize>>)
    ensures
        deep_seq(final(dst)@) == deep_seq(old(dst)@) + deep_seq(src@),
{
    let mut i: usize = 0;
    while i < src.len()
        invariant
            i <= src.len(),
            deep_seq(dst@) =~= deep_seq(old(dst)@) + deep_seq(src@).take(i as int),
        decreases src.len() - i,
    {
        let c = clone_digits(&src[i]);
        let ghost prev = dst@;
        dst.push(c);
        proof {
            lemma_deep_push(prev, c);
            assert(deep_seq(src@).take(i + 1) =~= deep_seq(src@).take(i as int).push(
                deep_seq(src@)[i as int],
            ));
            assert(deep_seq(dst@) =~= deep_seq(old(dst)@) + deep_seq(src@).take(i + 1));
        }
        i += 1;
    }
    assert(deep_seq(src@).take(src@.len() as int) =~= deep_seq(src@));
}

/// Strict lexicographic order on blocks, a proper prefix counting as
/// smaller.
pub open spec fn lex_lt(a: Seq<usize>, b: Seq<usize>) -> bool
    decreases a.len(),
{
    if b.len() == 0 {
        false
    } else if a.len() == 0 {
        true
    } else if a[0] < b[0] {
        true
    } else if a[0] > b[0] {
        false
    } else {
        lex_lt(a.drop_first(), b.drop_first())
    }
}

/// Ascending by `lex_lt`, neighbor by neighbor.
pub open spec fn lex_sorted(s: Seq<Seq<usize>>) -> bool {
    forall|i: int| 0 <= i < s.len() - 1 ==> !lex_lt(#[trigger] s[i + 1], s[i])
}

proof fn lemma_lex_asym(a: Seq<usize>, b: Seq<usize>)
    requires
        lex_lt(a, b),
    ensures
        !lex_lt(b, a),
    decreases a.len(),
{
    if a.len() > 0 && b.len() > 0 && a[0] == b[0] {
        lemma_lex_asym(a.drop_first(), b.drop_first());
    }
}

/// Lexicographic comparison of two blocks, used to keep the blocks of a
/// signature in a canonical ascending order.
#[verifier::loop_isolation(false)]
fn lex_less(a: &Vec<usize>, b: &Vec<usize>) -> (r: bool)
    ensures
        r <==> lex_lt(a@, b@),
{
    let mut i: usize = 0;
    proof {
        assert(a@.skip(0) =~= a@);
        assert(b@.skip(0) =~= b@);
    }
    while i < a.len() && i < b.len()
        invariant
            i <= a.len(),
            i <= b.len(),
            lex_lt(a@, b@) == lex_lt(a@.skip(i as int), b@.skip(i as int)),
        decreases a.len() - i,
    {
        proof {
            assert(a@.skip(i as int)[0] == a@[i as int]);
            assert(b@.skip(i as int)[0] == b@[i as int]);
            assert(a@.skip(i as int).drop_first() =~= a@.skip(i + 1));
            assert(b@.skip(i as int).drop_first() =~= b@.skip(i + 1));
        }
        if a[i] < b[i] {
            return true;
        }
        if a[i] > b[i] {
            return false;
        }
        i += 1;
    }
    proof {
        if i == a.len() {
            assert(a@.skip(i as int).len() == 0);
        } else {
            assert(b@.skip(i as int).len() == 0);
        }
    }
    a.len() < b.len()
}

/// Inserting a block at the position its order demands keeps a sorted
/// signature sorted.
proof fn lemma_insert_sorted(blocks: Seq<Seq<usize>>, p: int, b: Seq<usize>)
    requires
        lex_sorted(blocks),
        0 <= p <= blocks.len(),
        forall|q: int| 0 <= q < p ==> lex_lt(#[trigger] blocks[q], b),
        p < blocks.len() ==> !lex_lt(blocks[p], b),
    ensures
        lex_sorted(blocks.insert(p, b)),
{
    let ins = blocks.insert(p, b);
    blocks.insert_ensures(p, b);
    assert forall|i: int| 0 <= i < ins.len() - 1 implies !lex_lt(#[trigger] ins[i + 1], ins[i]) by {
        if i + 1 < p {
            assert(ins[i] == blocks[i] && ins[i + 1] == blocks[i + 1]);
        } else if i + 1 == p {
            assert(ins[i] == blocks[i] && ins[i + 1] == b);
            lemma_lex_asym(blocks[i], b);
        } else if i == p {
            assert(ins[i] == b && ins[i + 1] == blocks[i]);
        } else {
            assert(ins[i] == blocks[i - 1] && ins[i + 1] == blocks[i]);
        }
    }
}

#[verifier::loop_isolation(false)]
fn insert_block(set: &Vec<Vec<usize>>, b: Vec<usize>) -> (r: Vec<Vec<usize>>)
    ensures
        exists|p: int|
            {
                &&& 0 <= p <= deep_seq(set@).len()
                &&& deep_seq(r@) == deep_seq(set@).insert(p, b@)
                &&& forall|q: int| 0 <= q < p ==> lex_lt(#[trigger] deep_seq(set@)[q], b@)
                &&& p < deep_seq(set@).len() ==> !lex_lt(deep_seq(set@)[p], b@)
            },
{
    let mut pos: usize = 0;
    while pos < set.len() && lex_less(&set[pos], &b)
        invariant
            pos <= set.len(),
            forall|q: int| 0 <= q < pos ==> lex_lt(#[trigger] deep_seq(set@)[q], b@),
        decreases set.len() - pos,
    {
        pos += 1;
    }
    let mut r = clone_blocks(set);
    assert(r@.len() == deep_seq(r@).len() && set@.len() == deep_seq(set@).len());
    let ghost prev = r@;
    r.insert(pos, b);
    proof {
        assert(r@ == prev.insert(pos as int, b));
        lemma_deep_insert(prev, pos as int, b);
        assert(deep_seq(r@) == deep_seq(set@).insert(pos as int, b@));
    }
    r
}

/// Pushing a signature onto a sequence of signatures pushes its view.
proof fn lemma_deep3_push(v: Seq<Vec<Vec<usize>>>, x: Vec<Vec<usize>>)
    ensures
        deep3(v.push(x)) =~= deep3(v).push(deep_seq(x@)),
{
    assert forall|j: int| 0 <= j < v.len() + 1 implies deep3(v.push(x))[j] == deep3(v).push(
        deep_seq(x@),
    )[j] by {
        if j < v.len() {
            assert(v.push(x)[j] == v[j]);
        } else {
            assert(v.push(x)[j] == x);
        }
    }
}

#[verifier::loop_isolation(false)]
fn append_states(dst: &mut Vec<SteinerSearch>, src: Vec<SteinerSearch>)
    ensures
        final(dst)@ == old(dst)@ + src@,
{
    let mut src = src;
    let ghost orig = src@;
    let total: usize = src.len();
    let mut consumed: usize = 0;
    proof {
        assert(orig.skip(0) =~= orig);
        assert(dst@ =~= old(dst)@ + orig.take(0));
    }
    while src.len() > 0
        invariant
            consumed + src@.len() == total,
            total == orig.len(),
            src@ =~= orig.skip(consumed as int),
            dst@ =~= old(dst)@ + orig.take(consumed as int),
        decreases src.len(),
    {
        let ghost prev_src = src@;
        let ghost prev_dst = dst@;
        let x = src.remove(0);
        proof {
            assert(x == prev_src[0]);
            assert(x == orig[consumed as int]);
            assert(src@ == prev_src.remove(0));
            assert(src@ =~= orig.skip(consumed + 1));
        }
        dst.push(x);
        proof {
            assert(dst@ == prev_dst.push(x));
            assert(orig.take(consumed + 1) =~= orig.take(consumed as int).push(
                orig[consumed as int],
            ));
            assert(dst@ =~= old(dst)@ + orig.take(consumed + 1));
        }
        consumed += 1;
    }
    assert(orig.take(orig.len() as int) =~= orig);
}

/// Whether a freshly generated candidate state duplicates, by signature,
/// one already collected in this expansion step.
#[verifier::loop_isolation(false)]
fn contains_state(list: &Vec<SteinerSearch>, x: &Vec<Vec<usize>>) -> bool {
    let mut i: usize = 0;
    while i < list.len()
        invariant
            i <= list.len(),
        decreases list.len() - i,
    {
        if eq_sig(&list[i].set, x) {
            return true;
        }
        i += 1;
    }
    false
}

/// The base of the frontier potential: strictly more than any vector
/// length can reach, so a batch of children never outweighs one parent.
spec fn pot_base() -> nat {
    (usize::MAX + 2) as nat
}

/// The potential of one partial design, exponential in how many
/// t-combinations it still has to cover.
spec fn pow_base(e: nat) -> nat
    decreases e,
{
    if e == 0 {
        1
    } else {
        pot_base() * pow_base((e - 1) as nat)
    }
}

spec fn state_pot(st: SteinerSearch) -> nat {
    pow_base(st.unused_permutations@.len())
}

/// The termination measure of the search: the summed potential of the
/// frontier. A pop removes one state's potential; an expansion replaces
/// it by at most usize::MAX states of strictly smaller exponent.
spec fn fringe_pot(fr: Seq<SteinerSearch>) -> nat
    decreases fr.len(),
{
    if fr.len() == 0 {
        0
    } else {
        fringe_pot(fr.drop_last()) + state_pot(fr.last())
    }
}

proof fn lemma_pow_pos(e: nat)
    ensures
        pow_base(e) >= 1,
    decreases e,
{
    if e > 0 {
        lemma_pow_pos((e - 1) as nat);
        assert(pot_base() * pow_base((e - 1) as nat) >= 1) by (nonlinear_arith)
            requires
                pow_base((e - 1) as nat) >= 1,
        ;
    }
}

proof fn lemma_pow_mono(e1: nat, e2: nat)
    requires
        e1 <= e2,
    ensures
        pow_base(e1) <= pow_base(e2),
    decreases e2,
{
    if e1 < e2 {
        lemma_pow_mono(e1, (e2 - 1) as nat);
        lemma_pow_pos((e2 - 1) as nat);
        assert(pot_base() * pow_base((e2 - 1) as nat) >= pow_base((e2 - 1) as nat))
            by (nonlinear_arith)
            requires
                pow_base((e2 - 1) as nat) >= 1,
        ;
    }
}

proof fn lemma_fringe_pot_concat(a: Seq<SteinerSearch>, b: Seq<SteinerSearch>)
    ensures
        fringe_pot(a + b) == fringe_pot(a) + fringe_pot(b),
    decreases b.len(),
{
    if b.len() == 0 {
        assert(a + b =~= a);
    } else {
        assert((a + b).drop_last() =~= a + b.drop_last());
        assert((a + b).last() == b.last());
        lemma_fringe_pot_concat(a, b.drop_last());
    }
}

proof fn lemma_fringe_pot_bound(fr: Seq<SteinerSearch>, e: nat)
    requires
        forall|q: int|
            0 <= q < fr.len() ==> (#[trigger] fr[q]).unused_permutations@.len() <= e,
    ensures
        fringe_pot(fr) <= fr.len() * pow_base(e),
    decreases fr.len(),
{
    if fr.len() == 0 {
    } else {
        let dl = fr.drop_last();
        assert(forall|q: int|
            0 <= q < dl.len() ==> (#[trigger] dl[q]).unused_permutations@.len() <= e);
        lemma_fringe_pot_bound(dl, e);
        lemma_pow_mono(fr.last().unused_permutations@.len(), e);
        assert(fringe_pot(fr) <= (fr.len() - 1) * pow_base(e) + pow_base(e));
        assert((fr.len() - 1) * pow_base(e) + pow_base(e) == fr.len() * pow_base(e))
            by (nonlinear_arith);
    }
}

impl SteinerSearcher {
    /// The t parameter the engine was built with.
    pub closed spec fn param_t(self) -> usize {
        self.t
    }

    /// The k parameter the engine was built with.
    pub closed spec fn param_k(self) -> usize {
        self.k
    }

    /// The n parameter the engine was built with.
    pub closed spec fn param_n(self) -> usize {
        self.n
    }

    /// The frontier is empty: no further solution can come.
    pub closed spec fn is_exhausted(self) -> bool {
        self.fringe@.len() == 0
    }

    /// The signatures recorded as dead ends, in recording order.
    pub closed spec fn dead_end_signatures(self) -> Seq<Seq<Seq<usize>>> {
        deep3(self.dead_ends@)
    }

    /// The memoization cache: each block with its recorded coverage, in
    /// recording order.
    pub closed spec fn memo_entries(self) -> Seq<(Seq<usize>, Seq<Seq<usize>>)> {
        memo_view(self.set_permutations@)
    }

    /// The frontier, oldest state first: each partial design as its
    /// (blocks, uncovered, covered) triple.
    pub closed spec fn frontier_view(self) -> Seq<
        (Seq<Seq<usize>>, Seq<Seq<usize>>, Seq<Seq<usize>>),
    > {
        frontier_states_view(self.fringe@)
    }

    /// Every design handed out so far, in emission order.
    pub closed spec fn emitted_designs(self) -> Seq<Seq<Seq<usize>>> {
        self.emitted@
    }

    /// The termination measure of the search: strictly decreased by every
    /// `step` that is not already exhausted.
    pub closed spec fn work_measure(self) -> nat {
        fringe_pot(self.fringe@)
    }

    /// The frontier and the pruning caches of both engines agree.
    pub closed spec fn same_search_state(self, other: Self) -> bool {
        self.fringe == other.fringe && self.explored == other.explored && self.dead_ends
            == other.dead_ends
    }

    /// The signatures recorded as already expanded, in recording order.
    pub closed spec fn explored_signatures(self) -> Seq<Seq<Seq<usize>>> {
        deep3(self.explored@)
    }

    /// The engine's well-formedness: valid parameters, the exact-cover
    /// invariant on every frontier state, a faithful coverage cache, and
    /// an explored cache that never holds a signature twice.
    pub closed spec fn wf(self) -> bool {
        &&& self.t < self.k
        &&& self.k < self.n
        &&& forall|i: int|
            0 <= i < self.fringe@.len() ==> state_inv(
                #[trigger] self.fringe@[i],
                self.t as nat,
                self.k as nat,
                self.n as nat,
            )
        &&& forall|i: int|
            0 <= i < self.set_permutations@.len() ==> deep_seq(
                (#[trigger] self.set_permutations@[i]).1@,
            ) == combos_spec(self.set_permutations@[i].0@, self.t as nat)
        &&& deep3(self.explored@).no_duplicates()
    }

    /// No state is ever expanded twice: the explored cache holds each
    /// signature at most once, at every point of a well-formed engine's
    /// life.
    pub proof fn lemma_explored_no_duplicates(self)
        requires
            self.wf(),
        ensures
            self.explored_signatures().no_duplicates(),
    {
    }

    /// Builds the engine, failing exactly when t < k < n does not hold;
    /// the frontier starts from the single empty design.
    #[verifier::loop_isolation(false)]
    pub fn new(t: usize, k: usize, n: usize) -> (r: Result<Self, SearchError>)
        ensures
            r is Ok <==> t < k && k < n,
            r is Ok ==> (r->Ok_0).wf() && (r->Ok_0).param_t() == t && (r->Ok_0).param_k() == k
                && (r->Ok_0).param_n() == n,
            r is Ok ==> {
                &&& !(r->Ok_0).is_exhausted()
                &&& (r->Ok_0).frontier_view() == seq![
                    (
                        Seq::<Seq<usize>>::empty(),
                        full_combos(t as nat, n as nat),
                        Seq::<Seq<usize>>::empty(),
                    ),
                ]
                &&& (r->Ok_0).explored_signatures() == Seq::<Seq<Seq<usize>>>::empty()
                &&& (r->Ok_0).dead_end_signatures() == Seq::<Seq<Seq<usize>>>::empty()
                &&& (r->Ok_0).memo_entries() == Seq::<(Seq<usize>, Seq<Seq<usize>>)>::empty()
                &&& (r->Ok_0).emitted_designs() == Seq::<Seq<Seq<usize>>>::empty()
            },
            r is Err ==> r->Err_0 == SearchError::InvalidParameters,
    {
        if !(t < k && k < n) {
            return Err(SearchError::InvalidParameters);
        }
        let mut universe: Vec<usize> = Vec::new();
        let mut i: usize = 0;
        while i < n
            invariant
                i <= n,
                universe@ =~= range_seq(1, 1 + i as int),
            decreases n - i,
        {
            universe.push(i + 1);
            assert(universe@ =~= range_seq(1, 2 + i as int));
            i += 1;
        }
        let unused = permutations(&universe, t);
        let st = SteinerSearch {
            set: Vec::new(),
            unused_permutations: unused,
            used_permutations: Vec::new(),
        };
        proof {
            let blocks = deep_seq(st.set@);
            let un = deep_seq(st.unused_permutations@);
            let us = deep_seq(st.used_permutations@);
            assert(blocks.len() == 0);
            assert(us =~= Seq::<Seq<usize>>::empty());
            assert(un + us =~= un);
            assert(un == full_combos(t as nat, n as nat));
            assert(design_cover(blocks, t as nat) =~= Seq::<Seq<usize>>::empty());
            assert(state_inv(st, t as nat, k as nat, n as nat));
        }
        let mut fringe: Vec<SteinerSearch> = Vec::new();
        fringe.push(st);
        let searcher = SteinerSearcher {
            t,
            k,
            n,
            fringe,
            set_permutations: Vec::new(),
            dead_ends: Vec::new(),
            explored: Vec::new(),
            emitted: Ghost(Seq::empty()),
        };
        proof {
            assert(deep3(searcher.explored@) =~= Seq::<Seq<Seq<usize>>>::empty());
            assert(searcher.wf());
            assert(deep3(searcher.dead_ends@) =~= Seq::<Seq<Seq<usize>>>::empty());
            assert(searcher.memo_entries() =~= Seq::<(Seq<usize>, Seq<Seq<usize>>)>::empty());
            assert(searcher.frontier_view() =~= seq![
                (
                    Seq::<Seq<usize>>::empty(),
                    full_combos(t as nat, n as nat),
                    Seq::<Seq<usize>>::empty(),
                ),
            ]);
        }
        Ok(searcher)
    }

    /// The t-combinations covered by `set`, memoized: computed once per
    /// distinct block, then served from the cache.
    #[verifier::loop_isolation(false)]
    pub fn get_item_permutations(&mut self, set: Vec<usize>) -> (r: Vec<Vec<usize>>)
        requires
            old(self).wf(),
        ensures
            final(self).wf(),
            deep_seq(r@) == combos_spec(set@, old(self).param_t() as nat),
            final(self).param_t() == old(self).param_t(),
            final(self).param_k() == old(self).param_k(),
            final(self).param_n() == old(self).param_n(),
            final(self).same_search_state(*old(self)),
            old(self).memo_entries().is_prefix_of(final(self).memo_entries()),
            final(self).emitted_designs() == old(self).emitted_designs(),
    {
        let mut i: usize = 0;
        while i < self.set_permutations.len()
            invariant
                i <= self.set_permutations.len(),
                self == old(self),
            decreases self.set_permutations.len() - i,
        {
            if eq_digits(&self.set_permutations[i].0, &set) {
                let r = clone_blocks(&self.set_permutations[i].1);
                proof {
                    assert(deep_seq((self.set_permutations@[i as int]).1@) == combos_spec(
                        self.set_permutations@[i as int].0@,
                        self.t as nat,
                    ));
                    lemma_prefix_refl(self.memo_entries());
                }
                return r;
            }
            i += 1;
        }
        let permutes = permutations(&set, self.t);
        let copy = clone_blocks(&permutes);
        let ghost prev = self.set_permutations@;
        self.set_permutations.push((set, copy));
        proof {
            assert(self.set_permutations@ == prev.push((set, copy)));
            lemma_memo_push(prev, (set, copy));
            lemma_prefix_refl(memo_view(prev));
            lemma_prefix_push(memo_view(prev), memo_view(prev), (set@, deep_seq(copy@)));
            assert(old(self).memo_entries().is_prefix_of(self.memo_entries()));
            assert forall|j: int| 0 <= j < self.set_permutations@.len() implies deep_seq(
                (#[trigger] self.set_permutations@[j]).1@,
            ) == combos_spec(self.set_permutations@[j].0@, self.t as nat) by {
                if j < prev.len() {
                    assert(self.set_permutations@[j] == prev[j]);
                } else {
                    assert(self.set_permutations@[j] == (set, copy));
                }
            }
            assert(self.wf());
        }
        permutes
    }

    /// One bounded unit of work, one iteration of the pull loop: pops a
    /// single frontier state and discards it as already explored, returns
    /// it as a finished design, or expands it; reports exhaustion when
    /// the frontier is empty. A driver that wants a progress report once
    /// per frontier pop calls this directly. The caches only grow, an
    /// exhausted engine is left untouched, and every other call strictly
    /// shrinks the work measure.
    #[verifier::loop_isolation(false)]
    pub fn step(&mut self) -> (r: StepOutcome)
        requires
            old(self).wf(),
        ensures
            final(self).wf(),
            final(self).param_t() == old(self).param_t(),
            final(self).param_k() == old(self).param_k(),
            final(self).param_n() == old(self).param_n(),
            old(self).is_exhausted() ==> r is Exhausted,
            r is Exhausted ==> *final(self) == *old(self) && old(self).is_exhausted(),
            !(r is Exhausted) ==> final(self).work_measure() < old(self).work_measure(),
            old(self).explored_signatures().is_prefix_of(final(self).explored_signatures()),
            old(self).dead_end_signatures().is_prefix_of(final(self).dead_end_signatures()),
            old(self).memo_entries().is_prefix_of(final(self).memo_entries()),
            forall|v: (Seq<Seq<usize>>, Seq<Seq<usize>>, Seq<Seq<usize>>)|
                #[trigger] old(self).frontier_view().contains(v) ==> final(self).frontier_view().contains(v)
                    || final(self).explored_signatures().contains(v.0),
            (match r {
                StepOutcome::Solution(d) => {
                    &&& is_valid_design(
                        deep_seq(d@),
                        old(self).param_t() as nat,
                        old(self).param_k() as nat,
                        old(self).param_n() as nat,
                    )
                    &&& final(self).emitted_designs() == old(self).emitted_designs().push(
                        deep_seq(d@),
                    )
                },
                _ => final(self).emitted_designs() == old(self).emitted_designs(),
            }),
    {
        let ghost t_g = old(self).t as nat;
        let ghost k_g = old(self).k as nat;
        let ghost n_g = old(self).n as nat;
        if self.fringe.len() == 0 {
            proof {
                lemma_prefix_refl(self.explored_signatures());
                lemma_prefix_refl(self.dead_end_signatures());
                lemma_prefix_refl(self.memo_entries());
            }
            return StepOutcome::Exhausted;
        }
        {
            let ghost pre_fringe = self.fringe@;
            let popped = self.fringe.pop();
            let st = match popped {
                Some(s) => s,
                None => {
                    proof {
                        assert(false);
                    }
                    return StepOutcome::Exhausted;
                },
            };
            proof {
                assert(st == pre_fringe[pre_fringe.len() - 1]);
                assert(self.fringe@ =~= pre_fringe.drop_last());
                assert(self.fringe@ == pre_fringe.drop_last());
                assert(fringe_pot(pre_fringe) == fringe_pot(pre_fringe.drop_last())
                    + state_pot(st));
                lemma_pow_pos(st.unused_permutations@.len());
                assert(state_inv(st, t_g, k_g, n_g));
                assert forall|q: int| 0 <= q < self.fringe@.len() implies state_inv(
                    #[trigger] self.fringe@[q],
                    t_g,
                    k_g,
                    n_g,
                ) by {
                    assert(self.fringe@[q] == pre_fringe[q]);
                }
            }
            if contains_sig(&self.explored, &st.set) {
                proof {
                    lemma_prefix_refl(self.explored_signatures());
                    lemma_prefix_refl(self.dead_end_signatures());
                    lemma_prefix_refl(self.memo_entries());
                    assert(self.wf());
                    assert forall|v: (Seq<Seq<usize>>, Seq<Seq<usize>>, Seq<Seq<usize>>)|
                        #[trigger] frontier_states_view(pre_fringe).contains(
                            v,
                        ) implies self.frontier_view().contains(v)
                        || self.explored_signatures().contains(v.0) by {
                        let w = choose|w: int|
                            0 <= w < frontier_states_view(pre_fringe).len()
                                && frontier_states_view(pre_fringe)[w] == v;
                        if w < pre_fringe.len() - 1 {
                            assert(self.fringe@[w] == pre_fringe[w]);
                            assert(frontier_states_view(self.fringe@)[w] == v);
                        } else {
                            assert(pre_fringe[w] == st);
                            assert(v.0 == deep_seq(st.set@));
                        }
                    }
                }
                return StepOutcome::Progress;
            }
            let sig = clone_blocks(&st.set);
            let ghost prev_explored = self.explored@;
            self.explored.push(sig);
            proof {
                assert(self.explored@ == prev_explored.push(sig));
                lemma_deep3_push(prev_explored, sig);
                lemma_push_no_dup(deep3(prev_explored), deep_seq(sig@));
                assert(deep3(self.explored@).no_duplicates());
                assert(self.wf());
            }
            let ghost blocks_d = deep_seq(st.set@);
            let ghost unused_d = deep_seq(st.unused_permutations@);
            let ghost used_d = deep_seq(st.used_permutations@);
            if st.unused_permutations.len() == 0 {
                proof {
                    lemma_solution(unused_d, used_d, blocks_d, t_g, k_g, n_g);
                    crate::cover::lemma_design_blocks_distinct(blocks_d, t_g, k_g, n_g);
                    lemma_prefix_refl(deep3(prev_explored));
                    lemma_prefix_push(
                        deep3(prev_explored),
                        deep3(prev_explored),
                        deep_seq(sig@),
                    );
                    lemma_prefix_refl(self.dead_end_signatures());
                    lemma_prefix_refl(self.memo_entries());
                    assert(is_valid_design(blocks_d, t_g, k_g, n_g));
                    assert(self.explored_signatures() == deep3(prev_explored).push(
                        deep_seq(sig@),
                    ));
                    assert(self.explored_signatures().contains(deep_seq(st.set@))) by {
                        assert(self.explored_signatures().last() == deep_seq(sig@));
                    }
                    assert forall|v: (Seq<Seq<usize>>, Seq<Seq<usize>>, Seq<Seq<usize>>)|
                        #[trigger] frontier_states_view(pre_fringe).contains(
                            v,
                        ) implies self.frontier_view().contains(v)
                        || self.explored_signatures().contains(v.0) by {
                        let w = choose|w: int|
                            0 <= w < frontier_states_view(pre_fringe).len()
                                && frontier_states_view(pre_fringe)[w] == v;
                        if w < pre_fringe.len() - 1 {
                            assert(self.fringe@[w] == pre_fringe[w]);
                            assert(frontier_states_view(self.fringe@)[w] == v);
                        } else {
                            assert(pre_fringe[w] == st);
                            assert(v.0 == deep_seq(st.set@));
                        }
                    }
                }
                self.emitted = Ghost(self.emitted@.push(blocks_d));
                return StepOutcome::Solution(st.set);
            }
            let mut new_sets: Vec<SteinerSearch> = Vec::new();
            let mut pi: usize = 0;
            while pi < st.unused_permutations.len()
                invariant
                    self.wf(),
                    self.t == old(self).t,
                    self.k == old(self).k,
                    self.n == old(self).n,
                    pi <= st.unused_permutations.len(),
                    self.fringe@ == pre_fringe.drop_last(),
                    self.explored@ == prev_explored.push(sig),
                    self.dead_ends@ == old(self).dead_ends@,
                    old(self).memo_entries().is_prefix_of(self.memo_entries()),
                    self.emitted@ == old(self).emitted@,
                    forall|q: int|
                        0 <= q < new_sets@.len() ==> state_inv(
                            #[trigger] new_sets@[q],
                            t_g,
                            k_g,
                            n_g,
                        ),
                    forall|q: int|
                        0 <= q < new_sets@.len() ==> (#[trigger] new_sets@[q]).unused_permutations@.len()
                            < st.unused_permutations@.len(),
                decreases st.unused_permutations.len() - pi,
            {
                let perm = clone_digits(&st.unused_permutations[pi]);
                proof {
                    assert(unused_d[pi as int] == perm@);
                    assert(unused_d.contains(perm@));
                    lemma_unused_member(unused_d, used_d, perm@, t_g, n_g);
                }
                let mut pool: Vec<usize> = Vec::new();
                let mut dig: usize = 0;
                while dig < self.n
                    invariant
                        dig <= self.n,
                        strictly_inc(pool@),
                        forall|x: usize| pool@.contains(x) <==> (1 <= x <= dig && !perm@.contains(x)),
                        forall|q: int| 0 <= q < pool@.len() ==> #[trigger] pool@[q] <= dig,
                    decreases self.n - dig,
                {
                    let v: usize = dig + 1;
                    if !contains_usize(&perm, v) {
                        let ghost prevp = pool@;
                        pool.push(v);
                        proof {
                            lemma_push_contains(prevp, v);
                            assert forall|q1: int, q2: int|
                                0 <= q1 < q2 < pool@.len() implies pool@[q1] < pool@[q2] by {
                                if q2 == pool@.len() - 1 {
                                    assert(pool@[q1] == prevp[q1]);
                                    assert(prevp[q1] <= dig);
                                }
                            }
                            assert(strictly_inc(pool@));
                        }
                    }
                    dig += 1;
                }
                let k_exec: usize = self.k;
                let ghost poolv = pool@;
                let ghost permv = perm@;
                let cands = larger_sets(perm, pool, k_exec);
                let ghost scs = superset_candidates(permv, poolv, k_g);
                proof {
                    assert(permv.len() == t_g);
                    assert(t_g < k_g);
                    assert(forall|x: usize| !(permv.contains(x) && poolv.contains(x)));
                    lemma_superset_candidates_props(permv, poolv, k_g);
                    assert(deep_seq(cands@) == scs);
                }
                let mut ci: usize = 0;
                while ci < cands.len()
                    invariant
                        self.wf(),
                        self.t == old(self).t,
                        self.k == old(self).k,
                        self.n == old(self).n,
                        ci <= cands.len(),
                        self.fringe@ == pre_fringe.drop_last(),
                        self.explored@ == prev_explored.push(sig),
                        self.dead_ends@ == old(self).dead_ends@,
                        old(self).memo_entries().is_prefix_of(self.memo_entries()),
                        self.emitted@ == old(self).emitted@,
                        forall|q: int|
                            0 <= q < new_sets@.len() ==> state_inv(
                                #[trigger] new_sets@[q],
                                t_g,
                                k_g,
                                n_g,
                            ),
                        forall|q: int|
                            0 <= q < new_sets@.len() ==> (#[trigger] new_sets@[q]).unused_permutations@.len()
                                < st.unused_permutations@.len(),
                    decreases cands.len() - ci,
                {
                    let ghost bv = deep_seq(cands@)[ci as int];
                    proof {
                        assert(scs[ci as int] == bv);
                        assert(strictly_inc(bv) && bv.len() == k_g);
                        assert forall|q: int| 0 <= q < bv.len() implies 1 <= #[trigger] bv[q]
                            <= n_g by {
                            assert(bv.contains(bv[q]));
                            assert(permv.contains(bv[q]) || poolv.contains(bv[q]));
                        }
                        assert(block_wf(bv, k_g, n_g));
                    }
                    let ghost memo_before = self.memo_entries();
                    let covered = self.get_item_permutations(clone_digits(&cands[ci]));
                    proof {
                        assert(cands@[ci as int]@ == bv);
                        assert(deep_seq(covered@) == combos_spec(bv, t_g));
                        lemma_prefix_trans(
                            old(self).memo_entries(),
                            memo_before,
                            self.memo_entries(),
                        );
                    }
                    if !any_common(&st.used_permutations, &covered) {
                        let nsig = insert_block(&st.set, clone_digits(&cands[ci]));
                        let in_dead = contains_sig(&self.dead_ends, &nsig);
                        let in_explored = contains_sig(&self.explored, &nsig);
                        if !in_dead && !in_explored {
                            let child_unused = remove_all(&st.unused_permutations, &covered);
                            let mut child_used = clone_blocks(&st.used_permutations);
                            append_blocks(&mut child_used, &covered);
                            let child = SteinerSearch {
                                set: nsig,
                                unused_permutations: child_unused,
                                used_permutations: child_used,
                            };
                            proof {
                                let l = combos_spec(bv, t_g);
                                assert forall|c: Seq<usize>| !(used_d.contains(c)
                                    && l.contains(c)) by {
                                    if used_d.contains(c) && l.contains(c) {
                                        assert(deep_seq(covered@).contains(c));
                                        assert(false);
                                    }
                                }
                                let p = choose|p: int|
                                    {
                                        &&& 0 <= p <= blocks_d.len()
                                        &&& deep_seq(child.set@) == blocks_d.insert(p, bv)
                                        &&& forall|q: int|
                                            0 <= q < p ==> lex_lt(#[trigger] blocks_d[q], bv)
                                        &&& p < blocks_d.len() ==> !lex_lt(blocks_d[p], bv)
                                    };
                                lemma_insert_sorted(blocks_d, p, bv);
                                lemma_expand_state(
                                    unused_d,
                                    used_d,
                                    blocks_d,
                                    bv,
                                    p,
                                    t_g,
                                    k_g,
                                    n_g,
                                );
                                assert(deep_seq(child.unused_permutations@) == remove_covered(
                                    unused_d,
                                    l,
                                ));
                                assert(deep_seq(child.used_permutations@) =~= used_d + l);
                                assert forall|q: int|
                                    0 <= q < deep_seq(child.set@).len() implies block_wf(
                                    #[trigger] deep_seq(child.set@)[q],
                                    k_g,
                                    n_g,
                                ) by {
                                    if q < p {
                                        assert(blocks_d.insert(p, bv)[q] == blocks_d[q]);
                                    } else if q > p {
                                        assert(blocks_d.insert(p, bv)[q] == blocks_d[q - 1]);
                                    }
                                }
                                assert(state_inv(child, t_g, k_g, n_g));
                                let c_combo = combos_spec(poolv, (k_g - permv.len()) as nat)[
                                    ci as int
                                ];
                                assert(bv == crate::combinatorics::merge_sorted(permv, c_combo));
                                crate::combinatorics::lemma_merge_subseq_left(permv, c_combo);
                                crate::combinatorics::lemma_combos_complete(bv, t_g, permv);
                                assert(l.contains(permv));
                                crate::cover::lemma_covered_contains(unused_d, l);
                                assert(crate::cover::take_covered(unused_d, l).contains(permv));
                                crate::cover::lemma_split_covered(unused_d, l);
                                assert(crate::cover::take_covered(unused_d, l).len() > 0) by {
                                    let w = choose|w: int|
                                        0 <= w < crate::cover::take_covered(unused_d, l).len()
                                            && crate::cover::take_covered(unused_d, l)[w]
                                            == permv;
                                }
                                broadcast use vstd::seq_lib::group_to_multiset_ensures;
                                broadcast use vstd::multiset::group_multiset_axioms;
                                assert(unused_d.to_multiset().len() == remove_covered(
                                    unused_d,
                                    l,
                                ).to_multiset().len() + crate::cover::take_covered(
                                    unused_d,
                                    l,
                                ).to_multiset().len());
                                assert(child.unused_permutations@.len() < unused_d.len());
                            }
                            if !contains_state(&new_sets, &child.set) {
                                let ghost prevn = new_sets@;
                                new_sets.push(child);
                                proof {
                                    assert forall|q: int| 0 <= q < new_sets@.len() implies
                                        state_inv(#[trigger] new_sets@[q], t_g, k_g, n_g) by {
                                        if q < prevn.len() {
                                            assert(new_sets@[q] == prevn[q]);
                                        } else {
                                            assert(new_sets@[q] == child);
                                        }
                                    }
                                }
                            }
                        }
                    }
                    ci += 1;
                }
                pi += 1;
            }
            if new_sets.len() == 0 {
                let ghost prev_dead = self.dead_ends@;
                self.dead_ends.push(st.set);
                proof {
                    assert(self.dead_ends@ == prev_dead.push(st.set));
                    lemma_deep3_push(prev_dead, st.set);
                    lemma_prefix_refl(deep3(prev_dead));
                    lemma_prefix_push(deep3(prev_dead), deep3(prev_dead), deep_seq(st.set@));
                    assert(old(self).dead_end_signatures().is_prefix_of(
                        self.dead_end_signatures(),
                    ));
                    assert(fringe_pot(self.fringe@) < fringe_pot(pre_fringe));
                    assert(self.wf());
                }
            } else {
                proof {
                    let u = st.unused_permutations@.len();
                    assert(u >= 1);
                    assert forall|q: int| 0 <= q < new_sets@.len() implies (
                    #[trigger] new_sets@[q]).unused_permutations@.len() <= (u - 1) as nat by {}
                    lemma_fringe_pot_bound(new_sets@, (u - 1) as nat);
                    lemma_pow_pos((u - 1) as nat);
                    assert(new_sets@.len() <= usize::MAX);
                    assert(new_sets@.len() * pow_base((u - 1) as nat) < pot_base() * pow_base(
                        (u - 1) as nat,
                    )) by (nonlinear_arith)
                        requires
                            new_sets@.len() <= usize::MAX,
                            pow_base((u - 1) as nat) >= 1,
                    ;
                    assert(pot_base() * pow_base((u - 1) as nat) == pow_base(u));
                    assert(fringe_pot(new_sets@) < state_pot(st));
                }
                let ghost prev_fringe = self.fringe@;
                let ghost newv = new_sets@;
                append_states(&mut self.fringe, new_sets);
                proof {
                    assert forall|q: int| 0 <= q < self.fringe@.len() implies state_inv(
                        #[trigger] self.fringe@[q],
                        t_g,
                        k_g,
                        n_g,
                    ) by {
                        if q < prev_fringe.len() {
                            assert(self.fringe@[q] == prev_fringe[q]);
                        } else {
                            assert(self.fringe@[q] == newv[q - prev_fringe.len()]);
                        }
                    }
                    assert(self.wf());
                    lemma_fringe_pot_concat(prev_fringe, newv);
                    assert(fringe_pot(self.fringe@) < fringe_pot(pre_fringe));
                    lemma_prefix_refl(self.dead_end_signatures());
                }
            }
            proof {
                lemma_prefix_refl(deep3(prev_explored));
                lemma_prefix_push(deep3(prev_explored), deep3(prev_explored), deep_seq(sig@));
                assert(old(self).explored_signatures().is_prefix_of(
                    self.explored_signatures(),
                ));
                assert(self.explored_signatures() == deep3(prev_explored).push(
                    deep_seq(sig@),
                ));
                assert(self.explored_signatures().contains(deep_seq(st.set@))) by {
                    assert(self.explored_signatures().last() == deep_seq(sig@));
                }
                assert forall|v: (Seq<Seq<usize>>, Seq<Seq<usize>>, Seq<Seq<usize>>)|
                    #[trigger] frontier_states_view(pre_fringe).contains(
                        v,
                    ) implies self.frontier_view().contains(v)
                    || self.explored_signatures().contains(v.0) by {
                    let w = choose|w: int|
                        0 <= w < frontier_states_view(pre_fringe).len()
                            && frontier_states_view(pre_fringe)[w] == v;
                    if w < pre_fringe.len() - 1 {
                        assert(self.fringe@[w] == pre_fringe[w]);
                        assert(frontier_states_view(self.fringe@)[w] == v);
                    } else {
                        assert(pre_fringe[w] == st);
                        assert(v.0 == deep_seq(st.set@));
                    }
                }
            }
            StepOutcome::Progress
        }
    }

    /// Drives the search depth-first until the next complete design, or
    /// until the frontier is exhausted. Every design returned satisfies
    /// `is_valid_design` and is appended to the engine's emission log;
    /// the caches only grow, and an exhausted engine stays exhausted and
    /// untouched, returning nothing further.
    #[verifier::loop_isolation(false)]
    pub fn next(&mut self) -> (r: Option<Vec<Vec<usize>>>)
        requires
            old(self).wf(),
        ensures
            final(self).wf(),
            final(self).param_t() == old(self).param_t(),
            final(self).param_k() == old(self).param_k(),
            final(self).param_n() == old(self).param_n(),
            old(self).is_exhausted() ==> r is None && *final(self) == *old(self),
            old(self).explored_signatures().is_prefix_of(final(self).explored_signatures()),
            old(self).dead_end_signatures().is_prefix_of(final(self).dead_end_signatures()),
            old(self).memo_entries().is_prefix_of(final(self).memo_entries()),
            forall|v: (Seq<Seq<usize>>, Seq<Seq<usize>>, Seq<Seq<usize>>)|
                #[trigger] old(self).frontier_view().contains(v) ==> final(self).frontier_view().contains(v)
                    || final(self).explored_signatures().contains(v.0),
            (match r {
                Some(d) => {
                    &&& is_valid_design(
                        deep_seq(d@),
                        old(self).param_t() as nat,
                        old(self).param_k() as nat,
                        old(self).param_n() as nat,
                    )
                    &&& final(self).emitted_designs() == old(self).emitted_designs().push(
                        deep_seq(d@),
                    )
                },
                None => final(self).is_exhausted() && final(self).emitted_designs() == old(
                    self,
                ).emitted_designs(),
            }),
    {
        proof {
            lemma_prefix_refl(self.explored_signatures());
            lemma_prefix_refl(self.dead_end_signatures());
            lemma_prefix_refl(self.memo_entries());
        }
        loop
            invariant
                self.wf(),
                self.t == old(self).t,
                self.k == old(self).k,
                self.n == old(self).n,
                old(self).explored_signatures().is_prefix_of(self.explored_signatures()),
                old(self).dead_end_signatures().is_prefix_of(self.dead_end_signatures()),
                old(self).memo_entries().is_prefix_of(self.memo_entries()),
                self.emitted@ == old(self).emitted@,
                old(self).is_exhausted() ==> *self == *old(self),
                forall|v: (Seq<Seq<usize>>, Seq<Seq<usize>>, Seq<Seq<usize>>)|
                    #[trigger] old(self).frontier_view().contains(v)
                        ==> self.frontier_view().contains(v)
                        || self.explored_signatures().contains(v.0),
            decreases self.work_measure(),
        {
            let ghost pre = *self;
            let outcome = self.step();
            proof {
                lemma_prefix_trans(
                    old(self).explored_signatures(),
                    pre.explored_signatures(),
                    self.explored_signatures(),
                );
                lemma_prefix_trans(
                    old(self).dead_end_signatures(),
                    pre.dead_end_signatures(),
                    self.dead_end_signatures(),
                );
                lemma_prefix_trans(
                    old(self).memo_entries(),
                    pre.memo_entries(),
                    self.memo_entries(),
                );
                assert forall|v: (Seq<Seq<usize>>, Seq<Seq<usize>>, Seq<Seq<usize>>)|
                    #[trigger] old(self).frontier_view().contains(
                        v,
                    ) implies self.frontier_view().contains(v)
                    || self.explored_signatures().contains(v.0) by {
                    if pre.explored_signatures().contains(v.0) {
                        lemma_prefix_contains(
                            pre.explored_signatures(),
                            self.explored_signatures(),
                            v.0,
                        );
                    }
                }
            }
            match outcome {
                StepOutcome::Solution(d) => {
                    return Some(d);
                },
                StepOutcome::Exhausted => {
                    return None;
                },
                StepOutcome::Progress => {},
            }
        }
    }
}

} // verus!
