//! Coverage model of a design: which t-combinations a sequence of blocks
//! covers, and the multiset facts behind the exact-cover invariant.

use crate::combinatorics::combos_spec;
use crate::combinatorics::lemma_combos_complete;
use crate::combinatorics::lemma_combos_count;
use crate::combinatorics::lemma_combos_elems;
use crate::combinatorics::lemma_combos_no_dup;
use crate::combinatorics::lemma_inc_in_range_subseq;
use crate::combinatorics::lemma_strictly_inc_no_dup;
use crate::combinatorics::lemma_range_inc;
use crate::combinatorics::lemma_subseq_elements;
use crate::combinatorics::lemma_subseq_strictly_inc;
use crate::combinatorics::lemma_subseq_trans;
use crate::combinatorics::n_choose_k;
use crate::combinatorics::range_seq;
use crate::combinatorics::strictly_inc;
use vstd::multiset::Multiset;
use vstd::prelude::*;

verus! {

/// A well-formed block: a strictly ascending k-element subset of 1..=n.
pub open spec fn block_wf(b: Seq<usize>, k: nat, n: nat) -> bool {
    strictly_inc(b) && b.len() == k && (forall|i: int|
        0 <= i < b.len() ==> 1 <= #[trigger] b[i] <= n)
}

/// Every t-combination of the universe 1..=n.
pub open spec fn full_combos(t: nat, n: nat) -> Seq<Seq<usize>> {
    combos_spec(range_seq(1, n + 1 as int), t)
}

/// The t-combinations covered by a design, block by block.
pub open spec fn design_cover(blocks: Seq<Seq<usize>>, t: nat) -> Seq<Seq<usize>>
    decreases blocks.len(),
{
    if blocks.len() == 0 {
        Seq::<Seq<usize>>::empty()
    } else {
        combos_spec(blocks[0], t) + design_cover(blocks.drop_first(), t)
    }
}

/// The elements of `u` outside `l`, keeping their order.
pub open spec fn remove_covered(u: Seq<Seq<usize>>, l: Seq<Seq<usize>>) -> Seq<Seq<usize>>
    decreases u.len(),
{
    if u.len() == 0 {
        u
    } else {
        remove_covered(u.drop_last(), l) + (if l.contains(u.last()) {
            Seq::<Seq<usize>>::empty()
        } else {
            seq![u.last()]
        })
    }
}

/// The elements of `u` inside `l`, keeping their order.
pub open spec fn take_covered(u: Seq<Seq<usize>>, l: Seq<Seq<usize>>) -> Seq<Seq<usize>>
    decreases u.len(),
{
    if u.len() == 0 {
        u
    } else {
        take_covered(u.drop_last(), l) + (if l.contains(u.last()) {
            seq![u.last()]
        } else {
            Seq::<Seq<usize>>::empty()
        })
    }
}

/// What a pushed sequence holds.
pub proof fn lemma_push_contains<A>(s: Seq<A>, e: A)
    ensures
        forall|c: A| #[trigger] s.push(e).contains(c) <==> s.contains(c) || c == e,
{
    assert forall|c: A| #[trigger] s.push(e).contains(c) implies s.contains(c) || c == e by {
        let w = choose|w: int| 0 <= w < s.push(e).len() && s.push(e)[w] == c;
        if w < s.len() {
            assert(s[w] == c);
        }
    }
    assert forall|c: A| s.contains(c) || c == e implies #[trigger] s.push(e).contains(c) by {
        if c == e {
            assert(s.push(e)[s.len() as int] == c);
        } else {
            let w = choose|w: int| 0 <= w < s.len() && s[w] == c;
            assert(s.push(e)[w] == c);
        }
    }
}

/// Pushing a fresh element keeps a sequence duplicate-free.
pub proof fn lemma_push_no_dup<A>(s: Seq<A>, e: A)
    requires
        s.no_duplicates(),
        !s.contains(e),
    ensures
        s.push(e).no_duplicates(),
{
    assert forall|i: int, j: int| 0 <= i < j < s.push(e).len() implies s.push(e)[i] != s.push(
        e,
    )[j] by {
        if j < s.len() {
            assert(s[i] != s[j]);
        } else {
            assert(s.push(e)[j] == e);
            assert(s.push(e)[i] == s[i]);
            assert(s.contains(s[i]));
        }
    }
}

/// Splitting off the covered part of `u` loses nothing.
pub proof fn lemma_split_covered(u: Seq<Seq<usize>>, l: Seq<Seq<usize>>)
    ensures
        remove_covered(u, l).to_multiset().add(take_covered(u, l).to_multiset())
            == u.to_multiset(),
    decreases u.len(),
{
    broadcast use vstd::multiset::group_multiset_axioms;
    broadcast use vstd::seq_lib::group_to_multiset_ensures;

    if u.len() == 0 {
        assert(u.to_multiset() =~= Multiset::<Seq<usize>>::empty());
        assert(remove_covered(u, l).to_multiset().add(take_covered(u, l).to_multiset())
            =~= u.to_multiset());
    } else {
        let dl = u.drop_last();
        lemma_split_covered(dl, l);
        assert(dl.push(u.last()) =~= u);
        assert(dl.push(u.last()).to_multiset() =~= dl.to_multiset().insert(u.last()));
        if l.contains(u.last()) {
            assert(take_covered(u, l) =~= take_covered(dl, l).push(u.last()));
            assert(remove_covered(u, l) =~= remove_covered(dl, l));
            assert(remove_covered(u, l).to_multiset().add(take_covered(u, l).to_multiset())
                =~= u.to_multiset());
        } else {
            assert(remove_covered(u, l) =~= remove_covered(dl, l).push(u.last()));
            assert(take_covered(u, l) =~= take_covered(dl, l));
            assert(remove_covered(u, l).to_multiset().add(take_covered(u, l).to_multiset())
                =~= u.to_multiset());
        }
    }
}

/// What the two halves of the split hold.
pub proof fn lemma_covered_contains(u: Seq<Seq<usize>>, l: Seq<Seq<usize>>)
    ensures
        forall|c: Seq<usize>|
            #[trigger] remove_covered(u, l).contains(c) <==> u.contains(c) && !l.contains(c),
        forall|c: Seq<usize>|
            #[trigger] take_covered(u, l).contains(c) <==> u.contains(c) && l.contains(c),
    decreases u.len(),
{
    if u.len() == 0 {
    } else {
        let dl = u.drop_last();
        lemma_covered_contains(dl, l);
        assert(dl.push(u.last()) =~= u);
        lemma_push_contains(dl, u.last());
        assert(forall|c: Seq<usize>| #[trigger]
            u.contains(c) <==> dl.contains(c) || c == u.last());
        if l.contains(u.last()) {
            assert(take_covered(u, l) =~= take_covered(dl, l).push(u.last()));
            assert(remove_covered(u, l) =~= remove_covered(dl, l));
            lemma_push_contains(take_covered(dl, l), u.last());
            assert(forall|c: Seq<usize>| #[trigger]
                take_covered(u, l).contains(c) <==> take_covered(dl, l).contains(c) || c
                    == u.last());
        } else {
            assert(remove_covered(u, l) =~= remove_covered(dl, l).push(u.last()));
            assert(take_covered(u, l) =~= take_covered(dl, l));
            lemma_push_contains(remove_covered(dl, l), u.last());
            assert(forall|c: Seq<usize>| #[trigger]
                remove_covered(u, l).contains(c) <==> remove_covered(dl, l).contains(c) || c
                    == u.last());
        }
    }
}

/// The split of a duplicate-free sequence is duplicate-free.
pub proof fn lemma_covered_no_dup(u: Seq<Seq<usize>>, l: Seq<Seq<usize>>)
    requires
        u.no_duplicates(),
    ensures
        remove_covered(u, l).no_duplicates(),
        take_covered(u, l).no_duplicates(),
    decreases u.len(),
{
    if u.len() == 0 {
    } else {
        let dl = u.drop_last();
        assert(dl.no_duplicates());
        lemma_covered_no_dup(dl, l);
        lemma_covered_contains(dl, l);
        assert(!dl.contains(u.last())) by {
            if dl.contains(u.last()) {
                let w = choose|w: int| 0 <= w < dl.len() && dl[w] == u.last();
                assert(u[w] == u[u.len() - 1]);
                assert(false);
            }
        }
        if l.contains(u.last()) {
            assert(take_covered(u, l) =~= take_covered(dl, l).push(u.last()));
            lemma_push_no_dup(take_covered(dl, l), u.last());
            assert(take_covered(u, l).no_duplicates());
        } else {
            assert(remove_covered(u, l) =~= remove_covered(dl, l).push(u.last()));
            lemma_push_no_dup(remove_covered(dl, l), u.last());
            assert(remove_covered(u, l).no_duplicates());
        }
    }
}

/// Duplicate-free sequences over the same elements have the same multiset.
pub proof fn lemma_no_dup_same_elems_same_multiset(a: Seq<Seq<usize>>, b: Seq<Seq<usize>>)
    requires
        a.no_duplicates(),
        b.no_duplicates(),
        forall|c: Seq<usize>| a.contains(c) <==> b.contains(c),
    ensures
        a.to_multiset() == b.to_multiset(),
{
    broadcast use vstd::seq_lib::group_to_multiset_ensures;

    a.lemma_multiset_has_no_duplicates();
    b.lemma_multiset_has_no_duplicates();
    assert forall|c: Seq<usize>| a.to_multiset().count(c) == b.to_multiset().count(c) by {
        assert(a.contains(c) <==> a.to_multiset().count(c) > 0);
        assert(b.contains(c) <==> b.to_multiset().count(c) > 0);
    }
    assert(a.to_multiset() =~= b.to_multiset());
}

/// Inserting a block anywhere adds exactly its own coverage.
pub proof fn lemma_cover_insert(blocks: Seq<Seq<usize>>, p: int, b: Seq<usize>, t: nat)
    requires
        0 <= p <= blocks.len(),
    ensures
        design_cover(blocks.insert(p, b), t).to_multiset() == design_cover(
            blocks,
            t,
        ).to_multiset().add(combos_spec(b, t).to_multiset()),
    decreases p,
{
    broadcast use vstd::multiset::group_multiset_axioms;
    broadcast use vstd::seq_lib::lemma_multiset_commutative;

    let ins = blocks.insert(p, b);
    if p == 0 {
        assert(ins =~= seq![b] + blocks);
        assert(ins[0] == b);
        assert(ins.drop_first() =~= blocks);
        assert(design_cover(ins, t) == combos_spec(b, t) + design_cover(blocks, t));
        assert(design_cover(ins, t).to_multiset() =~= design_cover(blocks, t).to_multiset().add(
            combos_spec(b, t).to_multiset(),
        ));
    } else {
        assert(blocks.len() > 0);
        assert(ins[0] == blocks[0]);
        assert(ins.drop_first() =~= blocks.drop_first().insert(p - 1, b));
        lemma_cover_insert(blocks.drop_first(), p - 1, b, t);
        assert(design_cover(ins, t) == combos_spec(blocks[0], t) + design_cover(
            ins.drop_first(),
            t,
        ));
        assert(design_cover(blocks, t) == combos_spec(blocks[0], t) + design_cover(
            blocks.drop_first(),
            t,
        ));
        assert(design_cover(ins, t).to_multiset() =~= design_cover(blocks, t).to_multiset().add(
            combos_spec(b, t).to_multiset(),
        ));
    }
}

/// A design of well-formed blocks covers |blocks| * C(k, t) combinations.
pub proof fn lemma_cover_len(blocks: Seq<Seq<usize>>, t: nat, k: nat, n: nat)
    requires
        forall|i: int| 0 <= i < blocks.len() ==> block_wf(#[trigger] blocks[i], k, n),
    ensures
        design_cover(blocks, t).len() == blocks.len() * n_choose_k(k, t),
    decreases blocks.len(),
{
    if blocks.len() == 0 {
    } else {
        assert(forall|i: int|
            0 <= i < blocks.drop_first().len() ==> block_wf(
                #[trigger] blocks.drop_first()[i],
                k,
                n,
            ));
        lemma_cover_len(blocks.drop_first(), t, k, n);
        assert(block_wf(blocks[0], k, n));
        lemma_combos_count(blocks[0], t);
        let cc = n_choose_k(k, t);
        assert(design_cover(blocks, t).len() == cc + (blocks.len() - 1) * cc);
        assert(cc + (blocks.len() - 1) * cc == blocks.len() * cc) by (nonlinear_arith);
    }
}

/// A combination is covered exactly when some block covers it.
pub proof fn lemma_cover_contains(blocks: Seq<Seq<usize>>, t: nat, c: Seq<usize>)
    ensures
        design_cover(blocks, t).contains(c) <==> exists|i: int|
            0 <= i < blocks.len() && combos_spec(#[trigger] blocks[i], t).contains(c),
    decreases blocks.len(),
{
    if blocks.len() == 0 {
    } else {
        lemma_cover_contains(blocks.drop_first(), t, c);
        let head = combos_spec(blocks[0], t);
        let rest = design_cover(blocks.drop_first(), t);
        assert(design_cover(blocks, t) == head + rest);
        if design_cover(blocks, t).contains(c) {
            let w = choose|w: int|
                0 <= w < design_cover(blocks, t).len() && design_cover(blocks, t)[w] == c;
            if w < head.len() {
                assert(head[w] == c);
                assert(head.contains(c));
                assert(combos_spec(blocks[0], t).contains(c));
            } else {
                assert(rest[w - head.len()] == c);
                assert(rest.contains(c));
                let i = choose|i: int|
                    0 <= i < blocks.drop_first().len() && combos_spec(
                        #[trigger] blocks.drop_first()[i],
                        t,
                    ).contains(c);
                assert(blocks[i + 1] == blocks.drop_first()[i]);
                assert(combos_spec(blocks[i + 1], t).contains(c));
            }
        }
        if exists|i: int| 0 <= i < blocks.len() && combos_spec(#[trigger] blocks[i], t).contains(
            c,
        ) {
            let i = choose|i: int|
                0 <= i < blocks.len() && combos_spec(#[trigger] blocks[i], t).contains(c);
            if i == 0 {
                let w = choose|w: int| 0 <= w < head.len() && head[w] == c;
                assert(design_cover(blocks, t)[w] == c);
            } else {
                assert(blocks.drop_first()[i - 1] == blocks[i]);
                assert(rest.contains(c));
                let w = choose|w: int| 0 <= w < rest.len() && rest[w] == c;
                assert(design_cover(blocks, t)[head.len() + w] == c);
            }
        }
    }
}

/// A combination still waiting to be covered is a t-combination of the
/// universe: strictly ascending, of length t, with values in 1..=n.
pub proof fn lemma_unused_member(
    unused: Seq<Seq<usize>>,
    used: Seq<Seq<usize>>,
    c: Seq<usize>,
    t: nat,
    n: nat,
)
    requires
        (unused + used).to_multiset() == full_combos(t, n).to_multiset(),
        unused.contains(c),
        n <= usize::MAX,
    ensures
        strictly_inc(c),
        c.len() == t,
        forall|i: int| 0 <= i < c.len() ==> 1 <= #[trigger] c[i] <= n,
{
    broadcast use vstd::multiset::group_multiset_axioms;
    broadcast use vstd::seq_lib::group_to_multiset_ensures;

    let full = full_combos(t, n);
    let u_seq = range_seq(1, n + 1 as int);
    let uu = unused + used;
    let w = choose|w: int| 0 <= w < unused.len() && unused[w] == c;
    assert(uu[w] == c);
    assert(uu.contains(c));
    assert(uu.to_multiset().count(c) > 0);
    assert(full.to_multiset().count(c) > 0);
    assert(full.contains(c));
    let v = choose|v: int| 0 <= v < full.len() && full[v] == c;
    lemma_combos_elems(u_seq, t);
    assert(full[v].len() == t && crate::combinatorics::is_subsequence(full[v], u_seq));
    lemma_range_inc(1, n + 1 as int);
    lemma_subseq_strictly_inc(c, u_seq);
    lemma_subseq_elements(c, u_seq);
    assert forall|i: int| 0 <= i < c.len() implies 1 <= #[trigger] c[i] <= n by {
        assert(u_seq.contains(c[i]));
        let q = choose|q: int| 0 <= q < u_seq.len() && u_seq[q] == c[i];
        assert(u_seq[q] == (1 + q) as usize);
    }
}

/// One expansion step preserves the exact-cover invariant: inserting a
/// block whose coverage is disjoint from everything already covered moves
/// exactly that coverage from `unused` to `used`.
pub proof fn lemma_expand_state(
    unused: Seq<Seq<usize>>,
    used: Seq<Seq<usize>>,
    blocks: Seq<Seq<usize>>,
    b: Seq<usize>,
    p: int,
    t: nat,
    k: nat,
    n: nat,
)
    requires
        (unused + used).to_multiset() == full_combos(t, n).to_multiset(),
        used.to_multiset() == design_cover(blocks, t).to_multiset(),
        block_wf(b, k, n),
        forall|c: Seq<usize>| !(used.contains(c) && combos_spec(b, t).contains(c)),
        0 <= p <= blocks.len(),
        n <= usize::MAX,
    ensures
        (remove_covered(unused, combos_spec(b, t)) + (used + combos_spec(b, t))).to_multiset()
            == full_combos(t, n).to_multiset(),
        (used + combos_spec(b, t)).to_multiset() == design_cover(
            blocks.insert(p, b),
            t,
        ).to_multiset(),
{
    broadcast use vstd::multiset::group_multiset_axioms;
    broadcast use vstd::seq_lib::group_to_multiset_ensures;
    broadcast use vstd::seq_lib::lemma_multiset_commutative;

    let l = combos_spec(b, t);
    let full = full_combos(t, n);
    let u_seq = range_seq(1, n + 1 as int);
    crate::combinatorics::lemma_range_inc(1, n + 1 as int);
    assert(strictly_inc(u_seq));
    lemma_strictly_inc_no_dup(u_seq);
    lemma_combos_no_dup(u_seq, t);
    full.lemma_multiset_has_no_duplicates();
    assert forall|c: Seq<usize>| (unused + used).to_multiset().contains(c) implies (unused
        + used).to_multiset().count(c) == 1 by {
        assert(full.to_multiset().count(c) > 0);
        assert(full.contains(c));
    }
    (unused + used).lemma_multiset_has_no_duplicates_conv();
    let uu = unused + used;
    assert forall|i: int, j: int| 0 <= i < j < unused.len() implies unused[i] != unused[j] by {
        assert(uu[i] == unused[i] && uu[j] == unused[j]);
    }
    assert forall|i: int, j: int| 0 <= i < j < used.len() implies used[i] != used[j] by {
        assert(uu[unused.len() + i] == used[i] && uu[unused.len() + j] == used[j]);
    }
    assert(unused.no_duplicates());
    assert(used.no_duplicates());
    lemma_strictly_inc_no_dup(b);
    lemma_combos_no_dup(b, t);
    lemma_combos_elems(b, t);
    lemma_inc_in_range_subseq(b, 1, n + 1 as int);
    assert forall|c: Seq<usize>| l.contains(c) implies full.contains(c) by {
        let w = choose|w: int| 0 <= w < l.len() && l[w] == c;
        assert(l[w].len() == t && crate::combinatorics::is_subsequence(l[w], b));
        lemma_subseq_trans(c, b, u_seq);
        lemma_combos_complete(u_seq, t, c);
    }
    assert forall|c: Seq<usize>| l.contains(c) implies unused.contains(c) by {
        assert(full.contains(c));
        assert(full.to_multiset().count(c) > 0);
        assert(uu.to_multiset().count(c) > 0);
        assert(uu.contains(c));
        let w = choose|w: int| 0 <= w < uu.len() && uu[w] == c;
        if w >= unused.len() {
            assert(used[w - unused.len()] == c);
            assert(used.contains(c));
            assert(false);
        } else {
            assert(unused[w] == c);
        }
    }
    lemma_covered_no_dup(unused, l);
    lemma_covered_contains(unused, l);
    assert(forall|c: Seq<usize>|
        take_covered(unused, l).contains(c) <==> #[trigger] l.contains(c));
    lemma_no_dup_same_elems_same_multiset(take_covered(unused, l), l);
    lemma_split_covered(unused, l);
    let rem = remove_covered(unused, l);
    assert((rem + (used + l)).to_multiset() =~= full.to_multiset()) by {
        assert((rem + (used + l)).to_multiset() == rem.to_multiset().add(
            (used + l).to_multiset(),
        ));
        assert((used + l).to_multiset() == used.to_multiset().add(l.to_multiset()));
        assert(unused.to_multiset() == rem.to_multiset().add(l.to_multiset()));
        assert(full.to_multiset() == unused.to_multiset().add(used.to_multiset()));
    }
    lemma_cover_insert(blocks, p, b, t);
    assert((used + l).to_multiset() =~= design_cover(blocks.insert(p, b), t).to_multiset());
}

/// A state with nothing left uncovered is an exact cover of the right
/// size: the coverage of its blocks is the full target, and divisibility
/// fixes the number of blocks.
pub proof fn lemma_solution(
    unused: Seq<Seq<usize>>,
    used: Seq<Seq<usize>>,
    blocks: Seq<Seq<usize>>,
    t: nat,
    k: nat,
    n: nat,
)
    requires
        unused.len() == 0,
        n <= usize::MAX,
        (unused + used).to_multiset() == full_combos(t, n).to_multiset(),
        used.to_multiset() == design_cover(blocks, t).to_multiset(),
        forall|i: int| 0 <= i < blocks.len() ==> block_wf(#[trigger] blocks[i], k, n),
    ensures
        design_cover(blocks, t).to_multiset() == full_combos(t, n).to_multiset(),
        blocks.len() * n_choose_k(k, t) == n_choose_k(n, t),
{
    broadcast use vstd::seq_lib::group_to_multiset_ensures;

    assert(unused + used =~= used);
    lemma_cover_len(blocks, t, k, n);
    assert(design_cover(blocks, t).len() == design_cover(blocks, t).to_multiset().len());
    assert(full_combos(t, n).len() == full_combos(t, n).to_multiset().len());
    lemma_combos_count(range_seq(1, n + 1 as int), t);
    assert(range_seq(1, n + 1 as int).len() == n);
}

/// t <= k leaves at least one way to choose.
pub proof fn lemma_choose_pos(k: nat, t: nat)
    requires
        t <= k,
    ensures
        n_choose_k(k, t) >= 1,
    decreases k,
{
    if t > 0 {
        lemma_choose_pos((k - 1) as nat, (t - 1) as nat);
    }
}

/// A design whose coverage is the full target multiset repeats no block:
/// a repeated block would cover one of its own t-combinations twice.
pub proof fn lemma_design_blocks_distinct(blocks: Seq<Seq<usize>>, t: nat, k: nat, n: nat)
    requires
        n <= usize::MAX,
        t <= k,
        design_cover(blocks, t).to_multiset() == full_combos(t, n).to_multiset(),
        forall|i: int| 0 <= i < blocks.len() ==> block_wf(#[trigger] blocks[i], k, n),
    ensures
        blocks.no_duplicates(),
{
    broadcast use vstd::multiset::group_multiset_axioms;
    broadcast use vstd::seq_lib::group_to_multiset_ensures;
    broadcast use vstd::seq_lib::lemma_multiset_commutative;

    let full = full_combos(t, n);
    let u_seq = range_seq(1, n + 1 as int);
    lemma_range_inc(1, n + 1 as int);
    lemma_strictly_inc_no_dup(u_seq);
    lemma_combos_no_dup(u_seq, t);
    full.lemma_multiset_has_no_duplicates();
    assert forall|i: int, j: int| 0 <= i < j < blocks.len() implies blocks[i] != blocks[j] by {
        if blocks[i] == blocks[j] {
            lemma_combos_count(blocks[i], t);
            lemma_choose_pos(k, t);
            let c = combos_spec(blocks[i], t)[0];
            assert(combos_spec(blocks[i], t).contains(c));
            assert(combos_spec(blocks[j], t).contains(c));
            let rm = blocks.remove(i);
            assert(rm.insert(i, blocks[i]) =~= blocks);
            lemma_cover_insert(rm, i, blocks[i], t);
            assert(rm[j - 1] == blocks[j]);
            lemma_cover_contains(rm, t, c);
            assert(design_cover(rm, t).contains(c));
            assert(design_cover(rm, t).to_multiset().count(c) >= 1);
            assert(combos_spec(blocks[i], t).to_multiset().count(c) >= 1);
            assert(design_cover(blocks, t).to_multiset().count(c) >= 2);
            assert(full.to_multiset().count(c) <= 1) by {
                if full.to_multiset().count(c) > 0 {
                    assert(full.contains(c));
                }
            }
            assert(false);
        }
    }
}

/// Exact cover, combination by combination: when a design's coverage is
/// the full target multiset, every t-combination of the universe is
/// covered by exactly one block.
pub proof fn lemma_exact_cover(blocks: Seq<Seq<usize>>, t: nat, n: nat, c: Seq<usize>)
    requires
        n <= usize::MAX,
        design_cover(blocks, t).to_multiset() == full_combos(t, n).to_multiset(),
        full_combos(t, n).contains(c),
    ensures
        exists|i: int| 0 <= i < blocks.len() && combos_spec(#[trigger] blocks[i], t).contains(c),
        forall|i: int, j: int|
            0 <= i < blocks.len() && 0 <= j < blocks.len() && combos_spec(
                #[trigger] blocks[i],
                t,
            ).contains(c) && combos_spec(#[trigger] blocks[j], t).contains(c) ==> i == j,
{
    broadcast use vstd::multiset::group_multiset_axioms;
    broadcast use vstd::seq_lib::group_to_multiset_ensures;
    broadcast use vstd::seq_lib::lemma_multiset_commutative;

    let full = full_combos(t, n);
    let cov = design_cover(blocks, t);
    let u_seq = range_seq(1, n + 1 as int);
    crate::combinatorics::lemma_range_inc(1, n + 1 as int);
    assert(strictly_inc(u_seq));
    lemma_strictly_inc_no_dup(u_seq);
    lemma_combos_no_dup(u_seq, t);
    full.lemma_multiset_has_no_duplicates();
    assert(full.to_multiset().count(c) == 1);
    assert(cov.to_multiset().count(c) == 1);
    assert(cov.contains(c));
    lemma_cover_contains(blocks, t, c);
    assert forall|i: int, j: int|
        0 <= i < blocks.len() && 0 <= j < blocks.len() && combos_spec(
            #[trigger] blocks[i],
            t,
        ).contains(c) && combos_spec(#[trigger] blocks[j], t).contains(c) implies i == j by {
        if i != j {
            let rm = blocks.remove(i);
            assert(rm.insert(i, blocks[i]) =~= blocks);
            lemma_cover_insert(rm, i, blocks[i], t);
            let jr = if j < i {
                j
            } else {
                j - 1
            };
            assert(rm[jr] == blocks[j]);
            lemma_cover_contains(rm, t, c);
            assert(design_cover(rm, t).contains(c));
            assert(design_cover(rm, t).to_multiset().count(c) >= 1);
            assert(combos_spec(blocks[i], t).to_multiset().count(c) >= 1);
            assert(cov.to_multiset().count(c) >= 2);
            assert(false);
        }
    }
}

} // verus!
