//! Weighted-disjunctive-graph (WDG) bound solver: collects, for each
//! unresolved disjunction, the per-partition cost impact of each
//! alternative, prunes Pareto-dominated alternative-pairs, and hands the
//! surviving pairs to an external mixed-integer optimizer. The selection
//! subproblem itself is specified here as `mip_opt`, and pruning is proved
//! to never change its optimal value.

use vstd::prelude::*;

verus! {

/// The cost impact of one alternative on one partition.
#[derive(Clone, Copy, Debug, PartialEq, Eq, Structural)]
pub struct WdgEdge {
    pub partition: u32,
    pub d_cost: i64,
}

/// The cost an alternative imposes on partition `p`: the largest of its
/// entries on that partition, at least 0.
pub open spec fn imposed(alt: Seq<WdgEdge>, p: int) -> int
    decreases alt.len(),
{
    if alt.len() == 0 {
        0
    } else {
        let rest = imposed(alt.drop_last(), p);
        if alt.last().partition as int == p && alt.last().d_cost > rest {
            alt.last().d_cost as int
        } else {
            rest
        }
    }
}

/// Raise per-partition cost floors to what an alternative imposes.
pub open spec fn bump(acc: Seq<int>, alt: Seq<WdgEdge>) -> Seq<int> {
    Seq::new(
        acc.len(),
        |p: int|
            if imposed(alt, p) > acc[p] {
                imposed(alt, p)
            } else {
                acc[p]
            },
    )
}

pub open spec fn sum_seq(acc: Seq<int>) -> int
    decreases acc.len(),
{
    if acc.len() == 0 {
        0
    } else {
        sum_seq(acc.drop_last()) + acc.last()
    }
}

pub open spec fn spec_min(a: int, b: int) -> int {
    if a <= b {
        a
    } else {
        b
    }
}

/// The optimal value of the WDG selection subproblem on top of the
/// per-partition cost floors `acc`: each disjunction resolves to one of its
/// two alternatives, each partition then pays the largest cost imposed on
/// it, and the total payment is minimized over all resolutions.
pub open spec fn mip_opt(ds: Seq<(Seq<WdgEdge>, Seq<WdgEdge>)>, acc: Seq<int>) -> int
    decreases ds.len(),
{
    if ds.len() == 0 {
        sum_seq(acc)
    } else {
        spec_min(
            mip_opt(ds.drop_last(), bump(acc, ds.last().0)),
            mip_opt(ds.drop_last(), bump(acc, ds.last().1)),
        )
    }
}

pub open spec fn zero_costs(nparts: nat) -> Seq<int> {
    Seq::new(nparts, |p: int| 0)
}

/// The optimal value of the whole selection subproblem.
pub open spec fn wdg_opt(ds: Seq<(Seq<WdgEdge>, Seq<WdgEdge>)>, nparts: nat) -> int {
    mip_opt(ds, zero_costs(nparts))
}

/// `a` never imposes more than `b`, on any partition.
pub open spec fn alt_le(a: Seq<WdgEdge>, b: Seq<WdgEdge>) -> bool {
    forall|p: int| #[trigger] imposed(a, p) <= imposed(b, p)
}

/// Pareto dominance: `b` imposes at least as much as `a` on both sides, so
/// `a` is redundant next to `b`.
pub open spec fn pair_le(
    a: (Seq<WdgEdge>, Seq<WdgEdge>),
    b: (Seq<WdgEdge>, Seq<WdgEdge>),
) -> bool {
    alt_le(a.0, b.0) && alt_le(a.1, b.1)
}

/// Dominance is transitive.
pub proof fn lemma_pair_le_trans(
    a: (Seq<WdgEdge>, Seq<WdgEdge>),
    b: (Seq<WdgEdge>, Seq<WdgEdge>),
    c: (Seq<WdgEdge>, Seq<WdgEdge>),
)
    requires
        pair_le(a, b),
        pair_le(b, c),
    ensures
        pair_le(a, c),
{
}

/// The indexed pairs are pairwise non-dominated: a Pareto frontier.
pub open spec fn antichain(ds: Seq<(Seq<WdgEdge>, Seq<WdgEdge>)>, front: Seq<usize>) -> bool {
    forall|q1: int, q2: int|
        0 <= q1 < front.len() && 0 <= q2 < front.len() && q1 != q2 ==> !pair_le(
            ds[#[trigger] front[q1] as int],
            ds[#[trigger] front[q2] as int],
        )
}

proof fn lemma_sum_mono(a: Seq<int>, b: Seq<int>)
    requires
        a.len() == b.len(),
        forall|p: int| 0 <= p < a.len() ==> #[trigger] a[p] <= #[trigger] b[p],
    ensures
        sum_seq(a) <= sum_seq(b),
    decreases a.len(),
{
    if a.len() > 0 {
        lemma_sum_mono(a.drop_last(), b.drop_last());
    }
}

proof fn lemma_mip_mono(ds: Seq<(Seq<WdgEdge>, Seq<WdgEdge>)>, a: Seq<int>, b: Seq<int>)
    requires
        a.len() == b.len(),
        forall|p: int| 0 <= p < a.len() ==> #[trigger] a[p] <= #[trigger] b[p],
    ensures
        mip_opt(ds, a) <= mip_opt(ds, b),
    decreases ds.len(),
{
    if ds.len() == 0 {
        lemma_sum_mono(a, b);
    } else {
        lemma_mip_mono(ds.drop_last(), bump(a, ds.last().0), bump(b, ds.last().0));
        lemma_mip_mono(ds.drop_last(), bump(a, ds.last().1), bump(b, ds.last().1));
    }
}

/// Law (one half of dominance safety): adding a disjunction never lowers
/// the optimal value of the selection subproblem.
pub proof fn lemma_add_disjunction_ge(
    ds: Seq<(Seq<WdgEdge>, Seq<WdgEdge>)>,
    d: (Seq<WdgEdge>, Seq<WdgEdge>),
    acc: Seq<int>,
)
    ensures
        mip_opt(ds.push(d), acc) >= mip_opt(ds, acc),
{
    assert(ds.push(d).drop_last() =~= ds);
    assert(ds.push(d).last() == d);
    lemma_mip_mono(ds, acc, bump(acc, d.0));
    lemma_mip_mono(ds, acc, bump(acc, d.1));
}

proof fn lemma_bump_comm(acc: Seq<int>, a: Seq<WdgEdge>, b: Seq<WdgEdge>)
    ensures
        bump(bump(acc, a), b) == bump(bump(acc, b), a),
{
    assert(bump(bump(acc, a), b) =~= bump(bump(acc, b), a));
}

proof fn lemma_bump_absorb(acc: Seq<int>, a: Seq<WdgEdge>, b: Seq<WdgEdge>)
    requires
        alt_le(a, b),
    ensures
        bump(bump(acc, b), a) == bump(acc, b),
{
    assert(bump(bump(acc, b), a) =~= bump(acc, b));
}

proof fn lemma_dominated_le(
    ds: Seq<(Seq<WdgEdge>, Seq<WdgEdge>)>,
    a: (Seq<WdgEdge>, Seq<WdgEdge>),
    j: int,
    acc: Seq<int>,
)
    requires
        0 <= j < ds.len(),
        pair_le(a, ds[j]),
    ensures
        mip_opt(ds.push(a), acc) <= mip_opt(ds, acc),
    decreases ds.len(),
{
    let d = ds.last();
    let rest = ds.drop_last();
    assert(ds.push(a).drop_last() =~= ds);
    assert(ds.push(a).last() == a);
    if j == ds.len() - 1 {
        // `d` itself dominates `a`: resolving `a` the same way as `d` is free
        lemma_bump_comm(acc, a.0, d.0);
        lemma_bump_absorb(acc, a.0, d.0);
        lemma_bump_comm(acc, a.1, d.1);
        lemma_bump_absorb(acc, a.1, d.1);
        assert(mip_opt(ds, bump(acc, a.0)) <= mip_opt(rest, bump(bump(acc, a.0), d.0)));
        assert(bump(bump(acc, a.0), d.0) == bump(acc, d.0));
        assert(mip_opt(ds, bump(acc, a.1)) <= mip_opt(rest, bump(bump(acc, a.1), d.1)));
        assert(bump(bump(acc, a.1), d.1) == bump(acc, d.1));
    } else {
        assert(rest[j] == ds[j]);
        assert(rest.push(a).drop_last() =~= rest);
        assert(rest.push(a).last() == a);
        lemma_dominated_le(rest, a, j, bump(acc, d.0));
        lemma_dominated_le(rest, a, j, bump(acc, d.1));
        lemma_bump_comm(acc, a.0, d.0);
        lemma_bump_comm(acc, a.1, d.0);
        lemma_bump_comm(acc, a.0, d.1);
        lemma_bump_comm(acc, a.1, d.1);
        // both resolutions of `d` on the left are covered by the inductive
        // hypothesis on the corresponding floors
        assert(mip_opt(ds, bump(acc, a.0)) == spec_min(
            mip_opt(rest, bump(bump(acc, d.0), a.0)),
            mip_opt(rest, bump(bump(acc, d.1), a.0)),
        ));
        assert(mip_opt(ds, bump(acc, a.1)) == spec_min(
            mip_opt(rest, bump(bump(acc, d.0), a.1)),
            mip_opt(rest, bump(bump(acc, d.1), a.1)),
        ));
        assert(mip_opt(rest.push(a), bump(acc, d.0)) == spec_min(
            mip_opt(rest, bump(bump(acc, d.0), a.0)),
            mip_opt(rest, bump(bump(acc, d.0), a.1)),
        ));
        assert(mip_opt(rest.push(a), bump(acc, d.1)) == spec_min(
            mip_opt(rest, bump(bump(acc, d.1), a.0)),
            mip_opt(rest, bump(bump(acc, d.1), a.1)),
        ));
    }
}

/// Law (dominance safety): removing a Pareto-dominated alternative-pair
/// from the selection subproblem never changes its optimal value — here
/// stated as: adding the dominated pair `a` to disjunctions that already
/// contain a dominating pair leaves the optimum exactly unchanged.
pub proof fn lemma_dominance_safety(
    ds: Seq<(Seq<WdgEdge>, Seq<WdgEdge>)>,
    a: (Seq<WdgEdge>, Seq<WdgEdge>),
    j: int,
    nparts: nat,
)
    requires
        0 <= j < ds.len(),
        pair_le(a, ds[j]),
    ensures
        wdg_opt(ds.push(a), nparts) == wdg_opt(ds, nparts),
{
    lemma_add_disjunction_ge(ds, a, zero_costs(nparts));
    lemma_dominated_le(ds, a, j, zero_costs(nparts));
}

/// A singleton alternative with the same partition and no greater cost
/// imposes no more anywhere.
pub proof fn lemma_singleton_le(a: Seq<WdgEdge>, b: Seq<WdgEdge>)
    requires
        a.len() == 1,
        b.len() == 1,
        a[0].partition == b[0].partition,
        0 <= a[0].d_cost <= b[0].d_cost,
    ensures
        alt_le(a, b),
{
    assert forall|p: int| #[trigger] imposed(a, p) <= imposed(b, p) by {
        assert(imposed(a.drop_last(), p) == 0);
        assert(imposed(b.drop_last(), p) == 0);
    }
}

/// Every entry of an alternative is a non-negative cost.
pub open spec fn alt_costs_ok(alt: Seq<WdgEdge>) -> bool {
    forall|k: int| 0 <= k < alt.len() ==> (#[trigger] alt[k]).d_cost >= 0
}

/// The deep view of a stored disjunction list.
pub open spec fn pairs_view(s: Seq<(Vec<WdgEdge>, Vec<WdgEdge>)>) -> Seq<
    (Seq<WdgEdge>, Seq<WdgEdge>),
> {
    s.map(|_i: int, p: (Vec<WdgEdge>, Vec<WdgEdge>)| (p.0@, p.1@))
}

/// The disjunctions that survived dominance pruning, in insertion order.
pub open spec fn active_pairs(ds: Seq<(Seq<WdgEdge>, Seq<WdgEdge>)>, dom: Seq<bool>) -> Seq<
    (Seq<WdgEdge>, Seq<WdgEdge>),
>
    decreases ds.len(),
{
    if ds.len() == 0 {
        Seq::empty()
    } else {
        let rest = active_pairs(ds.drop_last(), dom.drop_last());
        if dom.last() {
            rest
        } else {
            rest.push(ds.last())
        }
    }
}

/// A pair as stored after normalization: a simple pair (one entry per side)
/// is ordered by partition id.
pub open spec fn norm_pair(alt1: Seq<WdgEdge>, alt2: Seq<WdgEdge>) -> (
    Seq<WdgEdge>,
    Seq<WdgEdge>,
) {
    if alt1.len() == 1 && alt2.len() == 1 && alt1[0].partition > alt2[0].partition {
        (alt2, alt1)
    } else {
        (alt1, alt2)
    }
}

/// Total cost of an alternative's entries.
pub open spec fn wdg_cost_sum(s: Seq<WdgEdge>) -> int
    decreases s.len(),
{
    if s.len() == 0 {
        0
    } else {
        wdg_cost_sum(s.drop_last()) + s.last().d_cost
    }
}

pub proof fn lemma_wdg_cost_sum_nonneg(s: Seq<WdgEdge>)
    requires
        alt_costs_ok(s),
    ensures
        wdg_cost_sum(s) >= 0,
    decreases s.len(),
{
    if s.len() > 0 {
        lemma_wdg_cost_sum_nonneg(s.drop_last());
    }
}

/// One non-negative entry never exceeds the total.
pub proof fn lemma_wdg_cost_elem_le_sum(s: Seq<WdgEdge>, i: int)
    requires
        alt_costs_ok(s),
        0 <= i < s.len(),
    ensures
        s[i].d_cost <= wdg_cost_sum(s),
    decreases s.len(),
{
    if i == s.len() - 1 {
        lemma_wdg_cost_sum_nonneg(s.drop_last());
    } else {
        lemma_wdg_cost_elem_le_sum(s.drop_last(), i);
    }
}

pub proof fn lemma_wdg_cost_sum_update(s: Seq<WdgEdge>, i: int, v: WdgEdge)
    requires
        0 <= i < s.len(),
    ensures
        wdg_cost_sum(s.update(i, v)) == wdg_cost_sum(s) - s[i].d_cost + v.d_cost,
    decreases s.len(),
{
    let su = s.update(i, v);
    if i == s.len() - 1 {
        assert(su.drop_last() =~= s.drop_last());
    } else {
        lemma_wdg_cost_sum_update(s.drop_last(), i, v);
        assert(su.drop_last() =~= s.drop_last().update(i, v));
        assert(su.last() == s.last());
    }
}

/// Entry `idx` of `ds` is a simple pair on partitions `(p1, p2)` with
/// non-negative costs.
pub open spec fn simple_pair_ok(
    ds: Seq<(Seq<WdgEdge>, Seq<WdgEdge>)>,
    idx: int,
    p1: u32,
    p2: u32,
) -> bool {
    &&& 0 <= idx < ds.len()
    &&& ds[idx].0.len() == 1
    &&& ds[idx].1.len() == 1
    &&& ds[idx].0[0].partition == p1
    &&& ds[idx].1[0].partition == p2
    &&& alt_costs_ok(ds[idx].0)
    &&& alt_costs_ok(ds[idx].1)
}

pub open spec fn distinct_seq(s: Seq<usize>) -> bool {
    forall|q1: int, q2: int| 0 <= q1 < q2 < s.len() ==> #[trigger] s[q1] != #[trigger] s[q2]
}

/// Does the simple pair `a` impose at least `b`'s cost on both sides?
fn label_dominates(
    ds: &Vec<(Vec<WdgEdge>, Vec<WdgEdge>)>,
    a: usize,
    b: usize,
    p1: u32,
    p2: u32,
) -> (r: bool)
    requires
        simple_pair_ok(pairs_view(ds@), a as int, p1, p2),
        simple_pair_ok(pairs_view(ds@), b as int, p1, p2),
    ensures
        r <==> pair_le(pairs_view(ds@)[b as int], pairs_view(ds@)[a as int]),
{
    let r = ds[a].0[0].d_cost >= ds[b].0[0].d_cost && ds[a].1[0].d_cost >= ds[b].1[0].d_cost;
    proof {
        let dv = pairs_view(ds@);
        assert(dv[a as int].0 == ds@[a as int].0@);
        assert(dv[a as int].1 == ds@[a as int].1@);
        assert(dv[b as int].0 == ds@[b as int].0@);
        assert(dv[b as int].1 == ds@[b as int].1@);
        if r {
            lemma_singleton_le(dv[b as int].0, dv[a as int].0);
            lemma_singleton_le(dv[b as int].1, dv[a as int].1);
        } else {
            // a failed cost comparison refutes dominance: a singleton
            // imposes exactly its cost on its own partition
            if pair_le(dv[b as int], dv[a as int]) {
                assert(imposed(dv[b as int].0, p1 as int) <= imposed(dv[a as int].0, p1 as int));
                assert(imposed(dv[b as int].1, p2 as int) <= imposed(dv[a as int].1, p2 as int));
                assert(imposed(dv[a as int].0.drop_last(), p1 as int) == 0);
                assert(imposed(dv[b as int].0.drop_last(), p1 as int) == 0);
                assert(imposed(dv[a as int].1.drop_last(), p2 as int) == 0);
                assert(imposed(dv[b as int].1.drop_last(), p2 as int) == 0);
                assert(false);
            }
        }
    }
    r
}

/// Maintain the Pareto frontier of one partition-pair key: reject the new
/// pair if an existing one dominates it (returning `false`), otherwise
/// mark every existing pair the new one dominates as dominated and remove
/// it from the frontier (returning `true`).
#[verifier::loop_isolation(false)]
fn remove_dominated(
    ds: &Vec<(Vec<WdgEdge>, Vec<WdgEdge>)>,
    front: &mut Vec<usize>,
    new_elem: usize,
    dominated: &mut Vec<bool>,
    p1: u32,
    p2: u32,
) -> (r: bool)
    requires
        old(dominated)@.len() == ds@.len(),
        simple_pair_ok(pairs_view(ds@), new_elem as int, p1, p2),
        !old(dominated)@[new_elem as int],
        forall|q: int|
            0 <= q < old(front)@.len() ==> {
                &&& simple_pair_ok(pairs_view(ds@), #[trigger] old(front)@[q] as int, p1, p2)
                &&& !old(dominated)@[old(front)@[q] as int]
                &&& old(front)@[q] != new_elem
            },
        distinct_seq(old(front)@),
        antichain(pairs_view(ds@), old(front)@),
    ensures
        final(dominated)@.len() == old(dominated)@.len(),
        forall|i: int|
            0 <= i < old(dominated)@.len() && old(dominated)@[i]
                ==> #[trigger] final(dominated)@[i],
        forall|i: int|
            0 <= i < old(dominated)@.len() && #[trigger] final(dominated)@[i] ==> old(dominated)@[i]
                || pair_le(pairs_view(ds@)[i], pairs_view(ds@)[new_elem as int]),
        forall|i: int|
            0 <= i < old(dominated)@.len() && #[trigger] final(dominated)@[i] != old(dominated)@[i]
                ==> old(front)@.contains(i as usize),
        !final(dominated)@[new_elem as int],
        forall|q: int|
            0 <= q < final(front)@.len() ==> old(front)@.contains(#[trigger] final(front)@[q])
                && !final(dominated)@[final(front)@[q] as int] && final(front)@[q] != new_elem,
        distinct_seq(final(front)@),
        !r ==> {
            &&& final(dominated)@ == old(dominated)@
            &&& exists|q: int|
                0 <= q < old(front)@.len() && pair_le(
                    pairs_view(ds@)[new_elem as int],
                    pairs_view(ds@)[#[trigger] old(front)@[q] as int],
                )
            &&& forall|x: usize| old(front)@.contains(x) <==> final(front)@.contains(x)
        },
        // on insertion: no old pair dominated the new one, nothing vanished
        // silently, and everything the new pair dominates was evicted
        r ==> forall|q: int|
            0 <= q < old(front)@.len() ==> !pair_le(
                pairs_view(ds@)[new_elem as int],
                pairs_view(ds@)[#[trigger] old(front)@[q] as int],
            ),
        r ==> forall|q: int|
            0 <= q < old(front)@.len() ==> final(front)@.contains(#[trigger] old(front)@[q])
                || final(dominated)@[old(front)@[q] as int],
        r ==> forall|q: int|
            0 <= q < final(front)@.len() ==> !pair_le(
                pairs_view(ds@)[#[trigger] final(front)@[q] as int],
                pairs_view(ds@)[new_elem as int],
            ),
{
    let ghost front0 = old(front)@;
    let ghost dom0 = old(dominated)@;
    let ghost dv = pairs_view(ds@);
    let mut index: usize = 0;
    while index < front.len()
        invariant
            index <= front@.len(),
            front@ == front0,
            dominated@ == dom0,
            forall|q: int|
                0 <= q < index ==> !pair_le(
                    dv[new_elem as int],
                    dv[#[trigger] front0[q] as int],
                ) && !pair_le(dv[front0[q] as int], dv[new_elem as int]),
        decreases front@.len() - index,
    {
        let fe = front[index];
        if label_dominates(ds, fe, new_elem, p1, p2) {
            if index > 0 {
                let other = front[index - 1];
                front[index] = other;
                front[index - 1] = fe;
                proof {
                    assert forall|q: int| 0 <= q < front@.len() implies front0.contains(
                        #[trigger] front@[q],
                    ) && front@[q] != new_elem && !dominated@[front@[q] as int] by {
                        if q == index as int {
                            assert(front0[index - 1] == front@[q]);
                        } else if q == index - 1 {
                            assert(front0[index as int] == front@[q]);
                        } else {
                            assert(front0[q] == front@[q]);
                        }
                    }
                    // a swap only permutes: nothing enters or leaves
                    assert forall|x: usize| front0.contains(x) implies front@.contains(x) by {
                        let w = choose|w: int| 0 <= w < front0.len() && front0[w] == x;
                        if w == index as int {
                            assert(front@[index - 1] == x);
                        } else if w == index - 1 {
                            assert(front@[index as int] == x);
                        } else {
                            assert(front@[w] == x);
                        }
                    }
                    assert(distinct_seq(front@)) by {
                        assert forall|q1: int, q2: int|
                            0 <= q1 < q2 < front@.len() implies #[trigger] front@[q1]
                            != #[trigger] front@[q2] by {
                            let m1: int = if q1 == index as int {
                                index - 1
                            } else if q1 == index - 1 {
                                index as int
                            } else {
                                q1
                            };
                            let m2: int = if q2 == index as int {
                                index - 1
                            } else if q2 == index - 1 {
                                index as int
                            } else {
                                q2
                            };
                            assert(front@[q1] == front0[m1]);
                            assert(front@[q2] == front0[m2]);
                        }
                    }
                }
            }
            return false;
        } else if label_dominates(ds, new_elem, fe, p1, p2) {
            // evict this pair and every later pair the new one dominates
            proof {
                // nothing in the frontier dominates the new pair: scanned
                // entries are incomparable, this one is strictly below it,
                // and a later dominator would transitively dominate this
                // one, breaking the frontier's mutual non-domination
                assert forall|q: int| 0 <= q < front0.len() implies !pair_le(
                    dv[new_elem as int],
                    dv[#[trigger] front0[q] as int],
                ) by {
                    if q > index as int && pair_le(dv[new_elem as int], dv[front0[q] as int]) {
                        lemma_pair_le_trans(
                            dv[front0[index as int] as int],
                            dv[new_elem as int],
                            dv[front0[q] as int],
                        );
                    }
                }
            }
            let evicted = front.swap_remove(index);
            dominated[evicted] = true;
            proof {
                assert(evicted == front0[index as int]);
                assert forall|q: int| 0 <= q < front@.len() implies front0.contains(
                    #[trigger] front@[q],
                ) && front@[q] != evicted by {
                    if q == index as int {
                        assert(front@[q] == front0[front0.len() - 1]);
                    } else {
                        assert(front@[q] == front0[q]);
                    }
                }
                assert forall|q: int|
                    0 <= q < front0.len() implies front@.contains(#[trigger] front0[q])
                    || dominated@[front0[q] as int] by {
                    if front0[q] != evicted && q < front0.len() - 1 {
                        if q == index as int {
                            assert(false);
                        } else {
                            assert(front@[q] == front0[q]);
                        }
                    } else if front0[q] != evicted {
                        assert(front@[index as int] == front0[q]);
                    }
                }
                assert(distinct_seq(front@)) by {
                    assert forall|q1: int, q2: int|
                        0 <= q1 < q2 < front@.len() implies #[trigger] front@[q1]
                        != #[trigger] front@[q2] by {
                        if q1 == index as int {
                            assert(front@[q1] == front0[front0.len() - 1]);
                        } else if q2 == index as int {
                            assert(front@[q2] == front0[front0.len() - 1]);
                        }
                    }
                }
            }
            let mut idx2: usize = index;
            while idx2 < front.len()
                invariant
                    idx2 <= front@.len(),
                    dominated@.len() == dom0.len(),
                    forall|i: int| 0 <= i < dom0.len() && dom0[i] ==> #[trigger] dominated@[i],
                    forall|i: int|
                        0 <= i < dom0.len() && #[trigger] dominated@[i] ==> dom0[i] || pair_le(
                            pairs_view(ds@)[i],
                            pairs_view(ds@)[new_elem as int],
                        ),
                    forall|i: int|
                        0 <= i < dom0.len() && #[trigger] dominated@[i] != dom0[i]
                            ==> front0.contains(i as usize),
                    !dominated@[new_elem as int],
                    forall|q: int|
                        0 <= q < front@.len() ==> {
                            &&& front0.contains(#[trigger] front@[q])
                            &&& !dominated@[front@[q] as int]
                            &&& front@[q] != new_elem
                        },
                    forall|q: int|
                        0 <= q < idx2 ==> !pair_le(
                            dv[#[trigger] front@[q] as int],
                            dv[new_elem as int],
                        ),
                    forall|q: int|
                        0 <= q < front0.len() ==> front@.contains(#[trigger] front0[q])
                            || dominated@[front0[q] as int],
                    distinct_seq(front@),
                decreases front@.len() - idx2,
            {
                let fe2 = front[idx2];
                proof {
                    let wq = choose|wq: int| 0 <= wq < front0.len() && front0[wq] == fe2;
                    assert(simple_pair_ok(pairs_view(ds@), fe2 as int, p1, p2));
                }
                if label_dominates(ds, new_elem, fe2, p1, p2) {
                    let ghost front_b = front@;
                    let evicted2 = front.swap_remove(idx2);
                    dominated[evicted2] = true;
                    proof {
                        assert forall|q: int| 0 <= q < front@.len() implies front0.contains(
                            #[trigger] front@[q],
                        ) && front@[q] != evicted2 && front@[q] != new_elem && !dominated@[front@[q]
                            as int] by {
                            if q == idx2 as int {
                                assert(front@[q] == front_b[front_b.len() - 1]);
                            } else {
                                assert(front@[q] == front_b[q]);
                            }
                        }
                        assert forall|q: int|
                            0 <= q < front0.len() implies front@.contains(#[trigger] front0[q])
                            || dominated@[front0[q] as int] by {
                            if front0[q] != evicted2 && !dominated@[front0[q] as int] {
                                assert(front_b.contains(front0[q]));
                                let w = choose|w: int|
                                    0 <= w < front_b.len() && front_b[w] == front0[q];
                                if w == idx2 as int {
                                    assert(false);
                                } else if w == front_b.len() - 1 {
                                    assert(front@[idx2 as int] == front0[q]);
                                } else {
                                    assert(front@[w] == front0[q]);
                                }
                            }
                        }
                        assert(distinct_seq(front@)) by {
                            assert forall|q1: int, q2: int|
                                0 <= q1 < q2 < front@.len() implies #[trigger] front@[q1]
                                != #[trigger] front@[q2] by {
                                if q1 == idx2 as int {
                                    assert(front@[q1] == front_b[front_b.len() - 1]);
                                } else if q2 == idx2 as int {
                                    assert(front@[q2] == front_b[front_b.len() - 1]);
                                }
                            }
                        }
                    }
                } else {
                    idx2 += 1;
                }
            }
            return true;
        }
        index += 1;
    }
    true
}

/// Entry `j` of `ds` is a simple pair on the same (normalized) partition
/// key as the simple pair `p`.
pub open spec fn same_key_simple(
    ds: Seq<(Seq<WdgEdge>, Seq<WdgEdge>)>,
    j: int,
    p: (Seq<WdgEdge>, Seq<WdgEdge>),
) -> bool {
    &&& ds[j].0.len() == 1
    &&& ds[j].1.len() == 1
    &&& ds[j].0[0].partition == p.0[0].partition
    &&& ds[j].1[0].partition == p.1[0].partition
}

/// Collects the cost impacts of unresolved disjunctions and prunes
/// Pareto-dominated simple pairs; the surviving pairs are the input of the
/// external mixed-integer optimizer.
pub struct WdgSolverBinaryMIP {
    disjunctions: Vec<(Vec<WdgEdge>, Vec<WdgEdge>)>,
    simple_pairs: Vec<((u32, u32), Vec<usize>)>,
    dominated: Vec<bool>,
}

impl WdgSolverBinaryMIP {
    /// All collected disjunctions, pruned or not, in insertion order.
    pub closed spec fn disj(self) -> Seq<(Seq<WdgEdge>, Seq<WdgEdge>)> {
        pairs_view(self.disjunctions@)
    }

    /// Which collected disjunctions have been pruned as dominated.
    pub closed spec fn dominated_seq(self) -> Seq<bool> {
        self.dominated@
    }

    /// The disjunctions the optimizer will see.
    pub open spec fn active(self) -> Seq<(Seq<WdgEdge>, Seq<WdgEdge>)> {
        active_pairs(self.disj(), self.dominated_seq())
    }

    pub closed spec fn wf(self) -> bool {
        let n = self.disjunctions@.len() as int;
        &&& self.dominated@.len() == n
        &&& forall|i: int|
            0 <= i < n ==> alt_costs_ok((#[trigger] self.disj()[i]).0) && alt_costs_ok(
                self.disj()[i].1,
            )
        &&& forall|a: int, b: int|
            0 <= a < b < self.simple_pairs@.len() ==> (#[trigger] self.simple_pairs@[a]).0 != (
            #[trigger] self.simple_pairs@[b]).0
        &&& forall|a: int, q: int|
            0 <= a < self.simple_pairs@.len() && 0 <= q < self.simple_pairs@[a].1@.len() ==> {
                let key = (#[trigger] self.simple_pairs@[a]).0;
                let idx = #[trigger] self.simple_pairs@[a].1@[q] as int;
                &&& idx < n
                &&& self.disj()[idx].0.len() == 1
                &&& self.disj()[idx].1.len() == 1
                &&& self.disj()[idx].0[0].partition == key.0
                &&& self.disj()[idx].1[0].partition == key.1
                &&& key.0 <= key.1
                &&& !self.dominated@[idx]
            }
        &&& forall|a: int, q1: int, q2: int|
            0 <= a < self.simple_pairs@.len() && 0 <= q1 < q2 < self.simple_pairs@[a].1@.len()
                ==> #[trigger] self.simple_pairs@[a].1@[q1] != #[trigger] self.simple_pairs@[a].1@[q2]
        // each key's frontier is a Pareto frontier: mutually non-dominated
        &&& forall|a: int|
            0 <= a < self.simple_pairs@.len() ==> antichain(
                self.disj(),
                (#[trigger] self.simple_pairs@[a]).1@,
            )
        // every stored simple pair is normalized
        &&& forall|i: int|
            0 <= i < n && (#[trigger] self.disj()[i]).0.len() == 1 && self.disj()[i].1.len() == 1
                ==> self.disj()[i].0[0].partition <= self.disj()[i].1[0].partition
        // every active simple pair sits on its key's frontier
        &&& forall|i: int|
            0 <= i < n && !self.dominated@[i] && (#[trigger] self.disj()[i]).0.len() == 1
                && self.disj()[i].1.len() == 1 ==> exists|a: int|
                0 <= a < self.simple_pairs@.len() && (#[trigger] self.simple_pairs@[a]).0 == (
                self.disj()[i].0[0].partition,
                self.disj()[i].1[0].partition,
            ) && self.simple_pairs@[a].1@.contains(i as usize)
    }

    /// A fresh, empty solver.
    pub fn new() -> (r: WdgSolverBinaryMIP)
        ensures
            r.wf(),
            r.disj().len() == 0,
            r.active().len() == 0,
    {
        let r = WdgSolverBinaryMIP {
            disjunctions: Vec::new(),
            simple_pairs: Vec::new(),
            dominated: Vec::new(),
        };
        proof {
            assert(r.disj() =~= Seq::<(Seq<WdgEdge>, Seq<WdgEdge>)>::empty());
        }
        r
    }

    /// Reset all state; the solver is repopulated once per evaluated node.
    pub fn clear(&mut self)
        ensures
            final(self).wf(),
            final(self).disj().len() == 0,
            final(self).active().len() == 0,
    {
        self.disjunctions.clear();
        self.simple_pairs.clear();
        self.dominated.clear();
        proof {
            assert(self.disj() =~= Seq::<(Seq<WdgEdge>, Seq<WdgEdge>)>::empty());
        }
    }

    /// Number of collected disjunctions (pruned ones included).
    pub fn num_disjunctions(&self) -> (r: usize)
        ensures
            r == self.disj().len(),
    {
        self.disjunctions.len()
    }

    /// The disjunctions that survived pruning, as plain data for the
    /// external mixed-integer optimizer.
    pub fn mip_disjunctions(&self) -> (r: Vec<(Vec<WdgEdge>, Vec<WdgEdge>)>)
        requires
            self.wf(),
        ensures
            pairs_view(r@) == self.active(),
    {
        let mut r: Vec<(Vec<WdgEdge>, Vec<WdgEdge>)> = Vec::new();
        let mut i: usize = 0;
        proof {
            assert(pairs_view(r@) =~= Seq::<(Seq<WdgEdge>, Seq<WdgEdge>)>::empty());
            assert(self.disj().take(0) =~= Seq::<(Seq<WdgEdge>, Seq<WdgEdge>)>::empty());
            assert(self.dominated_seq().take(0) =~= Seq::<bool>::empty());
        }
        while i < self.disjunctions.len()
            invariant
                self.wf(),
                i <= self.disjunctions@.len(),
                pairs_view(r@) == active_pairs(
                    self.disj().take(i as int),
                    self.dominated_seq().take(i as int),
                ),
            decreases self.disjunctions@.len() - i,
        {
            let ghost rb = r@;
            if !self.dominated[i] {
                let d1 = copy_edges(&self.disjunctions[i].0);
                let d2 = copy_edges(&self.disjunctions[i].1);
                r.push((d1, d2));
                proof {
                    assert(pairs_view(r@) =~= pairs_view(rb).push(self.disj()[i as int]));
                }
            }
            proof {
                let dt = self.disj().take(i + 1);
                let mt = self.dominated_seq().take(i + 1);
                assert(dt.drop_last() =~= self.disj().take(i as int));
                assert(mt.drop_last() =~= self.dominated_seq().take(i as int));
                assert(dt.last() == self.disj()[i as int]);
                assert(mt.last() == self.dominated_seq()[i as int]);
            }
            i += 1;
        }
        proof {
            assert(self.disj().take(self.disj().len() as int) =~= self.disj());
            assert(self.dominated_seq().take(self.dominated_seq().len() as int)
                =~= self.dominated_seq());
        }
        r
    }

    /// Record one disjunction's two alternatives. A simple pair (one
    /// partition on each side) is normalized and held to the Pareto
    /// frontier of its partition-pair key: it is dropped if an active pair
    /// dominates it, and every active pair it dominates is pruned.
    #[verifier::rlimit(100)]
    #[verifier::spinoff_prover]
    pub fn add_disjunction(&mut self, alt1: &Vec<WdgEdge>, alt2: &Vec<WdgEdge>)
        requires
            old(self).wf(),
            alt_costs_ok(alt1@),
            alt_costs_ok(alt2@),
        ensures
            final(self).wf(),
            // a disjunction with a multi-entry side is always stored as is
            (alt1@.len() != 1 || alt2@.len() != 1) ==> final(self).disj() == old(self).disj().push(
                norm_pair(alt1@, alt2@),
            ) && final(self).dominated_seq() == old(self).dominated_seq().push(false),
            ({
                let p = norm_pair(alt1@, alt2@);
                ||| {
                    // inserted: no active pair on its key dominated it, and
                    // every active pair on its key that it dominates is pruned
                    &&& final(self).disj() == old(self).disj().push(p)
                    &&& final(self).dominated_seq().len() == old(self).disj().len() + 1
                    &&& !final(self).dominated_seq().last()
                    &&& forall|i: int|
                        0 <= i < old(self).disj().len() && old(self).dominated_seq()[i]
                            ==> #[trigger] final(self).dominated_seq()[i]
                    &&& forall|i: int|
                        0 <= i < old(self).disj().len() && #[trigger] final(self).dominated_seq()[i]
                            ==> old(self).dominated_seq()[i] || pair_le(old(self).disj()[i], p)
                    &&& (p.0.len() == 1 && p.1.len() == 1 ==> !(exists|j: int|
                        0 <= j < old(self).disj().len() && !old(self).dominated_seq()[j]
                            && same_key_simple(old(self).disj(), j, p) && pair_le(
                            p,
                            #[trigger] old(self).disj()[j],
                        )))
                    &&& (p.0.len() == 1 && p.1.len() == 1 ==> forall|j: int|
                        0 <= j < old(self).disj().len() && !old(self).dominated_seq()[j]
                            && same_key_simple(old(self).disj(), j, p) && pair_le(
                            #[trigger] old(self).disj()[j],
                            p,
                        ) ==> final(self).dominated_seq()[j])
                }
                ||| {
                    // rejected: an active pair on its key dominates it
                    &&& p.0.len() == 1
                    &&& p.1.len() == 1
                    &&& final(self).disj() == old(self).disj()
                    &&& final(self).dominated_seq() == old(self).dominated_seq()
                    &&& exists|q: int|
                        0 <= q < old(self).disj().len() && !old(self).dominated_seq()[q]
                            && same_key_simple(old(self).disj(), q, p) && pair_le(
                            p,
                            #[trigger] old(self).disj()[q],
                        )
                }
            }),
    {
        let ghost pre = *self;
        let simple = alt1.len() == 1 && alt2.len() == 1;
        let swapped = simple && alt1[0].partition > alt2[0].partition;
        let (a1, a2): (&Vec<WdgEdge>, &Vec<WdgEdge>) = if swapped {
            (alt2, alt1)
        } else {
            (alt1, alt2)
        };
        let new_elem = self.disjunctions.len();
        let c1 = copy_edges(a1);
        let c2 = copy_edges(a2);
        self.disjunctions.push((c1, c2));
        self.dominated.push(false);
        proof {
            assert(self.disj() =~= pre.disj().push((a1@, a2@)));
            assert((a1@, a2@) == norm_pair(alt1@, alt2@));
        }
        if !simple {
            proof {
                let n0 = pre.disjunctions@.len() as int;
                assert forall|a: int, q: int|
                    0 <= a < self.simple_pairs@.len() && 0 <= q < self.simple_pairs@[a].1@.len()
                    implies (#[trigger] self.simple_pairs@[a].1@[q] as int)
                    < self.disjunctions@.len() by {
                    assert((pre.simple_pairs@[a].1@[q] as int) < pre.disjunctions@.len());
                }
                assert(forall|i: int| 0 <= i < n0 ==> #[trigger] self.disj()[i] == pre.disj()[i]);
                assert forall|a: int|
                    0 <= a < self.simple_pairs@.len() implies antichain(
                    self.disj(),
                    (#[trigger] self.simple_pairs@[a]).1@,
                ) by {
                    let l = self.simple_pairs@[a].1@;
                    assert(antichain(pre.disj(), l));
                    assert forall|q1: int, q2: int|
                        0 <= q1 < l.len() && 0 <= q2 < l.len() && q1 != q2 implies !pair_le(
                        self.disj()[#[trigger] l[q1] as int],
                        self.disj()[#[trigger] l[q2] as int],
                    ) by {
                        assert(!pair_le(pre.disj()[l[q1] as int], pre.disj()[l[q2] as int]));
                    }
                }
                // the new pair has a multi-entry side, so it owes no frontier
                assert forall|i: int|
                    0 <= i < self.disjunctions@.len() && !self.dominated@[i] && (
                #[trigger] self.disj()[i]).0.len() == 1 && self.disj()[i].1.len() == 1
                    implies exists|a: int|
                    0 <= a < self.simple_pairs@.len() && (#[trigger] self.simple_pairs@[a]).0 == (
                    self.disj()[i].0[0].partition,
                    self.disj()[i].1[0].partition,
                ) && self.simple_pairs@[a].1@.contains(i as usize) by {
                    assert(i < n0);
                    let a = choose|a: int|
                        0 <= a < pre.simple_pairs@.len() && (#[trigger] pre.simple_pairs@[a]).0
                            == (pre.disj()[i].0[0].partition, pre.disj()[i].1[0].partition)
                            && pre.simple_pairs@[a].1@.contains(i as usize);
                    assert(self.simple_pairs@[a] == pre.simple_pairs@[a]);
                }
                assert(self.dominated@ =~= pre.dominated@.push(false));
            }
            return ;
        }
        let key1 = a1[0].partition;
        let key2 = a2[0].partition;
        let ghost mid = *self;
        // find the frontier for this key, creating it if new
        let mut ki: usize = 0;
        let mut found = false;
        while !found && ki < self.simple_pairs.len()
            invariant
                *self == mid,
                ki <= self.simple_pairs@.len(),
                found ==> ki < self.simple_pairs@.len() && self.simple_pairs@[ki as int].0 == (
                key1,
                key2,
                ),
                !found ==> forall|a: int|
                    0 <= a < ki ==> (#[trigger] self.simple_pairs@[a]).0 != (key1, key2),
            decreases self.simple_pairs@.len() - ki + (if found {
                0int
            } else {
                1int
            }),
        {
            let k = self.simple_pairs[ki].0;
            if k.0 == key1 && k.1 == key2 {
                found = true;
            } else {
                ki += 1;
            }
        }
        if !found {
            self.simple_pairs.push(((key1, key2), Vec::new()));
            ki = self.simple_pairs.len() - 1;
        }
        let ghost with_entry = *self;
        let ghost front0 = self.simple_pairs@[ki as int].1@;
        proof {
            // this key's frontier is an antichain of the current pairs
            assert forall|q1: int, q2: int|
                0 <= q1 < front0.len() && 0 <= q2 < front0.len() && q1 != q2 implies !pair_le(
                pairs_view(self.disjunctions@)[#[trigger] front0[q1] as int],
                pairs_view(self.disjunctions@)[#[trigger] front0[q2] as int],
            ) by {
                assert(found);
                assert(antichain(pre.disj(), pre.simple_pairs@[ki as int].1@));
                assert(!pair_le(pre.disj()[front0[q1] as int], pre.disj()[front0[q2] as int]));
                assert(pairs_view(self.disjunctions@)[front0[q1] as int] == pre.disj()[front0[q1]
                    as int]);
                assert(pairs_view(self.disjunctions@)[front0[q2] as int] == pre.disj()[front0[q2]
                    as int]);
            }
            assert(antichain(pairs_view(self.disjunctions@), front0));
        }
        let r = remove_dominated(
            &self.disjunctions,
            &mut self.simple_pairs[ki].1,
            new_elem,
            &mut self.dominated,
            key1,
            key2,
        );
        if r {
            let ghost fafter = self.simple_pairs@[ki as int].1@;
            let row = &mut self.simple_pairs[ki].1;
            row.push(new_elem);
            proof {
                assert(self.simple_pairs@[ki as int].1@ == fafter.push(new_elem));
                assert(self.simple_pairs@[ki as int].1@.drop_last() =~= fafter);
                let sp = self.simple_pairs@;
                let n = self.disjunctions@.len() as int;
                assert(self.disj() == pre.disj().push((a1@, a2@)));
                // every frontier entry still points at a valid, unpruned simple pair
                assert forall|a: int, q: int|
                    0 <= a < sp.len() && 0 <= q < sp[a].1@.len() implies {
                    let k = (#[trigger] sp[a]).0;
                    let idx = #[trigger] sp[a].1@[q] as int;
                    &&& idx < n
                    &&& self.disj()[idx].0.len() == 1
                    &&& self.disj()[idx].1.len() == 1
                    &&& self.disj()[idx].0[0].partition == k.0
                    &&& self.disj()[idx].1[0].partition == k.1
                    &&& k.0 <= k.1
                    &&& !self.dominated@[idx]
                } by {
                    let k = sp[a].0;
                    let idx = sp[a].1@[q] as int;
                    if a == ki as int {
                        assert(k == (key1, key2));
                        if q == sp[a].1@.len() - 1 {
                            assert(idx == new_elem as int);
                        } else {
                            let entry = sp[a].1@[q];
                            assert(front0.contains(entry));
                            let w = choose|w: int| 0 <= w < front0.len() && front0[w] == entry;
                            if !found {
                                assert(front0.len() == 0);
                                assert(false);
                            }
                            assert(pre.simple_pairs@[ki as int].1@[w] == entry);
                            assert(pre.disj()[idx] == self.disj()[idx]);
                        }
                    } else {
                        assert(sp[a] == pre.simple_pairs@[a]);
                        assert(!pre.dominated@[idx]);
                        assert(pre.disj()[idx] == self.disj()[idx]);
                        if self.dominated@[idx] {
                            assert(front0.contains(idx as usize));
                            let w = choose|w: int| 0 <= w < front0.len() && front0[w]
                                == idx as usize;
                            if !found {
                                assert(front0.len() == 0);
                                assert(false);
                            }
                            assert(pre.simple_pairs@[ki as int].1@[w] == idx as usize);
                            assert(pre.disj()[idx].0[0].partition == key1);
                            assert(pre.simple_pairs@[a].0 != pre.simple_pairs@[ki as int].0);
                            assert(false);
                        }
                    }
                }
                // per-frontier entries stay pairwise distinct
                assert forall|a: int, q1: int, q2: int|
                    0 <= a < sp.len() && 0 <= q1 < q2 < sp[a].1@.len() implies #[trigger] sp[a].1@[q1]
                    != #[trigger] sp[a].1@[q2] by {
                    if a == ki as int && q2 == sp[a].1@.len() - 1 {
                        assert(sp[a].1@[q2] == new_elem);
                    } else if a != ki as int {
                        assert(sp[a] == pre.simple_pairs@[a]);
                    }
                }
                let dv = pairs_view(with_entry.disjunctions@);
                let p = (a1@, a2@);
                assert(forall|i: int|
                    0 <= i < pre.disjunctions@.len() ==> #[trigger] self.disj()[i]
                        == pre.disj()[i]);
                assert(dv == self.disj());
                // the new pair is stored normalized
                assert(key1 <= key2);
                assert forall|i: int|
                    0 <= i < n && (#[trigger] self.disj()[i]).0.len() == 1
                        && self.disj()[i].1.len() == 1 implies self.disj()[i].0[0].partition
                    <= self.disj()[i].1[0].partition by {
                    if i < pre.disjunctions@.len() {
                        assert(pre.disj()[i] == self.disj()[i]);
                    }
                }
                // every active same-key pair was on this frontier
                assert forall|j: int|
                    0 <= j < pre.disjunctions@.len() && !pre.dominated@[j] && same_key_simple(
                        pre.disj(),
                        j,
                        p,
                    ) implies front0.contains(j as usize) by {
                    let a0 = choose|a0: int|
                        0 <= a0 < pre.simple_pairs@.len() && (#[trigger] pre.simple_pairs@[a0]).0
                            == (pre.disj()[j].0[0].partition, pre.disj()[j].1[0].partition)
                            && pre.simple_pairs@[a0].1@.contains(j as usize);
                    assert(pre.simple_pairs@[a0].0 == (key1, key2));
                    assert(found);
                    assert(pre.simple_pairs@[ki as int].0 == (key1, key2));
                    assert(a0 == ki as int);
                }
                // hence: nothing active on this key dominated the new pair
                assert(!(exists|j: int|
                    0 <= j < pre.disjunctions@.len() && !pre.dominated@[j] && same_key_simple(
                        pre.disj(),
                        j,
                        p,
                    ) && pair_le(p, #[trigger] pre.disj()[j]))) by {
                    if exists|j: int|
                        0 <= j < pre.disjunctions@.len() && !pre.dominated@[j] && same_key_simple(
                            pre.disj(),
                            j,
                            p,
                        ) && pair_le(p, #[trigger] pre.disj()[j]) {
                        let j = choose|j: int|
                            0 <= j < pre.disjunctions@.len() && !pre.dominated@[j]
                                && same_key_simple(pre.disj(), j, p) && pair_le(
                                p,
                                #[trigger] pre.disj()[j],
                            );
                        assert(front0.contains(j as usize));
                        let w = choose|w: int| 0 <= w < front0.len() && front0[w] == j as usize;
                        assert(!pair_le(dv[new_elem as int], dv[front0[w] as int]));
                        assert(dv[new_elem as int] == p);
                        assert(dv[j] == pre.disj()[j]);
                    }
                }
                // and everything active on this key that it dominates is pruned
                assert forall|j: int|
                    0 <= j < pre.disjunctions@.len() && !pre.dominated@[j] && same_key_simple(
                        pre.disj(),
                        j,
                        p,
                    ) && pair_le(#[trigger] pre.disj()[j], p) implies self.dominated@[j] by {
                    assert(front0.contains(j as usize));
                    if !self.dominated@[j] {
                        let qf = choose|qf: int|
                            0 <= qf < front0.len() && front0[qf] == j as usize;
                        assert(fafter.contains(front0[qf]) || self.dominated@[front0[qf] as int]);
                        let w = choose|w: int|
                            0 <= w < fafter.len() && fafter[w] == j as usize;
                        assert(!pair_le(dv[fafter[w] as int], dv[new_elem as int]));
                        assert(false);
                    }
                }
                // each frontier is still an antichain
                assert forall|a: int|
                    0 <= a < sp.len() implies antichain(self.disj(), (#[trigger] sp[a]).1@) by {
                    let l = sp[a].1@;
                    assert forall|q1: int, q2: int|
                        0 <= q1 < l.len() && 0 <= q2 < l.len() && q1 != q2 implies !pair_le(
                        self.disj()[#[trigger] l[q1] as int],
                        self.disj()[#[trigger] l[q2] as int],
                    ) by {
                        if a == ki as int {
                            if q1 < l.len() - 1 && q2 < l.len() - 1 {
                                assert(l[q1] == fafter[q1]);
                                assert(l[q2] == fafter[q2]);
                                assert(front0.contains(fafter[q1]));
                                assert(front0.contains(fafter[q2]));
                                let w1 = choose|w: int|
                                    0 <= w < front0.len() && front0[w] == fafter[q1];
                                let w2 = choose|w: int|
                                    0 <= w < front0.len() && front0[w] == fafter[q2];
                                assert(fafter[q1] != fafter[q2]);
                                assert(w1 != w2);
                                assert(!pair_le(dv[front0[w1] as int], dv[front0[w2] as int]));
                            } else if q2 == l.len() - 1 {
                                assert(l[q2] == new_elem);
                                assert(l[q1] == fafter[q1]);
                                assert(front0.contains(fafter[q1]));
                                let w1 = choose|w: int|
                                    0 <= w < front0.len() && front0[w] == fafter[q1];
                                assert(!pair_le(dv[fafter[q1] as int], dv[new_elem as int]));
                                assert(!pair_le(dv[new_elem as int], dv[front0[w1] as int]));
                            } else {
                                assert(l[q1] == new_elem);
                                assert(l[q2] == fafter[q2]);
                                assert(front0.contains(fafter[q2]));
                                let w2 = choose|w: int|
                                    0 <= w < front0.len() && front0[w] == fafter[q2];
                                assert(!pair_le(dv[new_elem as int], dv[front0[w2] as int]));
                            }
                        } else {
                            assert(sp[a] == pre.simple_pairs@[a]);
                            assert(antichain(pre.disj(), l));
                            assert(!pair_le(pre.disj()[l[q1] as int], pre.disj()[l[q2] as int]));
                        }
                    }
                }
                // every active simple pair still sits on its key's frontier
                assert forall|i: int|
                    0 <= i < n && !self.dominated@[i] && (#[trigger] self.disj()[i]).0.len() == 1
                        && self.disj()[i].1.len() == 1 implies exists|a: int|
                    0 <= a < sp.len() && (#[trigger] sp[a]).0 == (
                    self.disj()[i].0[0].partition,
                    self.disj()[i].1[0].partition,
                ) && sp[a].1@.contains(i as usize) by {
                    if i == new_elem as int {
                        assert(sp[ki as int].0 == (key1, key2));
                        assert(sp[ki as int].1@.last() == new_elem);
                        assert(sp[ki as int].1@.contains(new_elem));
                    } else {
                        assert(!pre.dominated@[i]);
                        let a0 = choose|a0: int|
                            0 <= a0 < pre.simple_pairs@.len() && (
                            #[trigger] pre.simple_pairs@[a0]).0 == (
                            pre.disj()[i].0[0].partition,
                            pre.disj()[i].1[0].partition,
                        ) && pre.simple_pairs@[a0].1@.contains(i as usize);
                        if a0 == ki as int {
                            assert(front0.contains(i as usize));
                            let qf = choose|qf: int|
                                0 <= qf < front0.len() && front0[qf] == i as usize;
                            assert(fafter.contains(front0[qf]) || self.dominated@[front0[qf]
                                as int]);
                            let fl = sp[ki as int].1@;
                            let w = choose|w: int|
                                0 <= w < fafter.len() && fafter[w] == i as usize;
                            assert(fl[w] == i as usize);
                            assert(fl.contains(i as usize));
                        } else {
                            assert(sp[a0] == pre.simple_pairs@[a0]);
                        }
                    }
                }
            }
        } else {
            self.disjunctions.pop();
            self.dominated.pop();
            proof {
                let dsv = pairs_view(with_entry.disjunctions@);
                let p = norm_pair(alt1@, alt2@);
                assert(self.disjunctions@ =~= pre.disjunctions@);
                assert(self.disj() =~= pre.disj());
                assert(self.dominated@ =~= pre.dominated@);
                // the rejection witness: an active pair that dominates the new one
                let q = choose|q: int|
                    0 <= q < front0.len() && pair_le(
                        dsv[new_elem as int],
                        dsv[#[trigger] front0[q] as int],
                    );
                let e = front0[q] as int;
                if !found {
                    assert(front0.len() == 0);
                    assert(false);
                }
                assert(pre.simple_pairs@[ki as int].1@[q] == front0[q]);
                assert(dsv[e] == pre.disj()[e]);
                assert(dsv[new_elem as int] == p);
                assert(exists|q2: int|
                    0 <= q2 < pre.disj().len() && !pre.dominated_seq()[q2] && same_key_simple(
                        pre.disj(),
                        q2,
                        p,
                    ) && pair_le(p, #[trigger] pre.disj()[q2])) by {
                    assert(pre.disj()[e].0[0].partition == key1);
                    assert(pre.disj()[e].1[0].partition == key2);
                    assert(0 <= e < pre.disj().len() && !pre.dominated_seq()[e] && same_key_simple(
                        pre.disj(),
                        e,
                        p,
                    ) && pair_le(p, pre.disj()[e]));
                }
                // frontiers were at most permuted; every entry is still valid
                let sp = self.simple_pairs@;
                assert forall|a: int, q2: int|
                    0 <= a < sp.len() && 0 <= q2 < sp[a].1@.len() implies {
                    let k = (#[trigger] sp[a]).0;
                    let idx = #[trigger] sp[a].1@[q2] as int;
                    &&& idx < self.disjunctions@.len()
                    &&& self.disj()[idx].0.len() == 1
                    &&& self.disj()[idx].1.len() == 1
                    &&& self.disj()[idx].0[0].partition == k.0
                    &&& self.disj()[idx].1[0].partition == k.1
                    &&& k.0 <= k.1
                    &&& !self.dominated@[idx]
                } by {
                    let idx = sp[a].1@[q2] as int;
                    if a == ki as int {
                        let entry = sp[a].1@[q2];
                        assert(front0.contains(entry));
                        let w = choose|w: int| 0 <= w < front0.len() && front0[w] == entry;
                        assert(pre.simple_pairs@[ki as int].1@[w] == entry);
                    } else {
                        assert(sp[a] == pre.simple_pairs@[a]);
                    }
                }
                assert forall|a: int, q1: int, q2: int|
                    0 <= a < sp.len() && 0 <= q1 < q2 < sp[a].1@.len() implies #[trigger] sp[a].1@[q1]
                    != #[trigger] sp[a].1@[q2] by {
                    if a != ki as int {
                        assert(sp[a] == pre.simple_pairs@[a]);
                    }
                }
                // each frontier is still an antichain (this one at most permuted)
                assert forall|a: int|
                    0 <= a < sp.len() implies antichain(self.disj(), (#[trigger] sp[a]).1@) by {
                    let l = sp[a].1@;
                    assert forall|q1: int, q2: int|
                        0 <= q1 < l.len() && 0 <= q2 < l.len() && q1 != q2 implies !pair_le(
                        self.disj()[#[trigger] l[q1] as int],
                        self.disj()[#[trigger] l[q2] as int],
                    ) by {
                        if a == ki as int {
                            assert(front0.contains(l[q1]));
                            assert(front0.contains(l[q2]));
                            let w1 = choose|w: int| 0 <= w < front0.len() && front0[w] == l[q1];
                            let w2 = choose|w: int| 0 <= w < front0.len() && front0[w] == l[q2];
                            assert(l[q1] != l[q2]);
                            assert(w1 != w2);
                            assert(!pair_le(
                                pre.disj()[front0[w1] as int],
                                pre.disj()[front0[w2] as int],
                            ));
                        } else {
                            assert(sp[a] == pre.simple_pairs@[a]);
                            assert(antichain(pre.disj(), l));
                            assert(!pair_le(pre.disj()[l[q1] as int], pre.disj()[l[q2] as int]));
                        }
                    }
                }
                // normalization and frontier membership carry over unchanged
                assert forall|i: int|
                    0 <= i < self.disjunctions@.len() && (#[trigger] self.disj()[i]).0.len() == 1
                        && self.disj()[i].1.len() == 1 implies self.disj()[i].0[0].partition
                    <= self.disj()[i].1[0].partition by {
                    assert(pre.disj()[i] == self.disj()[i]);
                }
                assert forall|i: int|
                    0 <= i < self.disjunctions@.len() && !self.dominated@[i] && (
                #[trigger] self.disj()[i]).0.len() == 1 && self.disj()[i].1.len() == 1
                    implies exists|a: int|
                    0 <= a < sp.len() && (#[trigger] sp[a]).0 == (
                    self.disj()[i].0[0].partition,
                    self.disj()[i].1[0].partition,
                ) && sp[a].1@.contains(i as usize) by {
                    let a0 = choose|a0: int|
                        0 <= a0 < pre.simple_pairs@.len() && (#[trigger] pre.simple_pairs@[a0]).0
                            == (pre.disj()[i].0[0].partition, pre.disj()[i].1[0].partition)
                            && pre.simple_pairs@[a0].1@.contains(i as usize);
                    if a0 == ki as int {
                        assert(front0.contains(i as usize));
                        assert(sp[ki as int].1@.contains(i as usize));
                    } else {
                        assert(sp[a0] == pre.simple_pairs@[a0]);
                    }
                }
            }
        }
    }
}

/// An owned copy of a cost vector.
fn copy_edges(v: &Vec<WdgEdge>) -> (r: Vec<WdgEdge>)
    ensures
        r@ == v@,
{
    let mut r: Vec<WdgEdge> = Vec::new();
    let mut i: usize = 0;
    while i < v.len()
        invariant
            i <= v@.len(),
            r@ == v@.take(i as int),
        decreases v@.len() - i,
    {
        r.push(v[i]);
        proof {
            assert(r@ =~= v@.take(i + 1));
        }
        i += 1;
    }
    proof {
        assert(v@.take(v@.len() as int) =~= v@);
    }
    r
}

} // verus!
