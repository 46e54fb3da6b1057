//! Static partitioning of nodes: union-find over the endpoints of
//! permanently fixed edges, densified into one partition id per node.
//! Built once at problem load and never mutated during search.

use vstd::prelude::*;

use crate::problem::Edge;

verus! {

#[verifier::external_type_specification]
#[verifier::external_body]
#[verifier::reject_recursive_types(K)]
pub struct ExUnionFind<K>(petgraph::unionfind::UnionFind<K>);

/// The partition a union-find structure represents: each element mapped to
/// its current representative.
pub uninterp spec fn uf_classes(uf: petgraph::unionfind::UnionFind<u32>) -> Map<int, int>;

/// Relies on petgraph's `UnionFind::new`: `n` singleton sets, each element
/// its own representative.
#[verifier::external_body]
fn uf_new(n: usize) -> (u: petgraph::unionfind::UnionFind<u32>)
    requires
        n <= u32::MAX,
    ensures
        uf_classes(u).dom() == Set::new(|i: int| 0 <= i < n),
        forall|i: int| 0 <= i < n ==> uf_classes(u)[i] == i,
{
    petgraph::unionfind::UnionFind::new(n)
}

/// The merge of the classes of `x` and `y` into the class `rep`, which is
/// one of their two old representatives; other classes untouched.
pub open spec fn uf_merge_ok(
    before: Map<int, int>,
    after: Map<int, int>,
    x: int,
    y: int,
    rep: int,
) -> bool {
    &&& (rep == before[x] || rep == before[y])
    &&& forall|i: int|
        before.dom().contains(i) ==> #[trigger] after[i] == (if before[i] == before[x] || before[i]
            == before[y] {
            rep
        } else {
            before[i]
        })
}

/// Relies on petgraph's `UnionFind::union`: merges the classes of `x` and
/// `y` into one, represented by one of the two old representatives, and
/// leaves every other class untouched.
#[verifier::external_body]
fn uf_union(uf: &mut petgraph::unionfind::UnionFind<u32>, x: u32, y: u32)
    requires
        uf_classes(*old(uf)).dom().contains(x as int),
        uf_classes(*old(uf)).dom().contains(y as int),
    ensures
        uf_classes(*final(uf)).dom() == uf_classes(*old(uf)).dom(),
        exists|rep: int|
            #[trigger] uf_merge_ok(
                uf_classes(*old(uf)),
                uf_classes(*final(uf)),
                x as int,
                y as int,
                rep,
            ),
{
    uf.union(x, y);
}

/// Relies on petgraph's `UnionFind::find_mut`: returns the representative
/// of `x`'s class, itself an element; path compression never changes any
/// class.
#[verifier::external_body]
fn uf_find(uf: &mut petgraph::unionfind::UnionFind<u32>, x: u32) -> (r: u32)
    requires
        uf_classes(*old(uf)).dom().contains(x as int),
    ensures
        uf_classes(*final(uf)) == uf_classes(*old(uf)),
        r as int == uf_classes(*old(uf))[x as int],
        uf_classes(*old(uf)).dom().contains(r as int),
{
    uf.find_mut(x)
}

/// Some node carries partition id `p`.
pub open spec fn id_used(parts: Seq<u32>, p: int) -> bool {
    exists|i: int| 0 <= i < parts.len() && (#[trigger] parts[i]) as int == p
}

/// Nodes joined directly by one of the edges, in either direction.
pub open spec fn linked(edges: Seq<Edge>, a: int, b: int) -> bool {
    exists|e: int|
        0 <= e < edges.len() && (((#[trigger] edges[e]).src as int == a && edges[e].tgt as int
            == b) || (edges[e].src as int == b && edges[e].tgt as int == a))
}

/// Consecutive entries of `p` are joined by edges.
pub open spec fn is_path(edges: Seq<Edge>, p: Seq<int>) -> bool {
    forall|w: int| 0 <= w < p.len() - 1 ==> linked(edges, #[trigger] p[w], p[w + 1])
}

/// Undirected reachability through the fixed edges: the relation the
/// partition ids must reproduce exactly.
pub open spec fn fixed_connected(edges: Seq<Edge>, a: int, b: int) -> bool {
    exists|p: Seq<int>|
        #[trigger] is_path(edges, p) && p.len() > 0 && p[0] == a && p.last() == b
}

pub proof fn lemma_connected_refl(edges: Seq<Edge>, a: int)
    ensures
        fixed_connected(edges, a, a),
{
    let p = seq![a];
    assert(is_path(edges, p));
}

proof fn lemma_connected_step(edges: Seq<Edge>, a: int, b: int)
    requires
        linked(edges, a, b),
    ensures
        fixed_connected(edges, a, b),
{
    let p = seq![a, b];
    assert(is_path(edges, p)) by {
        assert forall|w: int| 0 <= w < p.len() - 1 implies linked(
            edges,
            #[trigger] p[w],
            p[w + 1],
        ) by {
            assert(w == 0);
        }
    }
    assert(p.last() == b);
}

proof fn lemma_connected_concat(edges: Seq<Edge>, a: int, m: int, b: int)
    requires
        fixed_connected(edges, a, m),
        fixed_connected(edges, m, b),
    ensures
        fixed_connected(edges, a, b),
{
    let p1 = choose|p: Seq<int>|
        #[trigger] is_path(edges, p) && p.len() > 0 && p[0] == a && p.last() == m;
    let p2 = choose|p: Seq<int>|
        #[trigger] is_path(edges, p) && p.len() > 0 && p[0] == m && p.last() == b;
    if p2.len() == 1 {
        assert(m == b);
        assert(is_path(edges, p1) && p1.len() > 0 && p1[0] == a && p1.last() == b);
    } else {
        let joined = p1 + p2.subrange(1, p2.len() as int);
        assert(joined.len() == p1.len() + p2.len() - 1);
        assert(joined[0] == p1[0]);
        assert(joined.last() == p2.last());
        assert(is_path(edges, joined)) by {
            assert forall|w: int| 0 <= w < joined.len() - 1 implies linked(
                edges,
                #[trigger] joined[w],
                joined[w + 1],
            ) by {
                if w < p1.len() - 1 {
                    assert(joined[w] == p1[w]);
                    assert(joined[w + 1] == p1[w + 1]);
                } else if w == p1.len() - 1 {
                    assert(joined[w] == p1[w]);
                    assert(p1[w] == m);
                    assert(joined[w + 1] == p2[1]);
                    assert(linked(edges, p2[0], p2[1]));
                } else {
                    assert(joined[w] == p2[w - p1.len() + 1]);
                    assert(joined[w + 1] == p2[w - p1.len() + 2]);
                    assert(linked(edges, p2[w - p1.len() + 1], p2[w - p1.len() + 2]));
                }
            }
        }
    }
}

proof fn lemma_connected_sym(edges: Seq<Edge>, a: int, b: int)
    requires
        fixed_connected(edges, a, b),
    ensures
        fixed_connected(edges, b, a),
{
    let p = choose|p: Seq<int>|
        #[trigger] is_path(edges, p) && p.len() > 0 && p[0] == a && p.last() == b;
    let l = p.len() as int;
    let rev = Seq::new(p.len(), |i: int| p[l - 1 - i]);
    assert(rev[0] == b);
    assert(rev.last() == a);
    assert(is_path(edges, rev)) by {
        assert forall|w: int| 0 <= w < rev.len() - 1 implies linked(
            edges,
            #[trigger] rev[w],
            rev[w + 1],
        ) by {
            assert(rev[w] == p[l - 1 - w]);
            assert(rev[w + 1] == p[l - 2 - w]);
            assert(linked(edges, p[l - 2 - w], p[l - 1 - w]));
        }
    }
}

/// Extending the edge list never disconnects anything.
proof fn lemma_connected_extend(short: Seq<Edge>, long: Seq<Edge>, a: int, b: int)
    requires
        short.len() <= long.len(),
        forall|e: int| 0 <= e < short.len() ==> #[trigger] short[e] == long[e],
        fixed_connected(short, a, b),
    ensures
        fixed_connected(long, a, b),
{
    let p = choose|p: Seq<int>|
        #[trigger] is_path(short, p) && p.len() > 0 && p[0] == a && p.last() == b;
    assert(is_path(long, p)) by {
        assert forall|w: int| 0 <= w < p.len() - 1 implies linked(
            long,
            #[trigger] p[w],
            p[w + 1],
        ) by {
            assert(linked(short, p[w], p[w + 1]));
            let e = choose|e: int|
                0 <= e < short.len() && (((#[trigger] short[e]).src as int == p[w] && short[e].tgt
                    as int == p[w + 1]) || (short[e].src as int == p[w + 1] && short[e].tgt as int
                    == p[w]));
            assert(long[e] == short[e]);
        }
    }
}

/// Without edges only equal nodes are connected.
proof fn lemma_connected_empty(edges: Seq<Edge>, a: int, b: int)
    requires
        edges.len() == 0,
        fixed_connected(edges, a, b),
    ensures
        a == b,
{
    let p = choose|p: Seq<int>|
        #[trigger] is_path(edges, p) && p.len() > 0 && p[0] == a && p.last() == b;
    if p.len() > 1 {
        assert(linked(edges, p[0], p[1]));
        assert(false);
    }
}

/// A walk through pairwise class-equal links ends in the same class.
proof fn lemma_path_equal(edges: Seq<Edge>, m: Map<int, int>, p: Seq<int>)
    requires
        is_path(edges, p),
        p.len() > 0,
        forall|x: int, y: int| #[trigger] linked(edges, x, y) ==> m[x] == m[y],
    ensures
        m[p[0]] == m[p.last()],
    decreases p.len(),
{
    if p.len() > 1 {
        let q = p.subrange(1, p.len() as int);
        assert(is_path(edges, q)) by {
            assert forall|w: int| 0 <= w < q.len() - 1 implies linked(
                edges,
                #[trigger] q[w],
                q[w + 1],
            ) by {
                assert(q[w] == p[w + 1]);
                assert(q[w + 1] == p[w + 2]);
                assert(linked(edges, p[w + 1], p[w + 2]));
            }
        }
        assert(linked(edges, p[0], p[1]));
        assert(q[0] == p[1]);
        assert(q.last() == p.last());
        lemma_path_equal(edges, m, q);
    }
}

proof fn lemma_connected_equal(edges: Seq<Edge>, m: Map<int, int>, a: int, b: int)
    requires
        fixed_connected(edges, a, b),
        forall|x: int, y: int| #[trigger] linked(edges, x, y) ==> m[x] == m[y],
    ensures
        m[a] == m[b],
{
    let p = choose|p: Seq<int>|
        #[trigger] is_path(edges, p) && p.len() > 0 && p[0] == a && p.last() == b;
    lemma_path_equal(edges, m, p);
}

/// Merging the classes of one more fixed edge turns class equality into
/// exactly the reachability over the extended edge prefix.
proof fn lemma_union_step_iff(
    fixed: Seq<Edge>,
    k: int,
    n: int,
    before: Map<int, int>,
    after: Map<int, int>,
    rep: int,
)
    requires
        0 <= k < fixed.len(),
        forall|e: int| 0 <= e < fixed.len() ==> (#[trigger] fixed[e]).src < n && fixed[e].tgt < n,
        before.dom() == Set::new(|i: int| 0 <= i < n),
        uf_merge_ok(before, after, fixed[k].src as int, fixed[k].tgt as int, rep),
        forall|a: int, b: int|
            #![trigger before[a], before[b]]
            0 <= a < n && 0 <= b < n ==> ((before[a] == before[b]) <==> fixed_connected(
                fixed.take(k),
                a,
                b,
            )),
    ensures
        forall|a: int, b: int|
            #![trigger after[a], after[b]]
            0 <= a < n && 0 <= b < n ==> ((after[a] == after[b]) <==> fixed_connected(
                fixed.take(k + 1),
                a,
                b,
            )),
{
    let sa = fixed[k].src as int;
    let sb = fixed[k].tgt as int;
    let po = fixed.take(k);
    let pn = fixed.take(k + 1);
    assert(pn[k] == fixed[k]);
    assert(linked(pn, sa, sb));
    assert(forall|e: int| 0 <= e < po.len() ==> #[trigger] po[e] == pn[e]);
    // anything in either merged class reaches the new edge's source
    assert forall|u: int|
        0 <= u < n && (before[u] == before[sa] || before[u] == before[sb]) implies fixed_connected(
        pn,
        u,
        sa,
    ) by {
        if before[u] == before[sa] {
            assert(fixed_connected(po, u, sa));
            lemma_connected_extend(po, pn, u, sa);
        } else {
            assert(fixed_connected(po, u, sb));
            lemma_connected_extend(po, pn, u, sb);
            lemma_connected_step(pn, sa, sb);
            lemma_connected_sym(pn, sa, sb);
            lemma_connected_concat(pn, u, sb, sa);
        }
    }
    assert forall|a: int, b: int|
        #![trigger after[a], after[b]]
        0 <= a < n && 0 <= b < n implies ((after[a] == after[b]) <==> fixed_connected(
        pn,
        a,
        b,
    )) by {
        assert(before.dom().contains(a) && before.dom().contains(b));
        assert(before.dom().contains(sa) && before.dom().contains(sb));
        if after[a] == after[b] {
            if (before[a] == before[sa] || before[a] == before[sb]) && (before[b] == before[sa]
                || before[b] == before[sb]) {
                assert(fixed_connected(pn, a, sa));
                assert(fixed_connected(pn, b, sa));
                lemma_connected_sym(pn, b, sa);
                lemma_connected_concat(pn, a, sa, b);
            } else {
                assert(before[a] == before[b]);
                assert(fixed_connected(po, a, b));
                lemma_connected_extend(po, pn, a, b);
            }
        }
        if fixed_connected(pn, a, b) {
            assert forall|x: int, y: int| #[trigger] linked(pn, x, y) implies after[x]
                == after[y] by {
                let e = choose|e: int|
                    0 <= e < pn.len() && (((#[trigger] pn[e]).src as int == x && pn[e].tgt as int
                        == y) || (pn[e].src as int == y && pn[e].tgt as int == x));
                assert(pn[e] == fixed[e]);
                assert(before.dom().contains(x) && before.dom().contains(y));
                if e < k {
                    assert(linked(po, x, y));
                    lemma_connected_step(po, x, y);
                    assert(before[x] == before[y]);
                }
            }
            lemma_connected_equal(pn, after, a, b);
        }
    }
}

/// One dense partition id per node, from union-find over the fixed edges:
/// ids are `0..n_partitions`, every id is used, and the two endpoints of
/// every fixed edge share an id.
pub fn compute_partitions(n: usize, fixed: &Vec<Edge>) -> (r: (Vec<u32>, usize))
    requires
        n <= u32::MAX,
        forall|k: int|
            0 <= k < fixed@.len() ==> (#[trigger] fixed@[k]).src < n && fixed@[k].tgt < n,
    ensures
        r.0@.len() == n,
        r.1 <= n,
        forall|i: int| 0 <= i < n ==> (#[trigger] r.0@[i] as int) < r.1,
        forall|p: int| 0 <= p < r.1 ==> #[trigger] id_used(r.0@, p),
        // two nodes share an id exactly when the fixed edges connect them
        forall|i: int, j: int|
            #![trigger r.0@[i], r.0@[j]]
            0 <= i < n && 0 <= j < n ==> ((r.0@[i] == r.0@[j]) <==> fixed_connected(fixed@, i, j)),
        forall|k: int|
            0 <= k < fixed@.len() ==> r.0@[(#[trigger] fixed@[k]).src as int] == r.0@[fixed@[k].tgt
                as int],
{
    let mut uf = uf_new(n);
    proof {
        assert(fixed@.take(0) =~= Seq::<Edge>::empty());
        assert forall|a: int, b: int|
            #![trigger uf_classes(uf)[a], uf_classes(uf)[b]]
            0 <= a < n && 0 <= b < n implies ((uf_classes(uf)[a] == uf_classes(uf)[b])
            <==> fixed_connected(fixed@.take(0), a, b)) by {
            if uf_classes(uf)[a] == uf_classes(uf)[b] {
                lemma_connected_refl(fixed@.take(0), a);
            }
            if fixed_connected(fixed@.take(0), a, b) {
                lemma_connected_empty(fixed@.take(0), a, b);
            }
        }
    }
    let mut k: usize = 0;
    while k < fixed.len()
        invariant
            n <= u32::MAX,
            forall|e: int|
                0 <= e < fixed@.len() ==> (#[trigger] fixed@[e]).src < n && fixed@[e].tgt < n,
            k <= fixed@.len(),
            uf_classes(uf).dom() == Set::new(|i: int| 0 <= i < n),
            forall|a: int, b: int|
                #![trigger uf_classes(uf)[a], uf_classes(uf)[b]]
                0 <= a < n && 0 <= b < n ==> ((uf_classes(uf)[a] == uf_classes(uf)[b])
                    <==> fixed_connected(fixed@.take(k as int), a, b)),
        decreases fixed@.len() - k,
    {
        let e = fixed[k];
        let ghost before = uf_classes(uf);
        uf_union(&mut uf, e.src, e.tgt);
        proof {
            let rep = choose|rep: int|
                uf_merge_ok(before, uf_classes(uf), e.src as int, e.tgt as int, rep);
            assert(uf_merge_ok(before, uf_classes(uf), e.src as int, e.tgt as int, rep));
            lemma_union_step_iff(fixed@, k as int, n as int, before, uf_classes(uf), rep);
        }
        k += 1;
    }
    // densify representatives into ids 0..n_partitions
    let mut parts: Vec<u32> = Vec::new();
    let mut remap: Vec<Option<u32>> = Vec::new();
    let mut i: usize = 0;
    while i < n
        invariant
            i <= n,
            remap@.len() == i,
            forall|q: int| 0 <= q < i ==> (#[trigger] remap@[q]) is None,
        decreases n - i,
    {
        remap.push(None);
        i += 1;
    }
    let mut count: u32 = 0;
    let mut j: usize = 0;
    let ghost cls = uf_classes(uf);
    while j < n
        invariant
            n <= u32::MAX,
            j <= n,
            remap@.len() == n,
            uf_classes(uf) == cls,
            cls.dom() == Set::new(|i: int| 0 <= i < n),
            parts@.len() == j,
            count <= j,
            forall|q: int| 0 <= q < j ==> (#[trigger] parts@[q] as int) < count,
            forall|p: int| 0 <= p < count ==> #[trigger] id_used(parts@, p),
            forall|q: int|
                0 <= q < j ==> cls.dom().contains(#[trigger] cls[q]) && remap@[cls[q]]
                    == Some(parts@[q]),
            forall|rep: int|
                0 <= rep < n && (#[trigger] remap@[rep]).is_some() ==> (remap@[rep].unwrap()
                    as int) < count,
            forall|r1: int, r2: int|
                #![trigger remap@[r1], remap@[r2]]
                0 <= r1 < n && 0 <= r2 < n && r1 != r2 && remap@[r1] is Some && remap@[r2] is Some
                    ==> remap@[r1].unwrap() != remap@[r2].unwrap(),
        decreases n - j,
    {
        let ghost parts_before = parts@;
        let ghost count_before = count;
        let rep = uf_find(&mut uf, j as u32);
        match remap[rep as usize] {
            Some(p) => {
                parts.push(p);
            },
            None => {
                remap[rep as usize] = Some(count);
                parts.push(count);
                count += 1;
            },
        }
        j += 1;
        proof {
            assert forall|p: int| 0 <= p < count implies #[trigger] id_used(parts@, p) by {
                if p < count_before {
                    assert(id_used(parts_before, p));
                    let w = choose|w: int|
                        0 <= w < parts_before.len() && (#[trigger] parts_before[w]) as int == p;
                    assert(parts@[w] as int == p);
                } else {
                    assert(parts@[j - 1] as int == p);
                }
            }
        }
    }
    proof {
        assert(fixed@.take(fixed@.len() as int) =~= fixed@);
        assert forall|i: int, j: int|
            #![trigger parts@[i], parts@[j]]
            0 <= i < n && 0 <= j < n implies ((parts@[i] == parts@[j]) <==> fixed_connected(
            fixed@,
            i,
            j,
        )) by {
            assert(remap@[cls[i]] == Some(parts@[i]));
            assert(remap@[cls[j]] == Some(parts@[j]));
            assert(cls.dom().contains(cls[i]) && cls.dom().contains(cls[j]));
            if parts@[i] == parts@[j] {
                // the dense ids are injective on representatives
                assert(cls[i] == cls[j]);
                assert(fixed_connected(fixed@.take(fixed@.len() as int), i, j));
            }
            if fixed_connected(fixed@, i, j) {
                assert(cls[i] == cls[j]);
            }
        }
        assert forall|e: int|
            0 <= e < fixed@.len() implies parts@[(#[trigger] fixed@[e]).src as int] == parts@[
            fixed@[e].tgt as int
        ] by {
            let es = fixed@[e].src as int;
            let et = fixed@[e].tgt as int;
            assert(linked(fixed@, es, et));
            lemma_connected_step(fixed@, es, et);
        }
    }
    (parts, count as usize)
}

} // verus!
