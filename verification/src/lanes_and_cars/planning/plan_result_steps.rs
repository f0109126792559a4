//! Signal timings of intersections: the strokes through an intersection are
//! grouped into maximal cliques of mutually compatible strokes, which then
//! take turns being green.
use vstd::prelude::*;
use roaring::RoaringBitmap;
use crate::lanes_and_cars::planning::plan::LaneStrokeRef;

verus! {

#[verifier::external_type_specification]
#[verifier::external_body]
pub struct ExRoaringBitmap(RoaringBitmap);

/// The values held in a bitmap.
pub uninterp spec fn bitmap_contents(b: RoaringBitmap) -> Set<u32>;

/// `RoaringBitmap::new`: an empty bitmap.
#[verifier::external_body]
fn bitmap_new() -> (b: RoaringBitmap)
    ensures
        bitmap_contents(b) == Set::<u32>::empty(),
{
    RoaringBitmap::new()
}

/// `RoaringBitmap::insert`: adds `value`; returns whether it was absent.
#[verifier::external_body]
fn bitmap_insert(b: &mut RoaringBitmap, value: u32) -> (absent: bool)
    ensures
        bitmap_contents(*final(b)) == bitmap_contents(*old(b)).insert(value),
        absent == !bitmap_contents(*old(b)).contains(value),
{
    b.insert(value)
}

/// `RoaringBitmap::remove`: takes out `value`; returns whether it was present.
#[verifier::external_body]
fn bitmap_remove(b: &mut RoaringBitmap, value: u32) -> (present: bool)
    ensures
        bitmap_contents(*final(b)) == bitmap_contents(*old(b)).remove(value),
        present == bitmap_contents(*old(b)).contains(value),
{
    b.remove(value)
}

/// `RoaringBitmap::contains`.
#[verifier::external_body]
fn bitmap_contains(b: &RoaringBitmap, value: u32) -> (present: bool)
    ensures
        present == bitmap_contents(*b).contains(value),
{
    b.contains(value)
}

/// `RoaringBitmap::len`: the number of values held (a finite set).
#[verifier::external_body]
fn bitmap_len(b: &RoaringBitmap) -> (n: u64)
    requires
        bitmap_contents(*b).finite(),
    ensures
        n == bitmap_contents(*b).len(),
{
    b.len()
}

/// `RoaringBitmap::iter`, collected: the values held, in increasing order.
#[verifier::external_body]
fn bitmap_values(b: &RoaringBitmap) -> (values: Vec<u32>)
    ensures
        values@.to_set() == bitmap_contents(*b),
        forall|i: int, j: int| 0 <= i < j < values@.len() ==> values@[i] < values@[j],
{
    b.iter().collect()
}

/// `&a | &b` (`BitOr` on bitmaps): the union.
#[verifier::external_body]
fn bitmap_union(a: &RoaringBitmap, b: &RoaringBitmap) -> (u: RoaringBitmap)
    ensures
        bitmap_contents(u) == bitmap_contents(*a).union(bitmap_contents(*b)),
{
    a | b
}

/// `&a & &b` (`BitAnd` on bitmaps): the intersection.
#[verifier::external_body]
fn bitmap_intersection(a: &RoaringBitmap, b: &RoaringBitmap) -> (i: RoaringBitmap)
    ensures
        bitmap_contents(i) == bitmap_contents(*a).intersect(bitmap_contents(*b)),
{
    a & b
}

/// `&a - &b` (`Sub` on bitmaps): the difference.
#[verifier::external_body]
fn bitmap_difference(a: &RoaringBitmap, b: &RoaringBitmap) -> (d: RoaringBitmap)
    ensures
        bitmap_contents(d) == bitmap_contents(*a).difference(bitmap_contents(*b)),
{
    a - b
}

/// `RoaringBitmap::clone`: a bitmap with the same values.
#[verifier::external_body]
fn bitmap_clone(b: &RoaringBitmap) -> (c: RoaringBitmap)
    ensures
        bitmap_contents(c) == bitmap_contents(*b),
{
    b.clone()
}

/// The neighbours of stroke `v`: none for a stroke without an entry.
pub open spec fn nbrs(neighbors: Seq<RoaringBitmap>, v: u32) -> Set<u32> {
    if (v as int) < neighbors.len() {
        bitmap_contents(neighbors[v as int])
    } else {
        Set::empty()
    }
}

/// A compatibility graph: finite neighbour sets, no stroke its own
/// neighbour, and neighbourhood symmetric.
pub open spec fn graph_wf(neighbors: Seq<RoaringBitmap>) -> bool {
    &&& forall|v: u32| #[trigger] nbrs(neighbors, v).finite()
    &&& forall|v: u32| !(#[trigger] nbrs(neighbors, v)).contains(v)
    &&& forall|u: u32, v: u32| #[trigger] nbrs(neighbors, u).contains(v) ==> nbrs(neighbors, v).contains(u)
}

/// Every two distinct strokes of `r` are neighbours.
pub open spec fn is_clique(neighbors: Seq<RoaringBitmap>, r: Set<u32>) -> bool {
    forall|a: u32, b: u32| r.contains(a) && r.contains(b) && a != b ==> #[trigger] nbrs(neighbors, a).contains(b)
}

/// The compatibility graph of `n` strokes from the compatibility matrix:
/// strokes `a < b` are neighbours where `compatible[a][b]`.
pub open spec fn compatible_pair(compatible: Seq<Vec<bool>>, a: int, b: int) -> bool {
    if a < b {
        compatible[a]@[b]
    } else {
        compatible[b]@[a]
    }
}

/// The neighbours of each of `n` strokes, where strokes `a < b` are
/// neighbours if `compatible[a][b]` (only that upper half is looked at).
pub fn compatibilities(n: u32, compatible: &Vec<Vec<bool>>) -> (neighbors: Vec<RoaringBitmap>)
    requires
        compatible@.len() == n,
        forall|a: int| 0 <= a < n ==> (#[trigger] compatible@[a])@.len() == n,
    ensures
        neighbors@.len() == n,
        graph_wf(neighbors@),
        forall|a: u32, b: u32|
            a < n && b < n && a != b ==> (#[trigger] nbrs(neighbors@, a).contains(b) <==> compatible_pair(
                compatible@,
                a as int,
                b as int,
            )),
        forall|a: u32, b: u32| #[trigger] nbrs(neighbors@, a).contains(b) ==> b < n,
{
    let mut neighbors: Vec<RoaringBitmap> = Vec::new();
    let mut k: u32 = 0;
    while k < n
        invariant
            k <= n,
            neighbors@.len() == k,
            forall|j: int| 0 <= j < k ==> bitmap_contents(#[trigger] neighbors@[j]) == Set::<u32>::empty(),
        decreases n - k,
    {
        neighbors.push(bitmap_new());
        k = k + 1;
    }
    let mut a: u32 = 0;
    while a < n
        invariant
            a <= n,
            neighbors@.len() == n,
            compatible@.len() == n,
            forall|i: int| 0 <= i < n ==> (#[trigger] compatible@[i])@.len() == n,
            forall|x: u32, y: u32|
                x < n && y < n ==> (#[trigger] nbrs(neighbors@, x).contains(y) <==> (x != y && (x < a || y < a)
                    && compatible_pair(compatible@, x as int, y as int))),
            forall|x: u32| #[trigger] nbrs(neighbors@, x).finite(),
            forall|x: u32, y: u32| #[trigger] nbrs(neighbors@, x).contains(y) ==> y < n,
        decreases n - a,
    {
        let mut b: u32 = a + 1;
        while b < n
            invariant
                a < n,
                a < b <= n,
                neighbors@.len() == n,
                compatible@.len() == n,
                forall|i: int| 0 <= i < n ==> (#[trigger] compatible@[i])@.len() == n,
                forall|x: u32, y: u32|
                    x < n && y < n ==> (#[trigger] nbrs(neighbors@, x).contains(y) <==> (x != y && ((x < a || y < a)
                        || (x == a && y < b) || (y == a && x < b)) && compatible_pair(compatible@, x as int, y as int))),
                forall|x: u32| #[trigger] nbrs(neighbors@, x).finite(),
                forall|x: u32, y: u32| #[trigger] nbrs(neighbors@, x).contains(y) ==> y < n,
            decreases n - b,
        {
            if compatible[a as usize][b as usize] {
                let ghost before = neighbors@;
                let mut na = bitmap_new();
                core::mem::swap(&mut na, &mut neighbors[a as usize]);
                bitmap_insert(&mut na, b);
                neighbors.set(a as usize, na);
                let mut nb = bitmap_new();
                core::mem::swap(&mut nb, &mut neighbors[b as usize]);
                bitmap_insert(&mut nb, a);
                neighbors.set(b as usize, nb);
                proof {
                    assert forall|x: u32| #[trigger] nbrs(neighbors@, x) == if x == a {
                        nbrs(before, x).insert(b)
                    } else if x == b {
                        nbrs(before, x).insert(a)
                    } else {
                        nbrs(before, x)
                    } by {}
                }
            }
            b = b + 1;
        }
        a = a + 1;
    }
    proof {
        assert forall|v: u32| !(#[trigger] nbrs(neighbors@, v)).contains(v) by {
            if (v as int) < n && nbrs(neighbors@, v).contains(v) {
            }
        }
        assert forall|u: u32, v: u32| #[trigger] nbrs(neighbors@, u).contains(v) implies nbrs(neighbors@, v).contains(u) by {
            assert(v < n);
            if (u as int) >= n {
                assert(nbrs(neighbors@, u) == Set::<u32>::empty());
            }
        }
    }
    neighbors
}

/// The neighbours of stroke `v` (`empty` for a stroke without an entry).
fn neighbors_of<'a>(neighbors: &'a Vec<RoaringBitmap>, v: u32, empty: &'a RoaringBitmap) -> (b: &'a RoaringBitmap)
    requires
        bitmap_contents(*empty) == Set::<u32>::empty(),
    ensures
        bitmap_contents(*b) == nbrs(neighbors@, v),
{
    if (v as usize) < neighbors.len() {
        &neighbors[v as usize]
    } else {
        empty
    }
}

/// The cliques found, from position `from` of `out` on, lie within `within`
/// and are maximal among the strokes of `universe`.
pub open spec fn found_cliques(
    neighbors: Seq<RoaringBitmap>,
    out: Seq<RoaringBitmap>,
    from: int,
    within: Set<u32>,
    universe: Set<u32>,
) -> bool {
    forall|k: int|
        from <= k < out.len() ==> is_maximal_clique(neighbors, bitmap_contents(#[trigger] out[k]), universe)
            && bitmap_contents(out[k]).subset_of(within)
}

/// Stroke `w` is a neighbour of every stroke of `r`.
pub open spec fn adjacent_to_all(neighbors: Seq<RoaringBitmap>, r: Set<u32>, w: u32) -> bool {
    forall|u: u32| r.contains(u) ==> #[trigger] nbrs(neighbors, u).contains(w)
}

/// `r` is a clique that no other stroke of `universe` could join.
pub open spec fn is_maximal_clique(neighbors: Seq<RoaringBitmap>, r: Set<u32>, universe: Set<u32>) -> bool {
    &&& is_clique(neighbors, r)
    &&& forall|w: u32| universe.contains(w) && !r.contains(w) ==> !#[trigger] adjacent_to_all(neighbors, r, w)
}

/// Every stroke of `universe` that could join `r` is a candidate, in `p`, or
/// was tried, in `x`.
pub open spec fn candidates_complete(
    neighbors: Seq<RoaringBitmap>,
    r: Set<u32>,
    p: Set<u32>,
    x: Set<u32>,
    universe: Set<u32>,
) -> bool {
    forall|w: u32|
        universe.contains(w) && !r.contains(w) && #[trigger] adjacent_to_all(neighbors, r, w) ==> p.contains(w)
            || x.contains(w)
}

/// `c` is among the cliques of `out` from position `from` on.
pub open spec fn is_found(out: Seq<RoaringBitmap>, from: int, c: Set<u32>) -> bool {
    exists|k: int| from <= k < out.len() && bitmap_contents(#[trigger] out[k]) == c
}

/// `c` is a maximal clique (among the strokes of `universe`) that the search
/// from `r`, `p`, `x` must report: it extends `r` by strokes of `p` alone and
/// holds none of `x`.
pub open spec fn owed_clique(
    neighbors: Seq<RoaringBitmap>,
    c: Set<u32>,
    r: Set<u32>,
    p: Set<u32>,
    x: Set<u32>,
    universe: Set<u32>,
) -> bool {
    &&& is_maximal_clique(neighbors, c, universe)
    &&& r.subset_of(c)
    &&& c.difference(r).subset_of(p)
    &&& c.disjoint(x)
}

/// A clique owed by a search step holds one of the strokes of `p` that are not
/// the pivot's neighbours: else the pivot could join it.
proof fn lemma_owed_meets_candidates(
    neighbors: Seq<RoaringBitmap>,
    c: Set<u32>,
    r: Set<u32>,
    p: Set<u32>,
    x: Set<u32>,
    universe: Set<u32>,
    pivot: u32,
)
    requires
        graph_wf(neighbors),
        owed_clique(neighbors, c, r, p, x, universe),
        p.contains(pivot) || x.contains(pivot),
        p.subset_of(universe),
        x.subset_of(universe),
        forall|w: u32, u: u32| p.contains(w) && r.contains(u) ==> #[trigger] nbrs(neighbors, u).contains(w),
        forall|w: u32| p.contains(w) ==> !r.contains(w),
        forall|w: u32| x.contains(w) ==> !r.contains(w) && #[trigger] adjacent_to_all(neighbors, r, w),
    ensures
        exists|w: u32| #[trigger] c.contains(w) && p.difference(nbrs(neighbors, pivot)).contains(w),
{
    if !exists|w: u32| #[trigger] c.contains(w) && p.difference(nbrs(neighbors, pivot)).contains(w) {
        assert forall|w: u32| c.contains(w) && !r.contains(w) implies #[trigger] nbrs(neighbors, pivot).contains(w) by {
            assert(c.difference(r).contains(w));
        }
        assert(!r.contains(pivot));
        if c.contains(pivot) {
            assert(nbrs(neighbors, pivot).contains(pivot));
        }
        assert(universe.contains(pivot));
        assert(!adjacent_to_all(neighbors, c, pivot));
        let u = choose|u: u32| c.contains(u) && !#[trigger] nbrs(neighbors, u).contains(pivot);
        if r.contains(u) {
            if x.contains(pivot) {
                assert(adjacent_to_all(neighbors, r, pivot));
            }
        } else {
            assert(nbrs(neighbors, pivot).contains(u));
        }
    }
}

/// A clique owed by a search step, that holds the candidate `v` and none of
/// the candidates tried before it (`done`), is owed by the branch that adds
/// `v` to `r`.
proof fn lemma_owed_in_branch(
    neighbors: Seq<RoaringBitmap>,
    c: Set<u32>,
    r: Set<u32>,
    p: Set<u32>,
    x: Set<u32>,
    universe: Set<u32>,
    v: u32,
    done: Set<u32>,
)
    requires
        graph_wf(neighbors),
        owed_clique(neighbors, c, r, p, x, universe),
        c.contains(v),
        forall|w: u32| done.contains(w) ==> !c.contains(w),
    ensures
        owed_clique(
            neighbors,
            c,
            r.insert(v),
            p.difference(done).intersect(nbrs(neighbors, v)),
            x.union(done).intersect(nbrs(neighbors, v)),
            universe,
        ),
{
    broadcast use vstd::set::group_set_axioms;
    assert forall|w: u32| c.difference(r.insert(v)).contains(w) implies p.difference(done).intersect(
        nbrs(neighbors, v),
    ).contains(w) by {
        assert(c.difference(r).contains(w));
        assert(nbrs(neighbors, v).contains(w));
    }
}

/// The cliques of `out` from position `from` on all hold `r`, and no two of
/// them are the same.
pub open spec fn distinct_from(out: Seq<RoaringBitmap>, from: int, r: Set<u32>) -> bool {
    &&& forall|k: int| from <= k < out.len() ==> r.subset_of(bitmap_contents(#[trigger] out[k]))
    &&& forall|a: int, b: int|
        from <= a < b < out.len() ==> bitmap_contents(#[trigger] out[a]) != bitmap_contents(#[trigger] out[b])
}

/// `q` lists values in strictly increasing order.
pub open spec fn increasing(q: Seq<u32>) -> bool {
    forall|i: int, j: int| 0 <= i < j < q.len() ==> q[i] < q[j]
}

/// The values of `s` in increasing order.
pub open spec fn sorted_values(s: Set<u32>) -> Seq<u32> {
    choose|q: Seq<u32>| q.to_set() == s && increasing(q)
}

/// The neighbour sets of a graph given by its neighbour bitmaps.
pub open spec fn adjacency(neighbors: Seq<RoaringBitmap>) -> spec_fn(u32) -> Set<u32> {
    |v: u32| nbrs(neighbors, v)
}

/// The pivot among the first `k` of `vals`: the last of them with the most
/// neighbours.
pub open spec fn pivot_among(adj: spec_fn(u32) -> Set<u32>, vals: Seq<u32>, k: int) -> u32
    decreases k,
{
    if k <= 1 {
        vals[0]
    } else {
        let prev = pivot_among(adj, vals, k - 1);
        if adj(vals[k - 1]).len() >= adj(prev).len() {
            vals[k - 1]
        } else {
            prev
        }
    }
}

/// The cliques that the Bron–Kerbosch search with pivot reports, in order,
/// from the clique `r`, the candidates `p` and the strokes already tried `x`:
/// `r` itself when nothing is left; else, with the pivot the last of the
/// strokes of `p` and `x` (in increasing order) with the most neighbours, the
/// search from each stroke of `p` that is not the pivot's neighbour, in
/// increasing order (see `bron_kerbosch_from`).
pub open spec fn bron_kerbosch_order(adj: spec_fn(u32) -> Set<u32>, r: Set<u32>, p: Set<u32>, x: Set<u32>) -> Seq<
    Set<u32>,
>
    decreases p.len(), 1int, 0int,
    when p.finite()
{
    if p.len() == 0 && x.len() == 0 {
        seq![r]
    } else {
        let vals = sorted_values(p.union(x));
        let pivot = pivot_among(adj, vals, vals.len() as int);
        bron_kerbosch_from(adj, r, p, x, sorted_values(p.difference(adj(pivot))), 0)
    }
}

/// The cliques reported from the `k`-th of the candidates `cands` on, with
/// `p` and `x` as they stand then: the search from `r` with the candidate
/// added (among the candidates and tried strokes that are its neighbours),
/// then, with the candidate moved from `p` to `x`, the rest.
pub open spec fn bron_kerbosch_from(
    adj: spec_fn(u32) -> Set<u32>,
    r: Set<u32>,
    p: Set<u32>,
    x: Set<u32>,
    cands: Seq<u32>,
    k: int,
) -> Seq<Set<u32>>
    decreases p.len(), 0int, cands.len() - k,
    when p.finite() && 0 <= k
{
    if k >= cands.len() {
        Seq::empty()
    } else if !p.contains(cands[k]) {
        bron_kerbosch_from(adj, r, p, x, cands, k + 1)
    } else {
        let v = cands[k];
        proof {
            vstd::set_lib::lemma_len_subset(p.remove(v).intersect(adj(v)), p.remove(v));
        }
        bron_kerbosch_order(adj, r.insert(v), p.remove(v).intersect(adj(v)), x.intersect(adj(v)))
            + bron_kerbosch_from(adj, r, p.remove(v), x.insert(v), cands, k + 1)
    }
}

/// The strokes of each of `bs`.
pub open spec fn contents_of(bs: Seq<RoaringBitmap>) -> Seq<Set<u32>> {
    bs.map_values(|b: RoaringBitmap| bitmap_contents(b))
}

/// Two increasing listings of one set are the same.
proof fn lemma_increasing_unique(q1: Seq<u32>, q2: Seq<u32>)
    requires
        increasing(q1),
        increasing(q2),
        q1.to_set() == q2.to_set(),
    ensures
        q1 == q2,
    decreases q1.len(),
{
    if q1.len() == 0 {
        if q2.len() > 0 {
            assert(q2.to_set().contains(q2[0]));
        }
        assert(q2.len() == 0);
    } else if q2.len() == 0 {
        assert(q1.to_set().contains(q1[0]));
    } else {
        let l1 = q1.last();
        let l2 = q2.last();
        assert(q1.to_set().contains(l1));
        assert(q2.to_set().contains(l2));
        assert(q2.contains(l1));
        assert(q1.contains(l2));
        let i1 = choose|i: int| 0 <= i < q1.len() && q1[i] == l2;
        let i2 = choose|i: int| 0 <= i < q2.len() && q2[i] == l1;
        assert(l1 == l2) by {
            if l1 < l2 {
                assert(i1 < q1.len() - 1 ==> q1[i1] < l1);
            } else if l2 < l1 {
                assert(i2 < q2.len() - 1 ==> q2[i2] < l2);
            }
        }
        let d1 = q1.drop_last();
        let d2 = q2.drop_last();
        assert(d1.to_set() =~= d2.to_set()) by {
            assert forall|v: u32| d1.to_set().contains(v) implies d2.to_set().contains(v) by {
                let i = choose|i: int| 0 <= i < d1.len() && d1[i] == v;
                assert(q1.to_set().contains(v));
                let j = choose|j: int| 0 <= j < q2.len() && q2[j] == v;
                if j == q2.len() - 1 {
                    assert(q1[i] < q1[q1.len() - 1]);
                }
                assert(d2[j] == v);
            }
            assert forall|v: u32| d2.to_set().contains(v) implies d1.to_set().contains(v) by {
                let i = choose|i: int| 0 <= i < d2.len() && d2[i] == v;
                assert(q2.to_set().contains(v));
                let j = choose|j: int| 0 <= j < q1.len() && q1[j] == v;
                if j == q1.len() - 1 {
                    assert(q2[i] < q2[q2.len() - 1]);
                }
                assert(d1[j] == v);
            }
        }
        lemma_increasing_unique(d1, d2);
        assert(q1 =~= d1.push(l1));
        assert(q2 =~= d2.push(l2));
    }
}

/// An increasing listing of a set is its sorted values.
proof fn lemma_sorted_values(q: Seq<u32>, s: Set<u32>)
    requires
        increasing(q),
        q.to_set() == s,
    ensures
        sorted_values(s) == q,
{
    let q2 = sorted_values(s);
    assert(q.to_set() == s && increasing(q));
    lemma_increasing_unique(q, q2);
}

/// One step of the Bron–Kerbosch search with pivot: `r` is the clique so
/// far, `p` the strokes that may extend it, `x` those already tried. When
/// neither is left, `r` is a maximal clique and is added to `out`. Else the
/// pivot is the last of the strokes of `p` and `x` with the most neighbours,
/// and each stroke of `p` that is not the pivot's neighbour extends `r` in
/// turn.
fn bron_kerbosch_helper(
    r: RoaringBitmap,
    p: RoaringBitmap,
    x: RoaringBitmap,
    neighbors: &Vec<RoaringBitmap>,
    out: &mut Vec<RoaringBitmap>,
    Ghost(universe): Ghost<Set<u32>>,
)
    requires
        graph_wf(neighbors@),
        bitmap_contents(r).finite(),
        bitmap_contents(p).finite(),
        bitmap_contents(x).finite(),
        is_clique(neighbors@, bitmap_contents(r)),
        forall|w: u32, u: u32|
            bitmap_contents(p).contains(w) && bitmap_contents(r).contains(u) ==> #[trigger] nbrs(neighbors@, u).contains(w),
        forall|w: u32| bitmap_contents(p).contains(w) ==> !bitmap_contents(r).contains(w),
        candidates_complete(neighbors@, bitmap_contents(r), bitmap_contents(p), bitmap_contents(x), universe),
        bitmap_contents(p).subset_of(universe),
        bitmap_contents(x).subset_of(universe),
        forall|w: u32|
            #[trigger] bitmap_contents(x).contains(w) ==> !bitmap_contents(r).contains(w) && adjacent_to_all(
                neighbors@,
                bitmap_contents(r),
                w,
            ),
    ensures
        forall|c: Set<u32>|
            #[trigger] owed_clique(
                neighbors@,
                c,
                bitmap_contents(r),
                bitmap_contents(p),
                bitmap_contents(x),
                universe,
            ) ==> is_found(final(out)@, old(out)@.len() as int, c),
        old(out)@.len() <= final(out)@.len(),
        final(out)@.subrange(0, old(out)@.len() as int) == old(out)@,
        found_cliques(
            neighbors@,
            final(out)@,
            old(out)@.len() as int,
            bitmap_contents(r).union(bitmap_contents(p)),
            universe,
        ),
        distinct_from(final(out)@, old(out)@.len() as int, bitmap_contents(r)),
        contents_of(final(out)@.subrange(old(out)@.len() as int, final(out)@.len() as int)) == bron_kerbosch_order(
            adjacency(neighbors@),
            bitmap_contents(r),
            bitmap_contents(p),
            bitmap_contents(x),
        ),
    decreases bitmap_contents(p).len(),
{
    let empty_set = bitmap_new();
    if bitmap_len(&p) == 0 && bitmap_len(&x) == 0 {
        let ghost before = out@;
        proof {
            broadcast use vstd::set::group_set_axioms;
            assert forall|w: u32| universe.contains(w) && !bitmap_contents(r).contains(w) implies !#[trigger] adjacent_to_all(
                neighbors@,
                bitmap_contents(r),
                w,
            ) by {
                if adjacent_to_all(neighbors@, bitmap_contents(r), w) {
                    assert(bitmap_contents(p).contains(w) || bitmap_contents(x).contains(w));
                    assert(bitmap_contents(p) =~= Set::<u32>::empty());
                    assert(bitmap_contents(x) =~= Set::<u32>::empty());
                }
            }
        }
        let ghost rc = bitmap_contents(r);
        out.push(r);
        proof {
            assert(out@.subrange(0, before.len() as int) =~= before);
            assert(contents_of(out@.subrange(before.len() as int, out@.len() as int)) =~= seq![rc]);
            assert forall|c: Set<u32>|
                #[trigger] owed_clique(
                    neighbors@,
                    c,
                    rc,
                    bitmap_contents(p),
                    bitmap_contents(x),
                    universe,
                ) implies is_found(out@, before.len() as int, c) by {
                assert(bitmap_contents(p) =~= Set::<u32>::empty());
                assert(c =~= rc) by {
                    assert forall|w: u32| c.contains(w) implies rc.contains(w) by {
                        if !rc.contains(w) {
                            assert(c.difference(rc).contains(w));
                        }
                    }
                }
                assert(bitmap_contents(out@[before.len() as int]) == c);
            }
        }
        return;
    }
    let ghost p0 = bitmap_contents(p);
    let px = bitmap_union(&p, &x);
    let values = bitmap_values(&px);
    proof {
        if values@.len() == 0 {
            assert(bitmap_contents(px) =~= Set::<u32>::empty());
            assert(p0 =~= Set::<u32>::empty());
            assert(bitmap_contents(x) =~= Set::<u32>::empty());
        }
    }
    let ghost adj = adjacency(neighbors@);
    proof {
        lemma_sorted_values(values@, p0.union(bitmap_contents(x)));
    }
    let mut pivot: u32 = values[0];
    let mut best: u64 = bitmap_len(neighbors_of(neighbors, values[0], &empty_set));
    let mut i: usize = 1;
    while i < values.len()
        invariant
            graph_wf(neighbors@),
            bitmap_contents(empty_set) == Set::<u32>::empty(),
            1 <= i <= values@.len(),
            values@.contains(pivot),
            adj == adjacency(neighbors@),
            pivot == pivot_among(adj, values@, i as int),
            best == adj(pivot).len(),
        decreases values@.len() - i,
    {
        let l = bitmap_len(neighbors_of(neighbors, values[i], &empty_set));
        if l >= best {
            best = l;
            pivot = values[i];
        }
        i = i + 1;
    }
    let candidates_set = bitmap_difference(&p, neighbors_of(neighbors, pivot, &empty_set));
    let candidates = bitmap_values(&candidates_set);
    proof {
        lemma_sorted_values(candidates@, p0.difference(nbrs(neighbors@, pivot)));
        assert(p0.len() != 0 || bitmap_contents(x).len() != 0);
        assert(bron_kerbosch_order(adj, bitmap_contents(r), p0, bitmap_contents(x)) == bron_kerbosch_from(
            adj,
            bitmap_contents(r),
            p0,
            bitmap_contents(x),
            candidates@,
            0,
        ));
    }
    let mut p_cur = bitmap_clone(&p);
    let ghost x0 = bitmap_contents(x);
    proof {
        assert(values@.to_set().contains(pivot));
    }
    let mut x = x;
    let ghost out0 = out@;
    proof {
        assert(candidates@.subrange(0, 0).to_set() =~= Set::<u32>::empty());
        assert(x0.union(Set::<u32>::empty()) =~= x0);
    }
    let mut k: usize = 0;
    while k < candidates.len()
        invariant
            graph_wf(neighbors@),
            bitmap_contents(empty_set) == Set::<u32>::empty(),
            bitmap_contents(r).finite(),
            p0.finite(),
            is_clique(neighbors@, bitmap_contents(r)),
            forall|w: u32, u: u32| p0.contains(w) && bitmap_contents(r).contains(u) ==> #[trigger] nbrs(neighbors@, u).contains(w),
            forall|w: u32| p0.contains(w) ==> !bitmap_contents(r).contains(w),
            candidates@.to_set() == p0.difference(nbrs(neighbors@, pivot)),
            forall|a: int, b: int| 0 <= a < b < candidates@.len() ==> candidates@[a] < candidates@[b],
            k <= candidates@.len(),
            p0 == bitmap_contents(p),
            bitmap_contents(p_cur) == p0.difference(candidates@.subrange(0, k as int).to_set()),
            bitmap_contents(x).finite(),
            candidates_complete(neighbors@, bitmap_contents(r), bitmap_contents(p_cur), bitmap_contents(x), universe),
            out0.len() <= out@.len(),
            out@.subrange(0, out0.len() as int) == out0,
            found_cliques(neighbors@, out@, out0.len() as int, bitmap_contents(r).union(p0), universe),
            p0.contains(pivot) || x0.contains(pivot),
            p0.subset_of(universe),
            x0.subset_of(universe),
            bitmap_contents(x) == x0.union(candidates@.subrange(0, k as int).to_set()),
            forall|w: u32|
                #[trigger] x0.contains(w) ==> !bitmap_contents(r).contains(w) && adjacent_to_all(
                    neighbors@,
                    bitmap_contents(r),
                    w,
                ),
            forall|c: Set<u32>|
                #[trigger] owed_clique(neighbors@, c, bitmap_contents(r), p0, x0, universe) && (exists|j: int|
                    0 <= j < k && c.contains(#[trigger] candidates@[j])) ==> is_found(out@, out0.len() as int, c),
            distinct_from(out@, out0.len() as int, bitmap_contents(r)),
            adj == adjacency(neighbors@),
            bron_kerbosch_order(adj, bitmap_contents(r), p0, x0) == contents_of(
                out@.subrange(out0.len() as int, out@.len() as int),
            ) + bron_kerbosch_from(adj, bitmap_contents(r), bitmap_contents(p_cur), bitmap_contents(x), candidates@, k as int),
            forall|e: int|
                out0.len() <= e < out@.len() ==> exists|j: int|
                    0 <= j < k && bitmap_contents(#[trigger] out@[e]).contains(candidates@[j]),
        decreases candidates@.len() - k,
    {
        let v = candidates[k];
        proof {
            assert(candidates@.contains(v));
            assert(candidates@.to_set().contains(v));
            assert(!candidates@.subrange(0, k as int).contains(v)) by {
                if candidates@.subrange(0, k as int).contains(v) {
                    let j = choose|j: int| 0 <= j < k && candidates@.subrange(0, k as int)[j] == v;
                    assert(candidates@[j] < candidates@[k as int]);
                }
            }
            assert(bitmap_contents(p_cur).contains(v));
        }
        let mut just_v = bitmap_new();
        bitmap_insert(&mut just_v, v);
        let r2 = bitmap_union(&r, &just_v);
        let nv = neighbors_of(neighbors, v, &empty_set);
        let p2 = bitmap_intersection(&p_cur, nv);
        let x2 = bitmap_intersection(&x, nv);
        proof {
            broadcast use vstd::set::group_set_axioms;
            let pc = bitmap_contents(p_cur);
            assert(bitmap_contents(p2).subset_of(p0.remove(v)));
            vstd::set_lib::lemma_len_subset(bitmap_contents(p2), p0.remove(v));
            assert(p0.contains(v));
            assert(p0.remove(v).len() == p0.len() - 1);
            assert(bitmap_contents(p2).len() < p0.len());
            assert(pc.finite());
            assert forall|a: u32, b: u32|
                bitmap_contents(r2).contains(a) && bitmap_contents(r2).contains(b) && a != b implies #[trigger] nbrs(
                neighbors@,
                a,
            ).contains(b) by {
                if a == v {
                    assert(nbrs(neighbors@, b).contains(v));
                }
            }
            assert forall|w: u32, u: u32|
                bitmap_contents(p2).contains(w) && bitmap_contents(r2).contains(u) implies #[trigger] nbrs(
                neighbors@,
                u,
            ).contains(w) by {}
            assert forall|w: u32|
                universe.contains(w) && !bitmap_contents(r2).contains(w) && #[trigger] adjacent_to_all(
                    neighbors@,
                    bitmap_contents(r2),
                    w,
                ) implies bitmap_contents(p2).contains(w) || bitmap_contents(x2).contains(w) by {
                assert(adjacent_to_all(neighbors@, bitmap_contents(r), w)) by {
                    assert forall|u: u32| bitmap_contents(r).contains(u) implies #[trigger] nbrs(neighbors@, u).contains(w) by {
                        assert(bitmap_contents(r2).contains(u));
                    }
                }
                assert(nbrs(neighbors@, v).contains(w)) by {
                    assert(bitmap_contents(r2).contains(v));
                }
            }
            assert(bitmap_contents(r2) =~= bitmap_contents(r).insert(v));
            assert(p0.subset_of(universe));
            assert(bitmap_contents(x2).subset_of(universe)) by {
                assert forall|w: u32| bitmap_contents(x2).contains(w) implies universe.contains(w) by {
                    if !x0.contains(w) {
                        assert(candidates@.subrange(0, k as int).to_set().contains(w));
                        assert(candidates@.to_set().contains(w));
                    }
                }
            }
            assert forall|w: u32| #[trigger] bitmap_contents(x2).contains(w) implies !bitmap_contents(r2).contains(w)
                && adjacent_to_all(neighbors@, bitmap_contents(r2), w) by {
                if !x0.contains(w) {
                    assert(candidates@.subrange(0, k as int).to_set().contains(w));
                    assert(candidates@.to_set().contains(w));
                    assert(p0.contains(w));
                }
                assert(nbrs(neighbors@, v).contains(w));
                assert(w != v);
                assert forall|u: u32| bitmap_contents(r2).contains(u) implies #[trigger] nbrs(neighbors@, u).contains(w) by {
                    if u != v {
                        assert(bitmap_contents(r).contains(u));
                        if x0.contains(w) {
                            assert(adjacent_to_all(neighbors@, bitmap_contents(r), w));
                        }
                    }
                }
            }
        }
        let ghost before = out@;
        let ghost pc = bitmap_contents(p_cur);
        let ghost xc = bitmap_contents(x);
        proof {
            broadcast use vstd::set::group_set_axioms;
            assert(bitmap_contents(p2) =~= pc.remove(v).intersect(adj(v)));
            assert(bitmap_contents(x2) =~= xc.intersect(adj(v)));
            assert(bron_kerbosch_from(adj, bitmap_contents(r), pc, xc, candidates@, k as int) == bron_kerbosch_order(
                adj,
                bitmap_contents(r).insert(v),
                pc.remove(v).intersect(adj(v)),
                xc.intersect(adj(v)),
            ) + bron_kerbosch_from(adj, bitmap_contents(r), pc.remove(v), xc.insert(v), candidates@, k + 1));
        }
        bron_kerbosch_helper(r2, p2, x2, neighbors, out, Ghost(universe));
        proof {
            assert(out@.subrange(0, before.len() as int) == before);
            assert(contents_of(out@.subrange(out0.len() as int, out@.len() as int)) =~= contents_of(
                before.subrange(out0.len() as int, before.len() as int),
            ) + contents_of(out@.subrange(before.len() as int, out@.len() as int)));
        }
        proof {
            assert(out@.subrange(0, out0.len() as int) =~= out0) by {
                assert(out@.subrange(0, before.len() as int) == before);
                assert forall|j: int| 0 <= j < out0.len() implies out@[j] == out0[j] by {
                    assert(out@.subrange(0, before.len() as int)[j] == before[j]);
                    assert(before.subrange(0, out0.len() as int)[j] == out0[j]);
                }
            }
            assert forall|e: int| out0.len() <= e < out@.len() implies exists|j: int|
                0 <= j < k + 1 && bitmap_contents(#[trigger] out@[e]).contains(candidates@[j]) by {
                if e < before.len() {
                    assert(out@.subrange(0, before.len() as int)[e] == before[e]);
                    let j = choose|j: int| 0 <= j < k && bitmap_contents(before[e]).contains(candidates@[j]);
                    assert(bitmap_contents(out@[e]).contains(candidates@[j]));
                } else {
                    assert(bitmap_contents(r2).subset_of(bitmap_contents(out@[e])));
                    assert(bitmap_contents(out@[e]).contains(candidates@[k as int]));
                }
            }
            assert forall|e: int| out0.len() <= e < out@.len() implies bitmap_contents(r).subset_of(
                bitmap_contents(#[trigger] out@[e]),
            ) by {
                if e < before.len() {
                    assert(out@.subrange(0, before.len() as int)[e] == before[e]);
                } else {
                    assert(bitmap_contents(r2).subset_of(bitmap_contents(out@[e])));
                }
            }
            assert forall|a: int, b: int| out0.len() <= a < b < out@.len() implies bitmap_contents(#[trigger] out@[a])
                != bitmap_contents(#[trigger] out@[b]) by {
                if b < before.len() {
                    assert(out@.subrange(0, before.len() as int)[a] == before[a]);
                    assert(out@.subrange(0, before.len() as int)[b] == before[b]);
                } else if a < before.len() {
                    assert(out@.subrange(0, before.len() as int)[a] == before[a]);
                    let j = choose|j: int| 0 <= j < k && bitmap_contents(before[a]).contains(candidates@[j]);
                    let w = candidates@[j];
                    assert(bitmap_contents(out@[b]).subset_of(bitmap_contents(r2).union(bitmap_contents(p2))));
                    assert(p0.contains(w)) by {
                        assert(candidates@.to_set().contains(w));
                    }
                    assert(w != v) by {
                        assert(candidates@[j] < candidates@[k as int]);
                    }
                    assert(candidates@.subrange(0, k as int).to_set().contains(w)) by {
                        assert(candidates@.subrange(0, k as int)[j] == w);
                    }
                    assert(!bitmap_contents(out@[b]).contains(w));
                }
            }
            assert forall|j: int| out0.len() <= j < out@.len() implies is_maximal_clique(neighbors@, bitmap_contents(#[trigger] out@[j]), universe)
                && bitmap_contents(out@[j]).subset_of(bitmap_contents(r).union(p0)) by {
                if j < before.len() {
                    assert(out@.subrange(0, before.len() as int)[j] == before[j]);
                }
            }
            assert forall|c: Set<u32>|
                #[trigger] owed_clique(neighbors@, c, bitmap_contents(r), p0, x0, universe) && (exists|j: int|
                    0 <= j < k + 1 && c.contains(#[trigger] candidates@[j])) implies is_found(out@, out0.len() as int, c) by {
                if exists|j: int| 0 <= j < k && c.contains(#[trigger] candidates@[j]) {
                    let kk = choose|kk: int| out0.len() <= kk < before.len() && bitmap_contents(#[trigger] before[kk]) == c;
                    assert(out@.subrange(0, before.len() as int)[kk] == before[kk]);
                    assert(bitmap_contents(out@[kk]) == c);
                } else {
                    let done = candidates@.subrange(0, k as int).to_set();
                    assert(c.contains(v));
                    assert forall|w: u32| done.contains(w) implies !c.contains(w) by {
                        assert(candidates@.subrange(0, k as int).contains(w));
                        let j = choose|j: int| 0 <= j < k && candidates@.subrange(0, k as int)[j] == w;
                        assert(candidates@[j] == w);
                    }
                    lemma_owed_in_branch(neighbors@, c, bitmap_contents(r), p0, x0, universe, v, done);
                    assert(bitmap_contents(p2) == p0.difference(done).intersect(nbrs(neighbors@, v)));
                    assert(bitmap_contents(x2) == x0.union(done).intersect(nbrs(neighbors@, v)));
                    assert(owed_clique(
                        neighbors@,
                        c,
                        bitmap_contents(r2),
                        bitmap_contents(p2),
                        bitmap_contents(x2),
                        universe,
                    ));
                    let kk = choose|kk: int| before.len() <= kk < out@.len() && bitmap_contents(#[trigger] out@[kk]) == c;
                    assert(out0.len() <= kk);
                }
            }
        }
        let ghost pc_before = bitmap_contents(p_cur);
        let ghost x_before = bitmap_contents(x);
        bitmap_remove(&mut p_cur, v);
        bitmap_insert(&mut x, v);
        proof {
            broadcast use vstd::set::group_set_axioms;
            assert forall|w: u32|
                universe.contains(w) && !bitmap_contents(r).contains(w) && #[trigger] adjacent_to_all(
                    neighbors@,
                    bitmap_contents(r),
                    w,
                ) implies bitmap_contents(p_cur).contains(w) || bitmap_contents(x).contains(w) by {
                assert(pc_before.contains(w) || x_before.contains(w));
            }
            assert(candidates@.subrange(0, k + 1) =~= candidates@.subrange(0, k as int).push(v));
            vstd::seq::Seq::lemma_push_to_set_commute(candidates@.subrange(0, k as int), v);
            assert(bitmap_contents(p_cur) =~= p0.difference(candidates@.subrange(0, k + 1).to_set()));
            assert(bitmap_contents(x) =~= x0.union(candidates@.subrange(0, k + 1).to_set()));
            assert(bitmap_contents(p_cur) =~= pc.remove(v));
            assert(bitmap_contents(x) =~= xc.insert(v));
        }
        k = k + 1;
    }
    proof {
        assert forall|c: Set<u32>|
            #[trigger] owed_clique(neighbors@, c, bitmap_contents(r), p0, x0, universe) implies is_found(
            out@,
            out0.len() as int,
            c,
        ) by {
            lemma_owed_meets_candidates(neighbors@, c, bitmap_contents(r), p0, x0, universe, pivot);
            let w = choose|w: u32| #[trigger] c.contains(w) && p0.difference(nbrs(neighbors@, pivot)).contains(w);
            assert(candidates@.to_set().contains(w));
            assert(candidates@.contains(w));
            let j = choose|j: int| 0 <= j < candidates@.len() && candidates@[j] == w;
            assert(c.contains(candidates@[j]));
        }
    }
}

/// The maximal cliques among the strokes of `p`, as found by the
/// Bron–Kerbosch search with pivot.
pub fn bron_kerbosch(p: RoaringBitmap, neighbors: &Vec<RoaringBitmap>) -> (cliques: Vec<RoaringBitmap>)
    requires
        graph_wf(neighbors@),
        bitmap_contents(p).finite(),
    ensures
        found_cliques(neighbors@, cliques@, 0, bitmap_contents(p), bitmap_contents(p)),
        forall|c: Set<u32>|
            #[trigger] is_maximal_clique(neighbors@, c, bitmap_contents(p)) && c.subset_of(bitmap_contents(p))
                ==> is_found(cliques@, 0, c),
        forall|a: int, b: int|
            0 <= a < b < cliques@.len() ==> bitmap_contents(#[trigger] cliques@[a]) != bitmap_contents(
                #[trigger] cliques@[b],
            ),
        contents_of(cliques@) == bron_kerbosch_order(
            adjacency(neighbors@),
            Set::empty(),
            bitmap_contents(p),
            Set::empty(),
        ),
{
    let mut max_cliques: Vec<RoaringBitmap> = Vec::new();
    let r = bitmap_new();
    let x = bitmap_new();
    let ghost universe = bitmap_contents(p);
    proof {
        broadcast use vstd::set::group_set_axioms;
        assert forall|w: u32|
            universe.contains(w) && !bitmap_contents(r).contains(w) && #[trigger] adjacent_to_all(
                neighbors@,
                bitmap_contents(r),
                w,
            ) implies bitmap_contents(p).contains(w) || bitmap_contents(x).contains(w) by {}
    }
    proof {
        assert(universe.subset_of(universe));
        assert(bitmap_contents(x).subset_of(universe));
    }
    bron_kerbosch_helper(r, p, x, neighbors, &mut max_cliques, Ghost(universe));
    proof {
        assert(Set::<u32>::empty().union(bitmap_contents(p)) =~= bitmap_contents(p));
        assert forall|c: Set<u32>|
            #[trigger] is_maximal_clique(neighbors@, c, bitmap_contents(p)) && c.subset_of(bitmap_contents(p))
                implies is_found(max_cliques@, 0, c) by {
            assert(c.difference(Set::<u32>::empty()) =~= c);
            assert(owed_clique(neighbors@, c, Set::<u32>::empty(), bitmap_contents(p), Set::<u32>::empty(), universe));
        }
        assert(max_cliques@.subrange(0, max_cliques@.len() as int) =~= max_cliques@);
    }
    max_cliques
}

/// Every clique among the strokes of a finite `universe` extends to a
/// maximal one there.
pub proof fn lemma_clique_extends_to_maximal(neighbors: Seq<RoaringBitmap>, s: Set<u32>, universe: Set<u32>) -> (c: Set<u32>)
    requires
        graph_wf(neighbors),
        universe.finite(),
        is_clique(neighbors, s),
        s.subset_of(universe),
    ensures
        is_maximal_clique(neighbors, c, universe),
        s.subset_of(c),
        c.subset_of(universe),
    decreases universe.difference(s).len(),
{
    if exists|w: u32| universe.contains(w) && !s.contains(w) && #[trigger] adjacent_to_all(neighbors, s, w) {
        let w = choose|w: u32| universe.contains(w) && !s.contains(w) && #[trigger] adjacent_to_all(neighbors, s, w);
        let s2 = s.insert(w);
        assert forall|a: u32, b: u32| s2.contains(a) && s2.contains(b) && a != b implies #[trigger] nbrs(
            neighbors,
            a,
        ).contains(b) by {
            if a == w {
                assert(nbrs(neighbors, b).contains(w));
            } else if b == w {
                assert(nbrs(neighbors, a).contains(w));
            }
        }
        vstd::set_lib::lemma_len_subset(universe.difference(s), universe);
        assert(universe.difference(s2) =~= universe.difference(s).remove(w));
        lemma_clique_extends_to_maximal(neighbors, s2, universe)
    } else {
        s
    }
}

/// The compatibility graph of `n` strokes: the neighbours of stroke `v` are
/// the other strokes `w` below `n` with `v` and `w` compatible.
pub open spec fn compatibility_adjacency(n: u32, compatible: Seq<Vec<bool>>) -> spec_fn(u32) -> Set<u32> {
    |v: u32| Set::new(|w: u32| v < n && w < n && v != w && compatible_pair(compatible, v as int, w as int))
}

/// Stroke `v` belongs to one of `cliques`.
pub open spec fn in_some_clique(cliques: Seq<RoaringBitmap>, v: u32) -> bool {
    exists|k: int| 0 <= k < cliques.len() && #[trigger] bitmap_contents(cliques[k]).contains(v)
}

/// The strokes `0..n`, as a bitmap.
fn strokes_below(n: u32) -> (b: RoaringBitmap)
    ensures
        bitmap_contents(b).finite(),
        forall|v: u32| #[trigger] bitmap_contents(b).contains(v) <==> v < n,
{
    let mut b = bitmap_new();
    let mut v: u32 = 0;
    while v < n
        invariant
            v <= n,
            bitmap_contents(b).finite(),
            forall|w: u32| #[trigger] bitmap_contents(b).contains(w) <==> w < v,
        decreases n - v,
    {
        proof {
            broadcast use vstd::set::group_set_axioms;
        }
        bitmap_insert(&mut b, v);
        v = v + 1;
    }
    b
}

/// The cliques of compatible strokes among `n` strokes that take turns at
/// an intersection: the maximal cliques of the compatibility graph (strokes
/// `a < b` are compatible where `compatible[a][b]`), as the Bron–Kerbosch
/// search finds them.
pub fn signal_cliques(n: u32, compatible: &Vec<Vec<bool>>) -> (cliques: Vec<RoaringBitmap>)
    requires
        compatible@.len() == n,
        forall|a: int| 0 <= a < n ==> (#[trigger] compatible@[a])@.len() == n,
    ensures
        forall|k: int|
            0 <= k < cliques@.len() ==> {
                let c = bitmap_contents(#[trigger] cliques@[k]);
                &&& c.finite()
                &&& forall|v: u32| c.contains(v) ==> v < n
                &&& forall|a: u32, b: u32|
                    c.contains(a) && c.contains(b) && a < b ==> compatible@[a as int]@[b as int]
                &&& forall|w: u32|
                    w < n && !c.contains(w) ==> exists|a: u32|
                        c.contains(a) && !#[trigger] compatible_pair(compatible@, a as int, w as int)
            },
        forall|v: u32| v < n ==> #[trigger] in_some_clique(cliques@, v),
        forall|a: int, b: int|
            0 <= a < b < cliques@.len() ==> bitmap_contents(#[trigger] cliques@[a]) != bitmap_contents(
                #[trigger] cliques@[b],
            ),
        contents_of(cliques@) == bron_kerbosch_order(
            compatibility_adjacency(n, compatible@),
            Set::empty(),
            Set::new(|v: u32| v < n),
            Set::empty(),
        ),
{
    let neighbors = compatibilities(n, compatible);
    let p = strokes_below(n);
    let cliques = bron_kerbosch(p, &neighbors);
    proof {
        assert forall|k: int| 0 <= k < cliques@.len() implies {
            let c = bitmap_contents(#[trigger] cliques@[k]);
            &&& c.finite()
            &&& forall|v: u32| c.contains(v) ==> v < n
            &&& forall|a: u32, b: u32| c.contains(a) && c.contains(b) && a < b ==> compatible@[a as int]@[b as int]
            &&& forall|w: u32|
                w < n && !c.contains(w) ==> exists|a: u32|
                    c.contains(a) && !#[trigger] compatible_pair(compatible@, a as int, w as int)
        } by {
            let c = bitmap_contents(cliques@[k]);
            vstd::set_lib::lemma_len_subset(c, bitmap_contents(p));
            assert forall|a: u32, b: u32| c.contains(a) && c.contains(b) && a < b implies compatible@[a as int]@[b as int] by {
                assert(nbrs(neighbors@, a).contains(b));
            }
            assert forall|w: u32| w < n && !c.contains(w) implies exists|a: u32|
                c.contains(a) && !#[trigger] compatible_pair(compatible@, a as int, w as int) by {
                assert(bitmap_contents(p).contains(w));
                assert(!adjacent_to_all(neighbors@, c, w));
                let a = choose|a: u32| c.contains(a) && !#[trigger] nbrs(neighbors@, a).contains(w);
                assert(bitmap_contents(p).contains(a));
                assert(!compatible_pair(compatible@, a as int, w as int));
            }
        }
        assert(bitmap_contents(p) =~= Set::new(|v: u32| v < n));
        assert(adjacency(neighbors@) =~= compatibility_adjacency(n, compatible@)) by {
            assert forall|v: u32| #[trigger] adjacency(neighbors@)(v) =~= compatibility_adjacency(n, compatible@)(v) by {
                assert forall|w: u32| nbrs(neighbors@, v).contains(w) == compatibility_adjacency(n, compatible@)(v).contains(w) by {
                    if nbrs(neighbors@, v).contains(w) {
                        assert((v as int) < neighbors@.len());
                        assert(w < n);
                        assert(v != w);
                    }
                }
            }
        }
        assert forall|v: u32| v < n implies #[trigger] in_some_clique(cliques@, v) by {
            let s = Set::<u32>::empty().insert(v);
            assert(s.subset_of(bitmap_contents(p)));
            let c = lemma_clique_extends_to_maximal(neighbors@, s, bitmap_contents(p));
            assert(is_maximal_clique(neighbors@, c, bitmap_contents(p)));
            let k = choose|k: int| 0 <= k < cliques@.len() && bitmap_contents(#[trigger] cliques@[k]) == c;
            assert(bitmap_contents(cliques@[k]).contains(v));
        }
    }
    cliques
}

/// `order` is the stable ordering of `0..keys.len()` by decreasing key.
pub open spec fn stable_desc_order(keys: Seq<isize>, order: Seq<usize>) -> bool {
    &&& order.len() == keys.len()
    &&& order.no_duplicates()
    &&& forall|i: int| 0 <= i < order.len() ==> (#[trigger] order[i]) < keys.len()
    &&& forall|j: usize| j < keys.len() ==> #[trigger] order.contains(j)
    &&& forall|i: int, j: int| 0 <= i < j < order.len() ==> keys[order[i] as int] >= keys[order[j] as int]
    &&& forall|i: int, j: int|
        0 <= i < j < order.len() && keys[order[i] as int] == keys[order[j] as int] ==> order[i] < order[j]
}

/// The indices of `keys` in a stable order of decreasing key (as a stable
/// sort by the negated key orders them).
fn stable_order_desc(keys: &Vec<isize>) -> (order: Vec<usize>)
    ensures
        stable_desc_order(keys@, order@),
{
    let mut order: Vec<usize> = Vec::new();
    let mut k: usize = 0;
    while k < keys.len()
        invariant
            k <= keys@.len(),
            order@.len() == k,
            order@.to_set() == Set::new(|i: usize| i < k),
            order@.no_duplicates(),
            forall|i: int| 0 <= i < order@.len() ==> (#[trigger] order@[i]) < k,
            forall|i: int, j: int| 0 <= i < j < order@.len() ==> keys@[order@[i] as int] >= keys@[order@[j] as int],
            forall|i: int, j: int|
                0 <= i < j < order@.len() && keys@[order@[i] as int] == keys@[order@[j] as int] ==> order@[i] < order@[j],
        decreases keys@.len() - k,
    {
        let key = keys[k];
        let mut pos: usize = 0;
        while pos < order.len() && keys[order[pos]] >= key
            invariant
                pos <= order@.len(),
                k < keys@.len(),
                key == keys@[k as int],
                forall|i: int| 0 <= i < order@.len() ==> (#[trigger] order@[i]) < k,
                forall|i: int| 0 <= i < pos ==> keys@[order@[i] as int] >= key,
            decreases order@.len() - pos,
        {
            pos = pos + 1;
        }
        let ghost before = order@;
        proof {
            assert forall|i: int| pos <= i < before.len() implies keys@[before[i] as int] < key by {
                if keys@[before[i] as int] >= key {
                    assert(keys@[before[pos as int] as int] >= keys@[before[i] as int]);
                }
            }
        }
        order.insert(pos, k);
        proof {
            assert forall|i: int| 0 <= i < order@.len() implies (#[trigger] order@[i]) < k + 1 by {
                if i > pos as int {
                    assert(order@[i] == before[i - 1]);
                } else if i < pos as int {
                    assert(order@[i] == before[i]);
                }
            }
            assert(order@.no_duplicates()) by {
                assert forall|i: int, j: int| 0 <= i < j < order@.len() implies order@[i] != order@[j] by {
                    if i == pos as int {
                        assert(order@[j] == before[j - 1]);
                    } else if j == pos as int {
                        assert(order@[i] == before[i]);
                    } else {
                        let bi = if i < pos as int { i } else { i - 1 };
                        let bj = if j < pos as int { j } else { j - 1 };
                        assert(order@[i] == before[bi]);
                        assert(order@[j] == before[bj]);
                    }
                }
            }
            assert(order@.to_set() =~= Set::new(|i: usize| i < k + 1)) by {
                assert forall|v: usize| order@.to_set().contains(v) <==> v < k + 1 by {
                    if v < k + 1 {
                        if v == k {
                            assert(order@[pos as int] == k);
                        } else {
                            assert(before.to_set().contains(v));
                            let j = choose|j: int| 0 <= j < before.len() && before[j] == v;
                            if j < pos as int {
                                assert(order@[j] == v);
                            } else {
                                assert(order@[j + 1] == v);
                            }
                        }
                    }
                    if order@.to_set().contains(v) {
                        let j = choose|j: int| 0 <= j < order@.len() && order@[j] == v;
                        assert(order@[j] < k + 1);
                    }
                }
            }
            assert forall|i: int, j: int| 0 <= i < j < order@.len() implies keys@[order@[i] as int] >= keys@[order@[j] as int]
                && (keys@[order@[i] as int] == keys@[order@[j] as int] ==> order@[i] < order@[j]) by {
                if i == pos as int {
                    assert(order@[j] == before[j - 1]);
                } else if j == pos as int {
                    assert(order@[i] == before[i]);
                } else {
                    let bi = if i < pos as int { i } else { i - 1 };
                    let bj = if j < pos as int { j } else { j - 1 };
                    assert(order@[i] == before[bi]);
                    assert(order@[j] == before[bj]);
                }
            }
        }
        k = k + 1;
    }
    proof {
        assert forall|j: usize| j < keys@.len() implies #[trigger] order@.contains(j) by {
            assert(order@.to_set().contains(j));
        }
    }
    order
}

/// Time added after each clique's green phase.
pub const SIGNAL_TIMING_BUFFER: usize = 4;

/// The shortest green phase of a clique.
pub const MIN_CLIQUE_DURATION: usize = 6;

/// The strokes `0..n` all lie in `cover`.
pub open spec fn covers_all(n: u32, cover: Set<u32>) -> bool {
    forall|s: u32| s < n ==> #[trigger] cover.contains(s)
}

/// The strokes of the first `i` cliques.
pub open spec fn union_prefix(cs: Seq<Set<u32>>, i: int) -> Set<u32>
    decreases i,
{
    if i <= 0 {
        Set::empty()
    } else {
        union_prefix(cs, i - 1).union(cs[i - 1])
    }
}

/// `m` cliques are taken: cliques are taken in order while some stroke is
/// not yet in a taken clique.
pub open spec fn taken_count(n: u32, cs: Seq<Set<u32>>, m: int) -> bool {
    &&& 0 <= m <= cs.len()
    &&& forall|i: int| 0 <= i < m ==> !covers_all(n, #[trigger] union_prefix(cs, i))
    &&& m == cs.len() || covers_all(n, union_prefix(cs, m))
}

/// How long a clique's strokes are green: twice its size, at least the minimum.
pub open spec fn clique_duration(c: Set<u32>) -> int {
    if 2 * c.len() >= MIN_CLIQUE_DURATION {
        (2 * c.len()) as int
    } else {
        MIN_CLIQUE_DURATION as int
    }
}

/// When the phase of clique `i` starts in the cycle.
pub open spec fn cycle_offset(cs: Seq<Set<u32>>, i: int) -> int
    decreases i,
{
    if i <= 0 {
        0
    } else {
        cycle_offset(cs, i - 1) + clique_duration(cs[i - 1]) + SIGNAL_TIMING_BUFFER
    }
}

/// Stroke `s` is green at `t` during the phase of clique `i`: from the
/// phase's start for the clique's duration, and through the buffer after it
/// when it also belongs to the next clique (the first one after the last).
pub open spec fn in_window(cs: Seq<Set<u32>>, i: int, s: u32, t: int) -> bool {
    &&& cs[i].contains(s)
    &&& cycle_offset(cs, i) <= t
    &&& t < cycle_offset(cs, i) + clique_duration(cs[i]) + (if cs[(i + 1) % (cs.len() as int)].contains(s) {
        SIGNAL_TIMING_BUFFER as int
    } else {
        0int
    })
}

/// Stroke `s` is green at `t` during the phase of one of the first `i` cliques.
pub open spec fn green_upto(cs: Seq<Set<u32>>, i: int, s: u32, t: int) -> bool
    decreases i,
{
    if i <= 0 {
        false
    } else {
        green_upto(cs, i - 1, s, t) || in_window(cs, i - 1, s, t)
    }
}

/// Phases start no earlier than the previous ones.
proof fn lemma_offsets_grow(cs: Seq<Set<u32>>, i: int, j: int)
    requires
        0 <= i <= j,
    ensures
        cycle_offset(cs, i) <= cycle_offset(cs, j),
    decreases j - i,
{
    if i < j {
        lemma_offsets_grow(cs, i, j - 1);
    }
}

/// A finite set of values below `n` has at most `n` of them.
proof fn lemma_bounded_len(c: Set<u32>, n: u32)
    requires
        c.finite(),
        forall|v: u32| c.contains(v) ==> v < n,
    ensures
        c.len() <= n,
    decreases n,
{
    broadcast use vstd::set::group_set_axioms;
    if n == 0 {
        if c.len() > 0 {
            let v = c.choose();
            assert(c.contains(v));
        }
    } else {
        let m = (n - 1) as u32;
        lemma_bounded_len(c.remove(m), m);
        if c.contains(m) {
            assert(c.remove(m).len() == c.len() - 1);
        } else {
            assert(c.remove(m) =~= c);
        }
    }
}

/// Cliques in order: each holds strokes below `n`.
pub open spec fn cliques_within(n: u32, cs: Seq<RoaringBitmap>) -> bool {
    forall|k: int|
        0 <= k < cs.len() ==> bitmap_contents(#[trigger] cs[k]).finite() && forall|v: u32|
            bitmap_contents(cs[k]).contains(v) ==> v < n
}

/// The cliques' strokes, in the order `order`.
pub open spec fn ordered_contents(cliques: Seq<RoaringBitmap>, order: Seq<usize>) -> Seq<Set<u32>> {
    order.map_values(|j: usize| bitmap_contents(cliques[j as int]))
}

/// `timings` are those of `n` strokes when `cliques` are taken in the
/// stable order `order` of decreasing `parallelity`, of which `m` are taken.
pub open spec fn timings_from(
    n: u32,
    cliques: Seq<RoaringBitmap>,
    parallelity: Seq<isize>,
    order: Seq<usize>,
    m: int,
    timings: Seq<Vec<bool>>,
) -> bool {
    let cs = ordered_contents(cliques, order);
    let taken = cs.take(m);
    &&& stable_desc_order(parallelity, order)
    &&& taken_count(n, cs, m)
    &&& timings.len() == n
    &&& forall|s: int|
        0 <= s < n ==> (#[trigger] timings[s])@.len() == cycle_offset(taken, m) && forall|t: int|
            0 <= t < timings[s]@.len() ==> timings[s]@[t] == green_upto(taken, m, s as u32, t)
}

/// The signal timings of `n` strokes taking turns in `cliques`: the cliques
/// in the stable order of decreasing `parallelity`; of them, those taken
/// while some stroke is not yet in a taken one; and for each stroke, for
/// each tick of the cycle of all their phases, whether it is green.
pub fn signal_timings(n: u32, cliques: Vec<RoaringBitmap>, parallelity: &Vec<isize>) -> (timings: Vec<Vec<bool>>)
    requires
        parallelity@.len() == cliques@.len(),
        cliques_within(n, cliques@),
        cliques@.len() * (2 * n + MIN_CLIQUE_DURATION + SIGNAL_TIMING_BUFFER) <= usize::MAX,
    ensures
        exists|order: Seq<usize>, m: int| #[trigger] timings_from(n, cliques@, parallelity@, order, m, timings@),
{
    let order = stable_order_desc(parallelity);
    let ghost cs = order@.map_values(|j: usize| bitmap_contents(cliques@[j as int]));
    let mut cliques = cliques;
    let ghost given_cliques = cliques@;
    let mut ordered: Vec<RoaringBitmap> = Vec::new();
    let mut k: usize = 0;
    while k < order.len()
        invariant
            stable_desc_order(parallelity@, order@),
            cs == order@.map_values(|j: usize| bitmap_contents(given_cliques[j as int])),
            cliques@.len() == given_cliques.len(),
            parallelity@.len() == given_cliques.len(),
            k <= order@.len(),
            ordered@.len() == k,
            forall|j: int| 0 <= j < k ==> bitmap_contents(#[trigger] ordered@[j]) == cs[j],
            forall|q: int|
                k <= q < order@.len() ==> bitmap_contents(#[trigger] cliques@[order@[q] as int]) == bitmap_contents(
                    given_cliques[order@[q] as int],
                ),
        decreases order@.len() - k,
    {
        let idx = order[k];
        let mut slot = bitmap_new();
        let ghost before = cliques@;
        core::mem::swap(&mut slot, &mut cliques[idx]);
        proof {
            assert forall|q: int| k + 1 <= q < order@.len() implies bitmap_contents(#[trigger] cliques@[order@[q] as int])
                == bitmap_contents(given_cliques[order@[q] as int]) by {
                assert(order@[q] != order@[k as int]);
            }
        }
        ordered.push(slot);
        k = k + 1;
    }
    proof {
        assert forall|j: int| 0 <= j < cs.len() implies (#[trigger] cs[j]).finite() && forall|v: u32|
            cs[j].contains(v) ==> v < n by {
            assert(bitmap_contents(given_cliques[order@[j] as int]).finite());
        }
    }
    // take the cliques while some stroke is not yet covered
    let mut covered: Vec<bool> = Vec::new();
    let mut s: u32 = 0;
    while s < n
        invariant
            s <= n,
            covered@.len() == s,
            forall|q: int| 0 <= q < s ==> !covered@[q],
        decreases n - s,
    {
        covered.push(false);
        s = s + 1;
    }
    proof {
        assert(union_prefix(cs, 0) == Set::<u32>::empty());
    }
    let mut m: usize = 0;
    while m < ordered.len()
        invariant
            ordered@.len() == cs.len(),
            forall|j: int| 0 <= j < cs.len() ==> bitmap_contents(#[trigger] ordered@[j]) == cs[j],
            forall|j: int| 0 <= j < cs.len() ==> (#[trigger] cs[j]).finite() && forall|v: u32| cs[j].contains(v) ==> v < n,
            m <= cs.len(),
            covered@.len() == n,
            forall|q: u32| q < n ==> (covered@[q as int] <==> #[trigger] union_prefix(cs, m as int).contains(q)),
            forall|i: int| 0 <= i < m ==> !covers_all(n, #[trigger] union_prefix(cs, i)),
        ensures
            m <= cs.len(),
            m == cs.len() || covers_all(n, union_prefix(cs, m as int)),
            forall|i: int| 0 <= i < m ==> !covers_all(n, #[trigger] union_prefix(cs, i)),
        decreases cs.len() - m,
    {
        let mut any_uncovered = false;
        let mut q: u32 = 0;
        while q < n
            invariant
                q <= n,
                covered@.len() == n,
                any_uncovered == exists|r: u32| r < q && !covered@[r as int],
            decreases n - q,
        {
            if !covered[q as usize] {
                any_uncovered = true;
            }
            q = q + 1;
        }
        if !any_uncovered {
            proof {
                assert forall|r: u32| r < n implies #[trigger] union_prefix(cs, m as int).contains(r) by {
                    assert(covered@[r as int]);
                }
            }
            break;
        }
        proof {
            let r = choose|r: u32| r < q && !covered@[r as int];
            assert(!union_prefix(cs, m as int).contains(r));
        }
        let values = bitmap_values(&ordered[m]);
        let mut c: usize = 0;
        while c < values.len()
            invariant
                values@.to_set() == cs[m as int],
                forall|v: u32| cs[m as int].contains(v) ==> v < n,
                c <= values@.len(),
                covered@.len() == n,
                forall|r: u32| r < n ==> (covered@[r as int] <==> (union_prefix(cs, m as int).contains(r) || values@.subrange(0, c as int).contains(r))),
            decreases values@.len() - c,
        {
            let v = values[c];
            proof {
                assert(values@.to_set().contains(v));
                assert(values@.subrange(0, c + 1) =~= values@.subrange(0, c as int).push(v));
            }
            let ghost covered0 = covered@;
            covered.set(v as usize, true);
            proof {
                assert forall|r: u32| r < n implies (covered@[r as int] <==> (union_prefix(cs, m as int).contains(r)
                    || values@.subrange(0, c + 1).contains(r))) by {
                    if r == v {
                        assert(values@.subrange(0, c + 1)[c as int] == v);
                    } else {
                        assert(covered@[r as int] == covered0[r as int]);
                        let s1 = values@.subrange(0, c + 1);
                        let s0 = values@.subrange(0, c as int);
                        if s1.contains(r) {
                            let j = choose|j: int| 0 <= j < s1.len() && s1[j] == r;
                            assert(s0[j] == r);
                        }
                        if s0.contains(r) {
                            let j = choose|j: int| 0 <= j < s0.len() && s0[j] == r;
                            assert(s1[j] == r);
                        }
                    }
                }
            }
            c = c + 1;
        }
        proof {
            assert(values@.subrange(0, c as int) =~= values@);
            assert forall|r: u32| r < n implies (covered@[r as int] <==> #[trigger] union_prefix(cs, m + 1).contains(r)) by {
                assert(values@.contains(r) <==> values@.to_set().contains(r));
            }
        }
        m = m + 1;
    }
    let ghost taken = cs.take(m as int);
    proof {
        assert(taken_count(n, cs, m as int));
        assert forall|i: int| 0 <= i <= m implies cycle_offset(taken, i) == cycle_offset(cs, i) by {
            lemma_offset_prefix(cs, m as int, i);
        }
    }
    // the length of the cycle
    let mut total: usize = 0;
    let mut i: usize = 0;
    while i < m
        invariant
            i <= m <= cs.len(),
            ordered@.len() == cs.len(),
            forall|j: int| 0 <= j < cs.len() ==> bitmap_contents(#[trigger] ordered@[j]) == cs[j],
            forall|j: int| 0 <= j < cs.len() ==> (#[trigger] cs[j]).finite() && forall|v: u32| cs[j].contains(v) ==> v < n,
            cs.len() * (2 * n + MIN_CLIQUE_DURATION + SIGNAL_TIMING_BUFFER) <= usize::MAX,
            total == cycle_offset(cs, i as int),
            total <= i * (2 * n + MIN_CLIQUE_DURATION + SIGNAL_TIMING_BUFFER),
        decreases m - i,
    {
        let len = bitmap_len(&ordered[i]);
        proof {
            lemma_bounded_len(cs[i as int], n);
            assert(len <= n);
            let x = 2 * n + MIN_CLIQUE_DURATION + SIGNAL_TIMING_BUFFER;
            assert((i + 1) * x <= cs.len() * x) by (nonlinear_arith)
                requires
                    i + 1 <= cs.len(),
                    x >= 0,
            ;
            assert((i + 1) * x == i * x + x) by (nonlinear_arith);
            assert(x <= usize::MAX) by (nonlinear_arith)
                requires
                    (i + 1) * x <= usize::MAX,
                    x >= 0,
            ;
        }
        let twice = (len as usize) * 2;
        let duration = if twice >= MIN_CLIQUE_DURATION { twice } else { MIN_CLIQUE_DURATION };
        total = total + duration + SIGNAL_TIMING_BUFFER;
        proof {
            assert((i + 1) * (2 * n + MIN_CLIQUE_DURATION + SIGNAL_TIMING_BUFFER) == i * (2 * n + MIN_CLIQUE_DURATION
                + SIGNAL_TIMING_BUFFER) + (2 * n + MIN_CLIQUE_DURATION + SIGNAL_TIMING_BUFFER)) by (nonlinear_arith);
        }
        i = i + 1;
    }
    // all red to start with
    let mut timings: Vec<Vec<bool>> = Vec::new();
    let mut s: u32 = 0;
    while s < n
        invariant
            s <= n,
            timings@.len() == s,
            forall|r: int| 0 <= r < s ==> (#[trigger] timings@[r])@.len() == total,
            forall|r: int, t: int| 0 <= r < s && 0 <= t < total ==> !timings@[r]@[t],
        decreases n - s,
    {
        let mut row: Vec<bool> = Vec::new();
        let mut t: usize = 0;
        while t < total
            invariant
                t <= total,
                row@.len() == t,
                forall|q: int| 0 <= q < t ==> !row@[q],
            decreases total - t,
        {
            row.push(false);
            t = t + 1;
        }
        timings.push(row);
        s = s + 1;
    }
    proof {
        assert forall|r: int, t: int| 0 <= r < n && 0 <= t < total implies timings@[r]@[t] == green_upto(taken, 0, r as u32, t) by {}
    }
    // each clique's phase in turn
    let mut offset: usize = 0;
    let mut i: usize = 0;
    while i < m
        invariant
            i <= m <= cs.len(),
            taken == cs.take(m as int),
            ordered@.len() == cs.len(),
            forall|j: int| 0 <= j < cs.len() ==> bitmap_contents(#[trigger] ordered@[j]) == cs[j],
            forall|j: int| 0 <= j < cs.len() ==> (#[trigger] cs[j]).finite() && forall|v: u32| cs[j].contains(v) ==> v < n,
            forall|j: int| 0 <= j <= m ==> cycle_offset(taken, j) == cycle_offset(cs, j),
            total == cycle_offset(cs, m as int),
            offset == cycle_offset(cs, i as int),
            timings@.len() == n,
            forall|r: int| 0 <= r < n ==> (#[trigger] timings@[r])@.len() == total,
            forall|r: int, t: int|
                0 <= r < n && 0 <= t < total ==> timings@[r]@[t] == green_upto(taken, i as int, r as u32, t),
        decreases m - i,
    {
        let next: usize = if i + 1 < m { i + 1 } else { 0 };
        let len = bitmap_len(&ordered[i]);
        proof {
            if i + 1 < m {
                vstd::arithmetic::div_mod::lemma_small_mod((i + 1) as nat, m as nat);
            } else {
                vstd::arithmetic::div_mod::lemma_mod_self_0(m as int);
            }
            lemma_bounded_len(cs[i as int], n);
            lemma_offsets_grow(cs, i + 1, m as int);
        }
        let twice = (len as usize) * 2;
        let duration = if twice >= MIN_CLIQUE_DURATION { twice } else { MIN_CLIQUE_DURATION };
        let values = bitmap_values(&ordered[i]);
        let ghost base = timings@;
        let mut c: usize = 0;
        while c < values.len()
            invariant
                i < m <= cs.len(),
                next == (i + 1) % (m as int),
                taken == cs.take(m as int),
                ordered@.len() == cs.len(),
                forall|j: int| 0 <= j < cs.len() ==> bitmap_contents(#[trigger] ordered@[j]) == cs[j],
                values@.to_set() == cs[i as int],
                forall|a: int, b: int| 0 <= a < b < values@.len() ==> values@[a] < values@[b],
                forall|v: u32| cs[i as int].contains(v) ==> v < n,
                forall|j: int| 0 <= j <= m ==> cycle_offset(taken, j) == cycle_offset(cs, j),
                offset == cycle_offset(cs, i as int),
                duration == clique_duration(cs[i as int]),
                offset + duration + SIGNAL_TIMING_BUFFER <= total,
                c <= values@.len(),
                base.len() == n,
                forall|r: int| 0 <= r < n ==> (#[trigger] base[r])@.len() == total,
                forall|r: int, t: int| 0 <= r < n && 0 <= t < total ==> base[r]@[t] == green_upto(taken, i as int, r as u32, t),
                timings@.len() == n,
                forall|r: int| 0 <= r < n ==> (#[trigger] timings@[r])@.len() == total,
                forall|r: int, t: int|
                    0 <= r < n && 0 <= t < total ==> #[trigger] timings@[r]@[t] == (base[r]@[t] || (values@.subrange(0, c as int).contains(r as u32) && in_window(taken, i as int, r as u32, t))),
            decreases values@.len() - c,
        {
            let v = values[c];
            let in_next = bitmap_contains(&ordered[next], v);
            let end = if in_next { offset + duration + SIGNAL_TIMING_BUFFER } else { offset + duration };
            proof {
                assert(values@.to_set().contains(v));
                assert(values@.subrange(0, c + 1) =~= values@.subrange(0, c as int).push(v));
                assert(taken[i as int] == cs[i as int]);
                assert(taken[next as int] == cs[next as int]);
                assert(taken.len() == m);
                assert(!values@.subrange(0, c as int).contains(v)) by {
                    if values@.subrange(0, c as int).contains(v) {
                        let j = choose|j: int| 0 <= j < c && values@.subrange(0, c as int)[j] == v;
                        assert(values@[j] < values@[c as int]);
                    }
                }
            }
            let ghost pre = timings@;
            let mut row: Vec<bool> = Vec::new();
            core::mem::swap(&mut row, &mut timings[v as usize]);
            let ghost row0 = row@;
            proof {
                assert(row0 == pre[v as int]@);
            }
            let mut t: usize = offset;
            while t < end
                invariant
                    offset <= t <= end <= total,
                    row0.len() == total,
                    row@.len() == total,
                forall|q: int| 0 <= q < total ==> #[trigger] row@[q] == (row0[q] || (offset <= q && q < t)),
                decreases end - t,
            {
                let ghost r_before = row@;
                row.set(t, true);
                proof {
                    assert forall|q: int| 0 <= q < total implies #[trigger] row@[q] == (row0[q] || (offset <= q && q < t + 1)) by {
                        if q != t as int {
                            assert(row@[q] == r_before[q]);
                        }
                    }
                }
                t = t + 1;
            }
            let ghost filled = row@;
            core::mem::swap(&mut row, &mut timings[v as usize]);
            proof {
                assert(timings@[v as int]@ == filled);
                assert forall|r: int| 0 <= r < n && r != v as int implies timings@[r] == pre[r] by {}
                assert(cycle_offset(taken, i as int) == offset);
                assert(clique_duration(taken[i as int]) == duration);
                assert(taken[(i + 1) % (taken.len() as int)].contains(v) == in_next);
                assert forall|r: int, q: int| 0 <= r < n && 0 <= q < total implies #[trigger] timings@[r]@[q] == (base[r]@[q] || (values@.subrange(0, c + 1).contains(r as u32) && in_window(taken, i as int, r as u32, q))) by {
                    if r == v as int {
                        assert((r as u32) == v);
                        assert(timings@[r]@[q] == (row0[q] || (offset <= q && q < end)));
                        assert(row0[q] == pre[r]@[q]);
                        assert(in_window(taken, i as int, v, q) == (offset <= q && q < end));
                        assert(values@.subrange(0, c + 1)[c as int] == v);
                        assert(values@.subrange(0, c + 1).contains(v));
                    } else {
                        assert(timings@[r] == pre[r]);
                        let s1 = values@.subrange(0, c + 1);
                        let s0 = values@.subrange(0, c as int);
                        if s1.contains(r as u32) {
                            let j = choose|j: int| 0 <= j < s1.len() && s1[j] == r as u32;
                            assert(s0[j] == r as u32);
                        }
                        if s0.contains(r as u32) {
                            let j = choose|j: int| 0 <= j < s0.len() && s0[j] == r as u32;
                            assert(s1[j] == r as u32);
                        }
                    }
                }
            }
            c = c + 1;
        }
        proof {
            assert(values@.subrange(0, c as int) =~= values@);
            assert forall|r: int, t: int| 0 <= r < n && 0 <= t < total implies timings@[r]@[t] == green_upto(taken, i + 1, r as u32, t) by {
                assert(timings@[r]@[t] == (base[r]@[t] || (values@.subrange(0, c as int).contains(r as u32) && in_window(taken, i as int, r as u32, t))));
                assert(base[r]@[t] == green_upto(taken, i as int, r as u32, t));
                assert(green_upto(taken, i + 1, r as u32, t) == (green_upto(taken, i as int, r as u32, t) || in_window(taken, i as int, r as u32, t)));
                assert(taken[i as int] == cs[i as int]);
                if in_window(taken, i as int, r as u32, t) {
                    assert(values@.to_set().contains(r as u32));
                }
            }
        }
        offset = offset + duration + SIGNAL_TIMING_BUFFER;
        i = i + 1;
    }
    proof {
        assert(taken.len() == m);
        assert(cs == ordered_contents(given_cliques, order@));
        assert(timings_from(n, given_cliques, parallelity@, order@, m as int, timings@));
    }
    timings
}

/// The signal timings of `signal_timings`, where the cycle of all `cliques`
/// is sure to fit the tick count (`usize`); else `None`.
pub fn checked_signal_timings(n: u32, cliques: Vec<RoaringBitmap>, parallelity: &Vec<isize>) -> (timings: Option<
    Vec<Vec<bool>>,
>)
    requires
        parallelity@.len() == cliques@.len(),
        cliques_within(n, cliques@),
    ensures
        timings is Some <==> cliques@.len() * (2 * n + MIN_CLIQUE_DURATION + SIGNAL_TIMING_BUFFER) <= usize::MAX,
        timings is Some ==> exists|order: Seq<usize>, m: int| #[trigger] timings_from(
            n,
            cliques@,
            parallelity@,
            order,
            m,
            (timings->Some_0)@,
        ),
{
    let per_clique: u128 = 2 * (n as u128) + (MIN_CLIQUE_DURATION as u128) + (SIGNAL_TIMING_BUFFER as u128);
    let len: u128 = cliques.len() as u128;
    assert(len * per_clique <= 0x1_0000_0000_0000_0000 * 0x3_0000_0000) by (nonlinear_arith)
        requires
            len < 0x1_0000_0000_0000_0000,
            per_clique < 0x3_0000_0000,
    ;
    let total: u128 = len * per_clique;
    assert(per_clique == 2 * n + MIN_CLIQUE_DURATION + SIGNAL_TIMING_BUFFER);
    assert(total == cliques@.len() * (2 * n + MIN_CLIQUE_DURATION + SIGNAL_TIMING_BUFFER));
    if total <= (usize::MAX as u128) {
        let ghost given = cliques@;
        let t = signal_timings(n, cliques, parallelity);
        let res = Some(t);
        proof {
            let (order, m) = choose|order: Seq<usize>, m: int| #[trigger] timings_from(n, given, parallelity@, order, m, t@);
            assert((res->Some_0)@ == t@);
            assert(timings_from(n, cliques@, parallelity@, order, m, (res->Some_0)@));
        }
        res
    } else {
        None
    }
}

/// The offsets of the first cliques do not depend on the later ones.
proof fn lemma_offset_prefix(cs: Seq<Set<u32>>, m: int, i: int)
    requires
        0 <= i <= m <= cs.len(),
    ensures
        cycle_offset(cs.take(m), i) == cycle_offset(cs, i),
    decreases i,
{
    if i > 0 {
        lemma_offset_prefix(cs, m, i - 1);
    }
}

/// The phase during which a green stroke is green.
proof fn lemma_green_window(cs: Seq<Set<u32>>, i: int, s: u32, t: int) -> (w: int)
    requires
        green_upto(cs, i, s, t),
    ensures
        0 <= w < i,
        in_window(cs, w, s, t),
    decreases i,
{
    if i <= 0 {
        0
    } else if green_upto(cs, i - 1, s, t) {
        lemma_green_window(cs, i - 1, s, t)
    } else {
        i - 1
    }
}

/// At any tick of the cycle, all strokes that are green share one clique:
/// the phases of the cliques do not overlap.
pub proof fn lemma_green_strokes_share_a_clique(cs: Seq<Set<u32>>, m: int, s1: u32, s2: u32, t: int) -> (i: int)
    requires
        0 <= m <= cs.len(),
        green_upto(cs.take(m), m, s1, t),
        green_upto(cs.take(m), m, s2, t),
    ensures
        0 <= i < m,
        cs[i].contains(s1),
        cs[i].contains(s2),
{
    let taken = cs.take(m);
    let w1 = lemma_green_window(taken, m, s1, t);
    let w2 = lemma_green_window(taken, m, s2, t);
    if w1 < w2 {
        lemma_offsets_grow(taken, w1 + 1, w2);
        assert(false);
    } else if w2 < w1 {
        lemma_offsets_grow(taken, w2 + 1, w1);
        assert(false);
    }
    w1
}

/// Signals never show green to two incompatible strokes at once: for cliques
/// of compatible strokes (as `signal_cliques` gives them), any two strokes
/// that the timings (of `signal_timings`) make green at the same tick are
/// compatible.
pub proof fn lemma_green_strokes_compatible(
    n: u32,
    compatible: Seq<Vec<bool>>,
    cliques: Seq<RoaringBitmap>,
    parallelity: Seq<isize>,
    order: Seq<usize>,
    m: int,
    timings: Seq<Vec<bool>>,
    s1: u32,
    s2: u32,
    t: int,
)
    requires
        forall|k: int|
            0 <= k < cliques.len() ==> forall|a: u32, b: u32|
                bitmap_contents(#[trigger] cliques[k]).contains(a) && bitmap_contents(cliques[k]).contains(b) && a < b
                    ==> compatible[a as int]@[b as int],
        parallelity.len() == cliques.len(),
        timings_from(n, cliques, parallelity, order, m, timings),
        s1 < s2 < n,
        0 <= t < timings[s1 as int]@.len(),
        0 <= t < timings[s2 as int]@.len(),
        timings[s1 as int]@[t],
        timings[s2 as int]@[t],
    ensures
        compatible[s1 as int]@[s2 as int],
{
    let cs = ordered_contents(cliques, order);
    assert(timings[s1 as int]@[t] == green_upto(cs.take(m), m, s1, t));
    assert(timings[s2 as int]@[t] == green_upto(cs.take(m), m, s2, t));
    let i = lemma_green_strokes_share_a_clique(cs, m, s1, s2, t);
    assert(order[i] < cliques.len());
    assert(cs[i] == bitmap_contents(cliques[order[i] as int]));
    assert(bitmap_contents(cliques[order[i] as int]).contains(s1));
}

/// A stroke in the first `i` cliques is in one of them.
proof fn lemma_in_union_prefix(cs: Seq<Set<u32>>, i: int, s: u32) -> (k: int)
    requires
        union_prefix(cs, i).contains(s),
    ensures
        0 <= k < i,
        cs[k].contains(s),
    decreases i,
{
    if i <= 0 {
        0
    } else if union_prefix(cs, i - 1).contains(s) {
        lemma_in_union_prefix(cs, i - 1, s)
    } else {
        i - 1
    }
}

/// Being green in one phase is being green in the cycle of the first `i` phases.
proof fn lemma_window_green(cs: Seq<Set<u32>>, w: int, i: int, s: u32, t: int)
    requires
        0 <= w < i,
        in_window(cs, w, s, t),
    ensures
        green_upto(cs, i, s, t),
    decreases i,
{
    if w < i - 1 {
        lemma_window_green(cs, w, i - 1, s, t);
    }
}

/// When the cliques cover all strokes, every stroke is green at some tick of
/// the cycle: at the start of the phase of the first taken clique it is in.
pub proof fn lemma_every_stroke_gets_green(n: u32, cs: Seq<Set<u32>>, m: int, s: u32) -> (t: int)
    requires
        taken_count(n, cs, m),
        covers_all(n, union_prefix(cs, cs.len() as int)),
        s < n,
    ensures
        green_upto(cs.take(m), m, s, t),
{
    assert(union_prefix(cs, m).contains(s));
    let k = lemma_in_union_prefix(cs, m, s);
    let taken = cs.take(m);
    lemma_offset_prefix(cs, m, k);
    assert(taken[k] == cs[k]);
    let t = cycle_offset(taken, k);
    assert(in_window(taken, k, s, t));
    lemma_window_green(taken, k, m, s, t);
    t
}

/// A stroke of one of the first `i` cliques is in their union.
proof fn lemma_union_prefix_has(cs: Seq<Set<u32>>, k: int, i: int, s: u32)
    requires
        0 <= k < i <= cs.len(),
        cs[k].contains(s),
    ensures
        union_prefix(cs, i).contains(s),
    decreases i,
{
    if k < i - 1 {
        lemma_union_prefix_has(cs, k, i - 1, s);
    }
}

/// Every stroke gets a green phase: when each of the `n` strokes lies in one
/// of the cliques (as `signal_cliques` ensures), the timings (of
/// `signal_timings`) make each stroke green at some tick of the cycle.
pub proof fn lemma_every_stroke_has_a_green_tick(
    n: u32,
    cliques: Seq<RoaringBitmap>,
    parallelity: Seq<isize>,
    order: Seq<usize>,
    m: int,
    timings: Seq<Vec<bool>>,
    s: u32,
) -> (t: int)
    requires
        forall|v: u32| v < n ==> #[trigger] in_some_clique(cliques, v),
        cliques.len() <= usize::MAX,
        parallelity.len() == cliques.len(),
        timings_from(n, cliques, parallelity, order, m, timings),
        s < n,
    ensures
        0 <= t < timings[s as int]@.len(),
        timings[s as int]@[t],
{
    let cs = ordered_contents(cliques, order);
    assert forall|v: u32| v < n implies #[trigger] union_prefix(cs, cs.len() as int).contains(v) by {
        assert(in_some_clique(cliques, v));
        let k = choose|k: int| 0 <= k < cliques.len() && #[trigger] bitmap_contents(cliques[k]).contains(v);
        assert(order.contains(k as usize));
        let i = choose|i: int| 0 <= i < order.len() && order[i] == k as usize;
        assert(order[i] as int == k);
        assert(cs[i] == bitmap_contents(cliques[k]));
        lemma_union_prefix_has(cs, i, cs.len() as int, v);
    }
    let t = lemma_every_stroke_gets_green(n, cs, m, s);
    let taken = cs.take(m);
    let w = lemma_green_window(taken, m, s, t);
    lemma_offsets_grow(taken, 0, w);
    lemma_offsets_grow(taken, w + 1, m);
    assert(timings[s as int]@[t] == green_upto(taken, m, s, t));
    t
}

/// Every stroke of the incoming group continues in the outgoing group.
pub open spec fn corresponding(incoming_group: Seq<LaneStrokeRef>, outgoing_group: Seq<LaneStrokeRef>) -> bool {
    forall|i: int| 0 <= i < incoming_group.len() ==> #[trigger] outgoing_group.contains(incoming_group[i])
}

/// Whether every stroke of the incoming group continues in the outgoing
/// group: the groups belong to one road through the intersection.
pub fn groups_correspond(incoming_group: &Vec<LaneStrokeRef>, outgoing_group: &Vec<LaneStrokeRef>) -> (b: bool)
    ensures
        b == corresponding(incoming_group@, outgoing_group@),
{
    let mut i: usize = 0;
    while i < incoming_group.len()
        invariant
            i <= incoming_group@.len(),
            forall|k: int| 0 <= k < i ==> #[trigger] outgoing_group@.contains(incoming_group@[k]),
        decreases incoming_group@.len() - i,
    {
        let stroke = incoming_group[i];
        let mut found = false;
        let mut j: usize = 0;
        while j < outgoing_group.len()
            invariant
                j <= outgoing_group@.len(),
                stroke == incoming_group@[i as int],
                found == exists|q: int| 0 <= q < j && outgoing_group@[q] == stroke,
            decreases outgoing_group@.len() - j,
        {
            if outgoing_group[j] == stroke {
                found = true;
            }
            j = j + 1;
        }
        if !found {
            proof {
                if outgoing_group@.contains(stroke) {
                    let q = choose|q: int| 0 <= q < outgoing_group@.len() && outgoing_group@[q] == stroke;
                    assert(outgoing_group@[q] == stroke);
                }
            }
            return false;
        }
        i = i + 1;
    }
    true
}

/// Whether the incoming group continues after the intersection: some
/// outgoing group corresponds to it.
pub fn continues_after(incoming_group: &Vec<LaneStrokeRef>, outgoing_groups: &Vec<Vec<LaneStrokeRef>>) -> (b: bool)
    ensures
        b == exists|g: int| 0 <= g < outgoing_groups@.len() && corresponding(incoming_group@, #[trigger] outgoing_groups@[g]@),
{
    let mut g: usize = 0;
    while g < outgoing_groups.len()
        invariant
            g <= outgoing_groups@.len(),
            forall|h: int| 0 <= h < g ==> !corresponding(incoming_group@, #[trigger] outgoing_groups@[h]@),
        decreases outgoing_groups@.len() - g,
    {
        if groups_correspond(incoming_group, &outgoing_groups[g]) {
            return true;
        }
        g = g + 1;
    }
    false
}

/// The node pairs that connect an incoming group of `n_incoming` lanes with
/// an outgoing group of `n_outgoing`, by their positions in the groups (from
/// left to right): lined up from the right where the outgoing group lies to
/// the right, a single u-turn from the leftmost lanes where it turns back,
/// and lined up from the left otherwise.
pub fn connect_as_much_as_possible(n_incoming: usize, n_outgoing: usize, is_right_of: bool, is_uturn: bool) -> (pairs: Vec<(usize, usize)>)
    requires
        n_incoming >= 1,
        n_outgoing >= 1,
    ensures
        pairs@ == connection_pairs(n_incoming as int, n_outgoing as int, is_right_of, is_uturn),
        !is_right_of && !is_uturn ==> pairs@.len() == (if n_incoming < n_outgoing { n_incoming } else { n_outgoing })
            && forall|k: int| 0 <= k < pairs@.len() ==> (#[trigger] pairs@[k]) == (k as usize, k as usize),
{
    let n: usize = if n_incoming < n_outgoing { n_incoming } else { n_outgoing };
    let mut pairs: Vec<(usize, usize)> = Vec::new();
    if !is_right_of && is_uturn {
        pairs.push((0, 0));
        proof {
            assert(pairs@ =~= connection_pairs(n_incoming as int, n_outgoing as int, is_right_of, is_uturn));
        }
        return pairs;
    }
    let mut k: usize = 0;
    while k < n
        invariant
            k <= n,
            n == if n_incoming < n_outgoing { n_incoming } else { n_outgoing },
            pairs@.len() == k,
            forall|j: int|
                0 <= j < k ==> #[trigger] pairs@[j] == if is_right_of {
                    ((n_incoming - 1 - j) as usize, (n_outgoing - 1 - j) as usize)
                } else {
                    (j as usize, j as usize)
                },
        decreases n - k,
    {
        if is_right_of {
            pairs.push((n_incoming - 1 - k, n_outgoing - 1 - k));
        } else {
            pairs.push((k, k));
        }
        k = k + 1;
    }
    proof {
        assert(pairs@ =~= connection_pairs(n_incoming as int, n_outgoing as int, is_right_of, is_uturn));
    }
    pairs
}

/// The node pairs `connect_as_much_as_possible` gives.
pub open spec fn connection_pairs(n_incoming: int, n_outgoing: int, is_right_of: bool, is_uturn: bool) -> Seq<(usize, usize)> {
    let n = if n_incoming < n_outgoing { n_incoming } else { n_outgoing };
    if is_right_of {
        Seq::new(n as nat, |j: int| ((n_incoming - 1 - j) as usize, (n_outgoing - 1 - j) as usize))
    } else if is_uturn {
        seq![(0usize, 0usize)]
    } else {
        Seq::new(n as nat, |j: int| (j as usize, j as usize))
    }
}

/// How lanes are lined up across an intersection, for all group sizes: going
/// straight on, the groups are zipped from their leftmost lanes (the `k`-th
/// lane of each, for as many as the smaller group has); towards a group on
/// the right they are zipped from their rightmost lanes, each pair one lane
/// further left than the one before; a u-turn joins just the leftmost lanes.
/// No lane is used twice.
pub proof fn lemma_connections_line_up(n_incoming: int, n_outgoing: int, is_right_of: bool, is_uturn: bool)
    requires
        1 <= n_incoming <= usize::MAX,
        1 <= n_outgoing <= usize::MAX,
    ensures
        ({
            let pairs = connection_pairs(n_incoming, n_outgoing, is_right_of, is_uturn);
            let n = if n_incoming < n_outgoing { n_incoming } else { n_outgoing };
            &&& !is_right_of && !is_uturn ==> pairs.len() == n && forall|k: int|
                0 <= k < n ==> #[trigger] pairs[k].0 == k && pairs[k].1 == k
            &&& is_right_of ==> pairs.len() == n && pairs[0] == ((n_incoming - 1) as usize, (n_outgoing - 1) as usize)
                && forall|k: int|
                0 < k < n ==> #[trigger] pairs[k].0 + 1 == pairs[k - 1].0 && pairs[k].1 + 1 == pairs[k - 1].1
            &&& !is_right_of && is_uturn ==> pairs == seq![(0usize, 0usize)]
            &&& forall|a: int, b: int|
                0 <= a < b < pairs.len() ==> #[trigger] pairs[a].0 != #[trigger] pairs[b].0 && pairs[a].1 != pairs[b].1
            &&& forall|k: int|
                0 <= k < pairs.len() ==> #[trigger] pairs[k].0 < n_incoming && pairs[k].1 < n_outgoing
        }),
{
}

/// `n` divided by `d`, rounded up.
pub open spec fn ceil_div(n: int, d: int) -> int {
    (n + d - 1) / d
}

/// Which of the connections made between an incoming group of `n_incoming`
/// lanes and an outgoing group are kept, as a number to skip and a number to
/// take: where the road goes on after the intersection, the middle lanes go
/// straight on (all but the outer thirds, rounded up, less one) and the
/// outer third turns into each other road; where it ends, each half turns.
pub fn connection_window(n_incoming: usize, continues: bool, corresponds: bool) -> (window: (usize, usize))
    requires
        n_incoming >= 1,
    ensures
        window == (if continues && corresponds {
            (
                (ceil_div(n_incoming as int, 3) - 1) as usize,
                (n_incoming - 2 * (ceil_div(n_incoming as int, 3) - 1)) as usize,
            )
        } else if continues {
            (0usize, ceil_div(n_incoming as int, 3) as usize)
        } else {
            (0usize, ceil_div(n_incoming as int, 2) as usize)
        }),
        window.0 + window.1 <= n_incoming,
{
    if continues {
        let third: usize = n_incoming / 3 + if n_incoming % 3 == 0 { 0 } else { 1 };
        proof {
            assert(third == ceil_div(n_incoming as int, 3));
        }
        if corresponds {
            (third - 1, n_incoming - 2 * (third - 1))
        } else {
            (0, third)
        }
    } else {
        let half: usize = n_incoming / 2 + if n_incoming % 2 == 0 { 0 } else { 1 };
        proof {
            assert(half == ceil_div(n_incoming as int, 2));
        }
        (0, half)
    }
}

} // verus!
