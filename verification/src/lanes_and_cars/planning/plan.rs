//! Plans, plan deltas and the referenced differences between plan results.
use vstd::prelude::*;
use crate::kay::compact_dict::{CDict, DictKey, keys_of, map_of, assoc_insert};

verus! {

/// Refers to a stroke of a plan by its position.
#[derive(Clone, Copy, PartialEq, Eq, Debug, Hash, Structural)]
pub struct LaneStrokeRef(pub usize);

/// Refers to an intersection of a plan result.
#[derive(Clone, Copy, PartialEq, Eq, Debug, Structural)]
pub struct IntersectionRef(pub usize);

/// Refers to a trimmed stroke of a plan result.
#[derive(Clone, Copy, PartialEq, Eq, Debug, Structural)]
pub struct TrimmedStrokeRef(pub usize);

/// Refers to a transfer stroke of a plan result.
#[derive(Clone, Copy, PartialEq, Eq, Debug, Structural)]
pub struct TransferStrokeRef(pub usize);

impl DictKey for LaneStrokeRef {
    fn key_eq(&self, other: &Self) -> (b: bool) {
        self.0 == other.0
    }
}

impl DictKey for IntersectionRef {
    fn key_eq(&self, other: &Self) -> (b: bool) {
        self.0 == other.0
    }
}

impl DictKey for TrimmedStrokeRef {
    fn key_eq(&self, other: &Self) -> (b: bool) {
        self.0 == other.0
    }
}

impl DictKey for TransferStrokeRef {
    fn key_eq(&self, other: &Self) -> (b: bool) {
        self.0 == other.0
    }
}

/// The old-to-new reference pairs of equivalent items, row by row over the
/// new items and, within a row, over the old items: all rows before `ni` and
/// the first `oi` columns of row `ni`.
pub open spec fn matched_pairs<Ref, T>(
    new: Seq<(Ref, T)>,
    old: Seq<(Ref, T)>,
    equivalent: Seq<Seq<bool>>,
    ni: nat,
    oi: nat,
) -> Seq<(Ref, Ref)>
    decreases ni, oi,
{
    if oi > 0 {
        let prev = matched_pairs(new, old, equivalent, ni, (oi - 1) as nat);
        if equivalent[ni as int][oi - 1] {
            prev.push((old[oi - 1].0, new[ni as int].0))
        } else {
            prev
        }
    } else if ni > 0 {
        matched_pairs(new, old, equivalent, (ni - 1) as nat, old.len())
    } else {
        Seq::empty()
    }
}

/// The dictionary entries that result from inserting `pairs` in order into
/// an empty dictionary.
pub open spec fn insert_all<K, V>(pairs: Seq<(K, V)>) -> Seq<(K, V)>
    decreases pairs.len(),
{
    if pairs.len() == 0 {
        Seq::empty()
    } else {
        assoc_insert(insert_all(pairs.drop_last()), pairs.last().0, pairs.last().1)
    }
}

/// Whether `r` is among the values of the entries.
pub open spec fn has_value<K, R>(entries: Seq<(K, R)>, r: R) -> bool {
    exists|j: int| 0 <= j < entries.len() && entries[j].1 == r
}

/// Whether `r` is among the keys of the entries.
pub open spec fn has_key<R, V>(entries: Seq<(R, V)>, r: R) -> bool {
    exists|j: int| 0 <= j < entries.len() && entries[j].0 == r
}

/// `copy` holds the keys of `orig` in order, each value a clone.
pub open spec fn cloned_entries<K, T: Clone>(orig: Seq<(K, T)>, copy: Seq<(K, T)>) -> bool {
    &&& copy.len() == orig.len()
    &&& forall|k: int| 0 <= k < orig.len() ==> copy[k].0 == orig[k].0 && cloned(orig[k].1, copy[k].1)
}

/// How a set of referenced items changed: what to create, what to destroy,
/// and which old references live on under which new reference.
pub struct ReferencedDelta<Ref, T> {
    pub to_create: CDict<Ref, T>,
    pub to_destroy: CDict<Ref, T>,
    pub old_to_new: CDict<Ref, Ref>,
}

impl<Ref: DictKey, T: Clone> ReferencedDelta<Ref, T> {
    /// An empty delta.
    pub fn new() -> (d: Self)
        ensures
            d.to_create.wf() && d.to_destroy.wf() && d.old_to_new.wf(),
            d.to_create.entries().len() == 0,
            d.to_destroy.entries().len() == 0,
            d.old_to_new.entries().len() == 0,
    {
        ReferencedDelta { to_create: CDict::new(), to_destroy: CDict::new(), old_to_new: CDict::new() }
    }

    /// Compares the new items with the old ones. `equivalent[n][o]` says
    /// whether the `n`th new item is equivalent to the `o`th old one. Every old
    /// item equivalent to some new one lives on under the last such new
    /// reference; new items no old one lives on as are created, old items
    /// that live on as none are destroyed.
    pub fn compare(new: &CDict<Ref, T>, old: &CDict<Ref, T>, equivalent: &Vec<Vec<bool>>) -> (d: Self)
        requires
            new.wf(),
            old.wf(),
            equivalent@.len() == new.entries().len(),
            forall|n: int| 0 <= n < equivalent@.len() ==> (#[trigger] equivalent@[n])@.len() == old.entries().len(),
        ensures
            d.to_create.wf() && d.to_destroy.wf() && d.old_to_new.wf(),
            d.old_to_new.entries() == insert_all(
                matched_pairs(
                    new.entries(),
                    old.entries(),
                    equivalent@.map_values(|row: Vec<bool>| row@),
                    new.entries().len(),
                    0,
                ),
            ),
            cloned_entries(
                new.entries().filter(|e: (Ref, T)| !has_value(d.old_to_new.entries(), e.0)),
                d.to_create.entries(),
            ),
            cloned_entries(
                old.entries().filter(|e: (Ref, T)| !has_key(d.old_to_new.entries(), e.0)),
                d.to_destroy.entries(),
            ),
    {
        let ghost eq = equivalent@.map_values(|row: Vec<bool>| row@);
        let mut old_to_new: CDict<Ref, Ref> = CDict::new();
        let mut ni: usize = 0;
        proof {
            assert(insert_all(matched_pairs(new.entries(), old.entries(), eq, 0, 0)) =~= old_to_new.entries());
        }
        while ni < new.len()
            invariant
                new.wf(),
                old.wf(),
                eq == equivalent@.map_values(|row: Vec<bool>| row@),
                equivalent@.len() == new.entries().len(),
                forall|n: int| 0 <= n < equivalent@.len() ==> (#[trigger] equivalent@[n])@.len() == old.entries().len(),
                ni <= new.entries().len(),
                old_to_new.wf(),
                old_to_new.entries() == insert_all(matched_pairs(new.entries(), old.entries(), eq, ni as nat, 0)),
            decreases new.entries().len() - ni,
        {
            let mut oi: usize = 0;
            let new_ref = new.pair_at(ni).0;
            proof {
                if ni > 0 {
                    assert(matched_pairs(new.entries(), old.entries(), eq, ni as nat, 0) == matched_pairs(
                        new.entries(),
                        old.entries(),
                        eq,
                        (ni - 1) as nat,
                        old.entries().len(),
                    ));
                }
            }
            while oi < old.len()
                invariant
                    new.wf(),
                    old.wf(),
                    eq == equivalent@.map_values(|row: Vec<bool>| row@),
                    equivalent@.len() == new.entries().len(),
                    forall|n: int| 0 <= n < equivalent@.len() ==> (#[trigger] equivalent@[n])@.len() == old.entries().len(),
                    ni < new.entries().len(),
                    new_ref == new.entries()[ni as int].0,
                    oi <= old.entries().len(),
                    old_to_new.wf(),
                    old_to_new.entries() == insert_all(
                        matched_pairs(new.entries(), old.entries(), eq, ni as nat, oi as nat),
                    ),
                decreases old.entries().len() - oi,
            {
                proof {
                    assert(eq[ni as int] == equivalent@[ni as int]@);
                    let prev = matched_pairs(new.entries(), old.entries(), eq, ni as nat, oi as nat);
                    let p = (old.entries()[oi as int].0, new.entries()[ni as int].0);
                    assert(prev.push(p).drop_last() =~= prev);
                }
                if equivalent[ni][oi] {
                    let old_ref = old.pair_at(oi).0;
                    old_to_new.insert(old_ref, new_ref);
                }
                oi = oi + 1;
            }
            proof {
                assert(matched_pairs(new.entries(), old.entries(), eq, (ni + 1) as nat, 0) == matched_pairs(
                    new.entries(),
                    old.entries(),
                    eq,
                    ni as nat,
                    old.entries().len(),
                ));
            }
            ni = ni + 1;
        }
        let mut to_create: CDict<Ref, T> = CDict::new();
        let mut k: usize = 0;
        let ghost create_pred = |e: (Ref, T)| !has_value(old_to_new.entries(), e.0);
        while k < new.len()
            invariant
                new.wf(),
                old_to_new.wf(),
                k <= new.entries().len(),
                to_create.wf(),
                create_pred == (|e: (Ref, T)| !has_value(old_to_new.entries(), e.0)),
                cloned_entries(new.entries().subrange(0, k as int).filter(create_pred), to_create.entries()),
                forall|j: int| 0 <= j < to_create.entries().len() ==> has_key(new.entries().subrange(0, k as int), #[trigger] to_create.entries()[j].0),
            decreases new.entries().len() - k,
        {
            let pair = new.pair_at(k);
            let mut taken = false;
            let mut j: usize = 0;
            while j < old_to_new.len()
                invariant
                    j <= old_to_new.entries().len(),
                    taken == (exists|jj: int| 0 <= jj < j && old_to_new.entries()[jj].1 == pair.0),
                decreases old_to_new.entries().len() - j,
            {
                if old_to_new.pair_at(j).1.key_eq(&pair.0) {
                    taken = true;
                }
                j = j + 1;
            }
            let ghost before = to_create.entries();
            proof {
                assert(new.entries().subrange(0, k + 1) =~= new.entries().subrange(0, k as int).push(*pair));
                new.entries().subrange(0, k as int).lemma_filter_push(*pair, create_pred);
                assert(taken == has_value(old_to_new.entries(), pair.0));
            }
            if !taken {
                let value = pair.1.clone();
                proof {
                    assert(!to_create.as_map().contains_key(pair.0)) by {
                        if to_create.as_map().contains_key(pair.0) {
                            let jj = choose|jj: int| 0 <= jj < to_create.entries().len() && to_create.entries()[jj].0 == pair.0;
                            assert(has_key(new.entries().subrange(0, k as int), to_create.entries()[jj].0));
                            let m = choose|m: int| 0 <= m < k && new.entries().subrange(0, k as int)[m].0 == pair.0;
                            assert(keys_of(new.entries())[m] == keys_of(new.entries())[k as int]);
                        }
                    }
                }
                to_create.insert(pair.0, value);
                proof {
                    assert forall|jj: int| 0 <= jj < to_create.entries().len() implies has_key(
                        new.entries().subrange(0, k + 1),
                        #[trigger] to_create.entries()[jj].0,
                    ) by {
                        if jj < before.len() {
                            let m = choose|m: int| 0 <= m < k && new.entries().subrange(0, k as int)[m].0 == before[jj].0;
                            assert(new.entries().subrange(0, k + 1)[m].0 == before[jj].0);
                        } else {
                            assert(new.entries().subrange(0, k + 1)[k as int].0 == pair.0);
                        }
                    }
                }
            } else {
                proof {
                    assert forall|jj: int| 0 <= jj < to_create.entries().len() implies has_key(
                        new.entries().subrange(0, k + 1),
                        #[trigger] to_create.entries()[jj].0,
                    ) by {
                        let m = choose|m: int| 0 <= m < k && new.entries().subrange(0, k as int)[m].0 == before[jj].0;
                        assert(new.entries().subrange(0, k + 1)[m].0 == before[jj].0);
                    }
                }
            }
            k = k + 1;
        }
        proof {
            assert(new.entries().subrange(0, new.entries().len() as int) =~= new.entries());
        }
        let mut to_destroy: CDict<Ref, T> = CDict::new();
        let mut k: usize = 0;
        let ghost destroy_pred = |e: (Ref, T)| !has_key(old_to_new.entries(), e.0);
        while k < old.len()
            invariant
                old.wf(),
                old_to_new.wf(),
                k <= old.entries().len(),
                to_destroy.wf(),
                destroy_pred == (|e: (Ref, T)| !has_key(old_to_new.entries(), e.0)),
                cloned_entries(old.entries().subrange(0, k as int).filter(destroy_pred), to_destroy.entries()),
                forall|j: int| 0 <= j < to_destroy.entries().len() ==> has_key(old.entries().subrange(0, k as int), #[trigger] to_destroy.entries()[j].0),
            decreases old.entries().len() - k,
        {
            let pair = old.pair_at(k);
            let revived = old_to_new.contains_key(pair.0);
            let ghost before = to_destroy.entries();
            proof {
                assert(old.entries().subrange(0, k + 1) =~= old.entries().subrange(0, k as int).push(*pair));
                old.entries().subrange(0, k as int).lemma_filter_push(*pair, destroy_pred);
                assert(revived == has_key(old_to_new.entries(), pair.0)) by {
                    if has_key(old_to_new.entries(), pair.0) {
                        let jj = choose|jj: int| 0 <= jj < old_to_new.entries().len() && old_to_new.entries()[jj].0 == pair.0;
                        old_to_new.lemma_entry(jj);
                    }
                }
            }
            if !revived {
                let value = pair.1.clone();
                proof {
                    assert(!to_destroy.as_map().contains_key(pair.0)) by {
                        if to_destroy.as_map().contains_key(pair.0) {
                            let jj = choose|jj: int| 0 <= jj < to_destroy.entries().len() && to_destroy.entries()[jj].0 == pair.0;
                            assert(has_key(old.entries().subrange(0, k as int), to_destroy.entries()[jj].0));
                            let m = choose|m: int| 0 <= m < k && old.entries().subrange(0, k as int)[m].0 == pair.0;
                            assert(keys_of(old.entries())[m] == keys_of(old.entries())[k as int]);
                        }
                    }
                }
                to_destroy.insert(pair.0, value);
                proof {
                    assert forall|jj: int| 0 <= jj < to_destroy.entries().len() implies has_key(
                        old.entries().subrange(0, k + 1),
                        #[trigger] to_destroy.entries()[jj].0,
                    ) by {
                        if jj < before.len() {
                            let m = choose|m: int| 0 <= m < k && old.entries().subrange(0, k as int)[m].0 == before[jj].0;
                            assert(old.entries().subrange(0, k + 1)[m].0 == before[jj].0);
                        } else {
                            assert(old.entries().subrange(0, k + 1)[k as int].0 == pair.0);
                        }
                    }
                }
            } else {
                proof {
                    assert forall|jj: int| 0 <= jj < to_destroy.entries().len() implies has_key(
                        old.entries().subrange(0, k + 1),
                        #[trigger] to_destroy.entries()[jj].0,
                    ) by {
                        let m = choose|m: int| 0 <= m < k && old.entries().subrange(0, k as int)[m].0 == before[jj].0;
                        assert(old.entries().subrange(0, k + 1)[m].0 == before[jj].0);
                    }
                }
            }
            k = k + 1;
        }
        proof {
            assert(old.entries().subrange(0, old.entries().len() as int) =~= old.entries());
        }
        ReferencedDelta { to_create, to_destroy, old_to_new }
    }
}


/// A plan: the lane strokes it consists of.
#[derive(Clone, Debug)]
pub struct Plan<S> {
    pub strokes: Vec<S>,
}

/// A change to a plan: strokes to add and (referenced) strokes to remove.
#[derive(Clone, Debug)]
pub struct PlanDelta<S> {
    pub new_strokes: Vec<S>,
    pub strokes_to_destroy: CDict<LaneStrokeRef, S>,
}

/// The strokes of a plan that are built, by their reference in that plan.
#[derive(Clone, Debug)]
pub struct BuiltStrokes<S> {
    pub mapping: CDict<LaneStrokeRef, S>,
}

impl<S> Plan<S> {
    /// A plan without strokes.
    pub fn new() -> (p: Self)
        ensures
            p.strokes@.len() == 0,
    {
        Plan { strokes: Vec::new() }
    }
}

impl<S> PlanDelta<S> {
    /// A delta that changes nothing.
    pub fn new() -> (d: Self)
        ensures
            d.new_strokes@.len() == 0,
            d.strokes_to_destroy.wf(),
            d.strokes_to_destroy.entries().len() == 0,
    {
        PlanDelta { new_strokes: Vec::new(), strokes_to_destroy: CDict::new() }
    }
}

impl<S> BuiltStrokes<S> {
    /// No built strokes.
    pub fn new() -> (b: Self)
        ensures
            b.mapping.wf(),
            b.mapping.entries().len() == 0,
    {
        BuiltStrokes { mapping: CDict::new() }
    }
}

/// The positions below `n` of strokes that a delta does not destroy, in order.
pub open spec fn kept_indices<S>(destroyed: Map<LaneStrokeRef, S>, n: nat) -> Seq<usize>
    decreases n,
{
    if n == 0 {
        Seq::empty()
    } else {
        let prev = kept_indices(destroyed, (n - 1) as nat);
        if destroyed.contains_key(LaneStrokeRef((n - 1) as usize)) {
            prev
        } else {
            prev.push((n - 1) as usize)
        }
    }
}

/// A delta that destroys nothing keeps every stroke, in order: applied by
/// `with_delta`, the built strokes are the plan's strokes under their own
/// positions.
pub proof fn lemma_nothing_destroyed_keeps_all<S>(n: nat)
    requires
        n <= usize::MAX,
    ensures
        kept_indices(Map::<LaneStrokeRef, S>::empty(), n) == Seq::new(n, |k: int| k as usize),
    decreases n,
{
    if n > 0 {
        lemma_nothing_destroyed_keeps_all::<S>((n - 1) as nat);
        assert(kept_indices(Map::<LaneStrokeRef, S>::empty(), n) =~= Seq::new(n, |k: int| k as usize));
    }
}

proof fn lemma_kept_indices_bound<S>(destroyed: Map<LaneStrokeRef, S>, n: nat)
    requires
        n <= usize::MAX,
    ensures
        forall|k: int| 0 <= k < kept_indices(destroyed, n).len() ==> kept_indices(destroyed, n)[k] < n,
        forall|a: int, b: int|
            0 <= a < b < kept_indices(destroyed, n).len() ==> kept_indices(destroyed, n)[a] < kept_indices(
                destroyed,
                n,
            )[b],
    decreases n,
{
    if n > 0 {
        lemma_kept_indices_bound(destroyed, (n - 1) as nat);
        let prev = kept_indices(destroyed, (n - 1) as nat);
        assert(((n - 1) as usize) as nat == n - 1);
        if !destroyed.contains_key(LaneStrokeRef((n - 1) as usize)) {
            assert(kept_indices(destroyed, n) == prev.push((n - 1) as usize));
        }
    }
}

impl<S: Clone> Plan<S> {
    /// This plan changed by `delta`: the strokes it does not destroy, in
    /// order, followed by its new strokes. Also returns the kept strokes by
    /// their reference in this plan.
    pub fn with_delta(&self, delta: &PlanDelta<S>) -> (res: (Plan<S>, BuiltStrokes<S>))
        requires
            delta.strokes_to_destroy.wf(),
            self.strokes@.len() < usize::MAX,
        ensures
            res.1.mapping.wf(),
            ({
                let kept = kept_indices(delta.strokes_to_destroy.as_map(), self.strokes@.len());
                &&& res.1.mapping.entries().len() == kept.len()
                &&& forall|k: int|
                    0 <= k < kept.len() ==> res.1.mapping.entries()[k].0 == LaneStrokeRef(kept[k]) && cloned(
                        self.strokes@[kept[k] as int],
                        res.1.mapping.entries()[k].1,
                    )
                &&& res.0.strokes@.len() == kept.len() + delta.new_strokes@.len()
                &&& forall|k: int|
                    0 <= k < kept.len() ==> cloned(res.1.mapping.entries()[k].1, #[trigger] res.0.strokes@[k])
                &&& forall|k: int|
                    0 <= k < delta.new_strokes@.len() ==> cloned(
                        delta.new_strokes@[k],
                        #[trigger] res.0.strokes@[kept.len() + k],
                    )
            }),
            delta.new_strokes@.len() == 0 && delta.strokes_to_destroy.entries().len() == 0 ==> {
                &&& res.0.strokes@.len() == self.strokes@.len()
                &&& res.1.mapping.entries().len() == self.strokes@.len()
                &&& forall|k: int|
                    0 <= k < self.strokes@.len() ==> (#[trigger] res.1.mapping.entries()[k]).0 == LaneStrokeRef(
                        k as usize,
                    ) && cloned(self.strokes@[k], res.1.mapping.entries()[k].1) && cloned(
                        res.1.mapping.entries()[k].1,
                        res.0.strokes@[k],
                    )
            },
    {
        let ghost destroyed = delta.strokes_to_destroy.as_map();
        let mut built: CDict<LaneStrokeRef, S> = CDict::new();
        let mut i: usize = 0;
        while i < self.strokes.len()
            invariant
                delta.strokes_to_destroy.wf(),
                destroyed == delta.strokes_to_destroy.as_map(),
                i <= self.strokes@.len(),
                built.wf(),
                built.entries().len() == kept_indices(destroyed, i as nat).len(),
                forall|k: int|
                    0 <= k < kept_indices(destroyed, i as nat).len() ==> built.entries()[k].0 == LaneStrokeRef(
                        kept_indices(destroyed, i as nat)[k],
                    ) && cloned(self.strokes@[kept_indices(destroyed, i as nat)[k] as int], built.entries()[k].1),
            decreases self.strokes@.len() - i,
        {
            proof {
                lemma_kept_indices_bound(destroyed, i as nat);
            }
            if !delta.strokes_to_destroy.contains_key(LaneStrokeRef(i)) {
                let stroke = self.strokes[i].clone();
                proof {
                    assert(!built.as_map().contains_key(LaneStrokeRef(i))) by {
                        if built.as_map().contains_key(LaneStrokeRef(i)) {
                            let j = choose|j: int| 0 <= j < built.entries().len() && built.entries()[j].0 == LaneStrokeRef(i);
                        }
                    }
                }
                built.insert(LaneStrokeRef(i), stroke);
            }
            i = i + 1;
        }
        let mut strokes: Vec<S> = Vec::new();
        let mut k: usize = 0;
        let ghost kept = kept_indices(destroyed, self.strokes@.len());
        while k < built.len()
            invariant
                built.wf(),
                k <= built.entries().len(),
                strokes@.len() == k,
                forall|j: int| 0 <= j < k ==> cloned(built.entries()[j].1, #[trigger] strokes@[j]),
            decreases built.entries().len() - k,
        {
            strokes.push(built.pair_at(k).1.clone());
            k = k + 1;
        }
        let mut k: usize = 0;
        let n_kept = strokes.len();
        while k < delta.new_strokes.len()
            invariant
                k <= delta.new_strokes@.len(),
                strokes@.len() == n_kept + k,
                forall|j: int| 0 <= j < n_kept ==> cloned(built.entries()[j].1, #[trigger] strokes@[j]),
                forall|j: int| 0 <= j < k ==> cloned(delta.new_strokes@[j], #[trigger] strokes@[n_kept + j]),
            decreases delta.new_strokes@.len() - k,
        {
            strokes.push(delta.new_strokes[k].clone());
            k = k + 1;
        }
        proof {
            if delta.new_strokes@.len() == 0 && delta.strokes_to_destroy.entries().len() == 0 {
                assert(destroyed =~= Map::<LaneStrokeRef, S>::empty());
                lemma_nothing_destroyed_keeps_all::<S>(self.strokes@.len());
            }
        }
        (Plan { strokes }, BuiltStrokes { mapping: built })
    }
}

/// What a plan results in: intersections, trimmed strokes and transfer strokes.
pub struct PlanResult<I, S> {
    pub intersections: CDict<IntersectionRef, I>,
    pub trimmed_strokes: CDict<TrimmedStrokeRef, S>,
    pub transfer_strokes: CDict<TransferStrokeRef, S>,
}

/// How one plan result differs from another.
pub struct PlanResultDelta<I, S> {
    pub intersections: ReferencedDelta<IntersectionRef, I>,
    pub trimmed_strokes: ReferencedDelta<TrimmedStrokeRef, S>,
    pub transfer_strokes: ReferencedDelta<TransferStrokeRef, S>,
}

/// The equivalence matrix fits the new and old dictionaries.
pub open spec fn fits<R, T>(equivalent: Seq<Vec<bool>>, new: Seq<(R, T)>, old: Seq<(R, T)>) -> bool {
    &&& equivalent.len() == new.len()
    &&& forall|n: int| 0 <= n < equivalent.len() ==> (#[trigger] equivalent[n])@.len() == old.len()
}

impl<I, S> PlanResult<I, S> {
    /// Its three dictionaries are well formed.
    pub open spec fn wf(&self) -> bool {
        self.intersections.wf() && self.trimmed_strokes.wf() && self.transfer_strokes.wf()
    }
}

impl<I: Clone, S: Clone> PlanResult<I, S> {
    /// A result without anything.
    pub fn new() -> (r: Self)
        ensures
            r.intersections.wf() && r.trimmed_strokes.wf() && r.transfer_strokes.wf(),
            r.intersections.entries().len() == 0,
            r.trimmed_strokes.entries().len() == 0,
            r.transfer_strokes.entries().len() == 0,
    {
        PlanResult { intersections: CDict::new(), trimmed_strokes: CDict::new(), transfer_strokes: CDict::new() }
    }

    /// How this result differs from `old`, given which items are roughly
    /// equal (the three matrices, new by old, for intersections, trimmed
    /// strokes and transfer strokes).
    pub fn delta(
        &self,
        old: &Self,
        intersections_equivalent: &Vec<Vec<bool>>,
        trimmed_equivalent: &Vec<Vec<bool>>,
        transfer_equivalent: &Vec<Vec<bool>>,
    ) -> (d: PlanResultDelta<I, S>)
        requires
            self.intersections.wf() && self.trimmed_strokes.wf() && self.transfer_strokes.wf(),
            old.intersections.wf() && old.trimmed_strokes.wf() && old.transfer_strokes.wf(),
            fits(intersections_equivalent@, self.intersections.entries(), old.intersections.entries()),
            fits(trimmed_equivalent@, self.trimmed_strokes.entries(), old.trimmed_strokes.entries()),
            fits(transfer_equivalent@, self.transfer_strokes.entries(), old.transfer_strokes.entries()),
        ensures
            d.intersections.to_create.wf() && d.intersections.to_destroy.wf() && d.intersections.old_to_new.wf(),
            d.trimmed_strokes.to_create.wf() && d.trimmed_strokes.to_destroy.wf() && d.trimmed_strokes.old_to_new.wf(),
            d.transfer_strokes.to_create.wf() && d.transfer_strokes.to_destroy.wf() && d.transfer_strokes.old_to_new.wf(),
            compared(d.intersections, self.intersections, old.intersections, intersections_equivalent@),
            compared(d.trimmed_strokes, self.trimmed_strokes, old.trimmed_strokes, trimmed_equivalent@),
            compared(d.transfer_strokes, self.transfer_strokes, old.transfer_strokes, transfer_equivalent@),
    {
        PlanResultDelta {
            intersections: ReferencedDelta::compare(&self.intersections, &old.intersections, intersections_equivalent),
            trimmed_strokes: ReferencedDelta::compare(&self.trimmed_strokes, &old.trimmed_strokes, trimmed_equivalent),
            transfer_strokes: ReferencedDelta::compare(&self.transfer_strokes, &old.transfer_strokes, transfer_equivalent),
        }
    }
}

/// `d` is what `ReferencedDelta::compare` gives for `new`, `old` and `equivalent`.
pub open spec fn compared<Ref: DictKey, T: Clone>(
    d: ReferencedDelta<Ref, T>,
    new: CDict<Ref, T>,
    old: CDict<Ref, T>,
    equivalent: Seq<Vec<bool>>,
) -> bool {
    &&& d.old_to_new.entries() == insert_all(
        matched_pairs(
            new.entries(),
            old.entries(),
            equivalent.map_values(|row: Vec<bool>| row@),
            new.entries().len(),
            0,
        ),
    )
    &&& cloned_entries(
        new.entries().filter(|e: (Ref, T)| !has_value(d.old_to_new.entries(), e.0)),
        d.to_create.entries(),
    )
    &&& cloned_entries(
        old.entries().filter(|e: (Ref, T)| !has_key(d.old_to_new.entries(), e.0)),
        d.to_destroy.entries(),
    )
}

} // verus!
