//! The materialized reality: which lanes are built for the current plan, and
//! the protocol that unbuilds and builds lanes when a new plan is applied.
use vstd::prelude::*;
use crate::kay::ID;
use crate::kay::compact_dict::{CDict, DictKey, keys_of, map_of};
use crate::lanes_and_cars::planning::plan::{
    BuiltStrokes, IntersectionRef, LaneStrokeRef, Plan, PlanDelta, PlanResult, PlanResultDelta,
    TransferStrokeRef, TrimmedStrokeRef, insert_all,
};

verus! {

/// What a built lane was built for.
#[derive(Clone, Copy, PartialEq, Eq, Debug)]
pub enum BuildableRef {
    Intersection(usize),
    TrimmedStroke(usize),
    TransferStroke(usize),
}

/// A lane reports that it was built for a buildable.
#[derive(Clone, Copy, Debug)]
pub struct ReportLaneBuilt(pub ID, pub BuildableRef);

/// A lane reports that it was unbuilt (`None`: the report that starts the wait).
#[derive(Clone, Copy, Debug)]
pub struct ReportLaneUnbuilt(pub Option<ID>);

/// Asks for the result delta that applying `delta` would have.
pub struct Simulate<S> {
    pub requester: ID,
    pub delta: PlanDelta<S>,
}

/// Asks to apply `delta` to reality.
pub struct Apply<S> {
    pub requester: ID,
    pub delta: PlanDelta<S>,
}

/// Tells the requester of an applied plan which strokes are now built.
pub struct BuiltStrokesChanged<S>(pub BuiltStrokes<S>);

/// The current plan, its result, and the lanes built for the result.
pub struct MaterializedRealityState<S, I> {
    pub current_plan: Plan<S>,
    pub current_result: PlanResult<I, S>,
    pub built_intersection_lanes: CDict<IntersectionRef, Vec<ID>>,
    pub built_trimmed_lanes: CDict<TrimmedStrokeRef, ID>,
    pub built_transfer_lanes: CDict<TransferStrokeRef, ID>,
}

impl<S, I> MaterializedRealityState<S, I> {
    pub open spec fn wf(&self) -> bool {
        &&& self.current_result.wf()
        &&& self.built_intersection_lanes.wf()
        &&& self.built_trimmed_lanes.wf()
        &&& self.built_transfer_lanes.wf()
    }
}

/// Either ready for a new plan, or waiting for lanes of the old one to be
/// unbuilt before building the new one.
pub enum MaterializedReality<S, I> {
    Ready(MaterializedRealityState<S, I>),
    WaitingForUnbuild(
        ID,
        Vec<ID>,
        MaterializedRealityState<S, I>,
        Plan<S>,
        PlanResult<I, S>,
        PlanResultDelta<I, S>,
    ),
}

/// The lanes of the intersections `refs`, in order (none for an intersection without lanes).
pub open spec fn intersection_lanes(built: Map<IntersectionRef, Vec<ID>>, refs: Seq<IntersectionRef>) -> Seq<ID>
    decreases refs.len(),
{
    if refs.len() == 0 {
        Seq::empty()
    } else {
        intersection_lanes(built, refs.drop_last()) + (if built.contains_key(refs.last()) {
            built[refs.last()]@
        } else {
            Seq::empty()
        })
    }
}

/// The lanes built for the strokes `refs`, in order.
pub open spec fn stroke_lanes<R>(built: Map<R, ID>, refs: Seq<R>) -> Seq<ID> {
    refs.map_values(|r: R| built[r])
}

/// All keys of `refs` have an entry in `built`.
pub open spec fn all_built<R, V>(built: Map<R, V>, refs: Seq<R>) -> bool {
    forall|k: int| 0 <= k < refs.len() ==> built.contains_key(#[trigger] refs[k])
}

/// The entries without those whose key is among `refs`.
pub open spec fn without_keys<R, V>(entries: Seq<(R, V)>, refs: Seq<R>) -> Seq<(R, V)> {
    entries.filter(|e: (R, V)| !refs.contains(e.0))
}

/// The entries re-keyed through `old_to_new`, inserted in order.
pub open spec fn rekeyed<R, V>(entries: Seq<(R, V)>, old_to_new: Map<R, R>) -> Seq<(R, V)> {
    insert_all(entries.map_values(|e: (R, V)| (old_to_new[e.0], e.1)))
}

impl<S, I> MaterializedReality<S, I> {
    /// A reality with nothing planned or built.
    pub fn new() -> (mr: Self)
        ensures
            mr is Ready,
            mr->Ready_0.wf(),
            mr->Ready_0.current_plan.strokes@.len() == 0,
            mr->Ready_0.built_intersection_lanes.entries().len() == 0,
            mr->Ready_0.built_trimmed_lanes.entries().len() == 0,
            mr->Ready_0.built_transfer_lanes.entries().len() == 0,
            mr->Ready_0.current_result.intersections.entries().len() == 0,
            mr->Ready_0.current_result.trimmed_strokes.entries().len() == 0,
            mr->Ready_0.current_result.transfer_strokes.entries().len() == 0,
    {
        MaterializedReality::Ready(MaterializedRealityState {
            current_plan: Plan { strokes: Vec::new() },
            current_result: PlanResult {
                intersections: CDict::new(),
                trimmed_strokes: CDict::new(),
                transfer_strokes: CDict::new(),
            },
            built_intersection_lanes: CDict::new(),
            built_trimmed_lanes: CDict::new(),
            built_transfer_lanes: CDict::new(),
        })
    }

    /// Starts applying a new plan: `new_plan` with result `new_result`, which
    /// differs from the current result by `result_delta`. Takes the lanes of
    /// destroyed items out of the built lanes and returns them; each is then
    /// asked to unbuild itself, and the reality reports to itself that
    /// unbuilding started. Only valid when ready and when every destroyed
    /// stroke has a built lane.
    pub fn apply(
        &mut self,
        requester: ID,
        new_plan: Plan<S>,
        new_result: PlanResult<I, S>,
        result_delta: PlanResultDelta<I, S>,
    ) -> (ids_to_unbuild: Vec<ID>)
        requires
            *old(self) is Ready,
            (*old(self))->Ready_0.wf(),
            delta_wf(result_delta),
            all_built(
                (*old(self))->Ready_0.built_trimmed_lanes.as_map(),
                keys_of(result_delta.trimmed_strokes.to_destroy.entries()),
            ),
            all_built(
                (*old(self))->Ready_0.built_transfer_lanes.as_map(),
                keys_of(result_delta.transfer_strokes.to_destroy.entries()),
            ),
        ensures
            ({
                let state = (*old(self))->Ready_0;
                &&& ids_to_unbuild@ == lanes_to_unbuild(state, result_delta)
                &&& *final(self) matches MaterializedReality::WaitingForUnbuild(
                    r,
                    ids,
                    rest,
                    plan,
                    result,
                    delta,
                ) && r == requester && ids@ == ids_to_unbuild@ && plan == new_plan && result == new_result && delta
                    == result_delta && rest.wf() && rest.current_plan == state.current_plan && rest.current_result
                    == state.current_result && rest.built_intersection_lanes.entries() == without_keys(
                    state.built_intersection_lanes.entries(),
                    keys_of(result_delta.intersections.to_destroy.entries()),
                ) && rest.built_trimmed_lanes.entries() == without_keys(
                    state.built_trimmed_lanes.entries(),
                    keys_of(result_delta.trimmed_strokes.to_destroy.entries()),
                ) && rest.built_transfer_lanes.entries() == without_keys(
                    state.built_transfer_lanes.entries(),
                    keys_of(result_delta.transfer_strokes.to_destroy.entries()),
                )
            }),
    {
        let mut taken = MaterializedReality::new();
        core::mem::swap(self, &mut taken);
        match taken {
            MaterializedReality::Ready(mut state) => {
                let ghost before = state;
                let mut ids = unbuild_intersections(
                    &mut state.built_intersection_lanes,
                    &result_delta.intersections.to_destroy,
                );
                let mut trimmed_ids = unbuild_strokes(
                    &mut state.built_trimmed_lanes,
                    &result_delta.trimmed_strokes.to_destroy,
                );
                let mut transfer_ids = unbuild_strokes(
                    &mut state.built_transfer_lanes,
                    &result_delta.transfer_strokes.to_destroy,
                );
                ids.append(&mut trimmed_ids);
                ids.append(&mut transfer_ids);
                let mut returned: Vec<ID> = Vec::new();
                let mut k: usize = 0;
                while k < ids.len()
                    invariant
                        k <= ids@.len(),
                        returned@ == ids@.subrange(0, k as int),
                    decreases ids@.len() - k,
                {
                    returned.push(ids[k]);
                    proof {
                        assert(ids@.subrange(0, k + 1) =~= ids@.subrange(0, k as int).push(ids@[k as int]));
                    }
                    k = k + 1;
                }
                proof {
                    assert(ids@.subrange(0, ids@.len() as int) =~= ids@);
                }
                *self = MaterializedReality::WaitingForUnbuild(
                    requester,
                    ids,
                    state,
                    new_plan,
                    new_result,
                    result_delta,
                );
                returned
            },
            MaterializedReality::WaitingForUnbuild(..) => {
                proof {
                    assert(false);
                }
                Vec::new()
            },
        }
    }

    /// Records that lane `id` was built for `buildable_ref`. A lane of an
    /// intersection that already has lanes is then asked to find its overlaps
    /// with them; those lanes are returned. Only valid when ready.
    pub fn report_lane_built(&mut self, id: ID, buildable_ref: BuildableRef) -> (advertise: Option<Vec<ID>>)
        requires
            *old(self) is Ready,
            (*old(self))->Ready_0.wf(),
        ensures
            *final(self) is Ready,
            (*final(self))->Ready_0.wf(),
            ({
                let s0 = (*old(self))->Ready_0;
                let s1 = (*final(self))->Ready_0;
                &&& s1.current_plan == s0.current_plan
                &&& s1.current_result == s0.current_result
                &&& match buildable_ref {
                    BuildableRef::Intersection(index) => {
                        let r = IntersectionRef(index);
                        &&& advertise is Some == s0.built_intersection_lanes.as_map().contains_key(r)
                        &&& advertise is Some ==> advertise->0@ == s0.built_intersection_lanes.as_map()[r]@
                        &&& s1.built_intersection_lanes.as_map().dom() == s0.built_intersection_lanes.as_map().dom().insert(r)
                        &&& forall|k: IntersectionRef|
                            k != r && s0.built_intersection_lanes.as_map().contains_key(k) ==> s1.built_intersection_lanes.as_map()[k]
                                == s0.built_intersection_lanes.as_map()[k]
                        &&& s1.built_intersection_lanes.as_map()[r]@ == (if s0.built_intersection_lanes.as_map().contains_key(r) {
                            s0.built_intersection_lanes.as_map()[r]@
                        } else {
                            Seq::<ID>::empty()
                        }).push(id)
                        &&& s1.built_trimmed_lanes == s0.built_trimmed_lanes
                        &&& s1.built_transfer_lanes == s0.built_transfer_lanes
                    },
                    BuildableRef::TrimmedStroke(index) => {
                        &&& advertise is None
                        &&& s1.built_trimmed_lanes.as_map() == s0.built_trimmed_lanes.as_map().insert(
                            TrimmedStrokeRef(index),
                            id,
                        )
                        &&& s1.built_intersection_lanes == s0.built_intersection_lanes
                        &&& s1.built_transfer_lanes == s0.built_transfer_lanes
                    },
                    BuildableRef::TransferStroke(index) => {
                        &&& advertise is None
                        &&& s1.built_transfer_lanes.as_map() == s0.built_transfer_lanes.as_map().insert(
                            TransferStrokeRef(index),
                            id,
                        )
                        &&& s1.built_intersection_lanes == s0.built_intersection_lanes
                        &&& s1.built_trimmed_lanes == s0.built_trimmed_lanes
                    },
                }
            }),
    {
        match self {
            MaterializedReality::Ready(state) => {
                match buildable_ref {
                    BuildableRef::Intersection(index) => {
                        let r = IntersectionRef(index);
                        let advertise = match state.built_intersection_lanes.get(r) {
                            Some(others) => Some(copy_ids(others)),
                            None => None,
                        };
                        state.built_intersection_lanes.push_at(r, id);
                        advertise
                    },
                    BuildableRef::TrimmedStroke(index) => {
                        state.built_trimmed_lanes.insert(TrimmedStrokeRef(index), id);
                        None
                    },
                    BuildableRef::TransferStroke(index) => {
                        state.built_transfer_lanes.insert(TransferStrokeRef(index), id);
                        None
                    },
                }
            },
            MaterializedReality::WaitingForUnbuild(..) => {
                proof {
                    assert(false);
                }
                None
            },
        }
    }

    /// Records that lane `maybe_id` was unbuilt (`None` only starts the
    /// wait). Once no lane is left to unbuild, the new plan becomes current:
    /// the built lanes are re-keyed to the new result, and the requester, what
    /// to build now, and the newly built strokes are returned. Only valid
    /// while waiting, for a lane that was to be unbuilt, and when every built
    /// lane lives on in the new result.
    pub fn report_lane_unbuilt(&mut self, maybe_id: Option<ID>) -> (done: Option<(ID, Vec<BuildableRef>, BuiltStrokes<S>)>)
        where S: Clone
        requires
            *old(self) is WaitingForUnbuild,
            *old(self) matches MaterializedReality::WaitingForUnbuild(_, ids, state, _, result, d) ==> {
                &&& state.wf()
                &&& result.wf()
                &&& delta_wf(d)
                &&& maybe_id is Some ==> ids@.contains(maybe_id->0)
                &&& remaining_after(ids@, maybe_id).len() == 0 ==> {
                    &&& all_rekeyable(state.built_intersection_lanes.entries(), d.intersections.old_to_new.as_map())
                    &&& all_rekeyable(state.built_trimmed_lanes.entries(), d.trimmed_strokes.old_to_new.as_map())
                    &&& all_rekeyable(state.built_transfer_lanes.entries(), d.transfer_strokes.old_to_new.as_map())
                }
            },
        ensures
            *old(self) matches MaterializedReality::WaitingForUnbuild(requester, ids, state, plan, result, d) ==> {
                let remaining = remaining_after(ids@, maybe_id);
                &&& remaining.len() > 0 ==> (*final(self) matches MaterializedReality::WaitingForUnbuild(
                    r2,
                    ids2,
                    state2,
                    plan2,
                    result2,
                    d2,
                ) && r2 == requester && ids2@ == remaining && state2 == state && plan2 == plan && result2 == result
                    && d2 == d && done is None)
                &&& remaining.len() == 0 ==> (*final(self) matches MaterializedReality::Ready(s)
                    && done is Some && s.wf() && s.current_plan == plan && s.current_result == result
                    && s.built_intersection_lanes.entries() == rekeyed(
                    state.built_intersection_lanes.entries(),
                    d.intersections.old_to_new.as_map(),
                ) && s.built_trimmed_lanes.entries() == rekeyed(
                    state.built_trimmed_lanes.entries(),
                    d.trimmed_strokes.old_to_new.as_map(),
                ) && s.built_transfer_lanes.entries() == rekeyed(
                    state.built_transfer_lanes.entries(),
                    d.transfer_strokes.old_to_new.as_map(),
                ) && (done->0).0 == requester && (done->0).1@ == buildables(d) && (done->0).2.mapping.wf()
                    && strokes_by_position(plan.strokes@, (done->0).2.mapping.entries()))
            },
    {
        let mut taken = MaterializedReality::new();
        core::mem::swap(self, &mut taken);
        match taken {
            MaterializedReality::WaitingForUnbuild(requester, mut ids_to_unbuild, state, new_plan, new_result, result_delta) => {
                if let Some(id) = maybe_id {
                    remove_first_id(&mut ids_to_unbuild, id);
                }
                if ids_to_unbuild.len() == 0 {
                    let builds = collect_buildables(&result_delta);
                    let MaterializedRealityState {
                        current_plan: _,
                        current_result: _,
                        built_intersection_lanes,
                        built_trimmed_lanes,
                        built_transfer_lanes,
                    } = state;
                    let new_intersection_lanes = rekey(built_intersection_lanes, &result_delta.intersections.old_to_new);
                    let new_trimmed_lanes = rekey(built_trimmed_lanes, &result_delta.trimmed_strokes.old_to_new);
                    let new_transfer_lanes = rekey(built_transfer_lanes, &result_delta.transfer_strokes.old_to_new);
                    let mapping = strokes_mapping(&new_plan.strokes);
                    *self = MaterializedReality::Ready(MaterializedRealityState {
                        current_plan: new_plan,
                        current_result: new_result,
                        built_intersection_lanes: new_intersection_lanes,
                        built_trimmed_lanes: new_trimmed_lanes,
                        built_transfer_lanes: new_transfer_lanes,
                    });
                    Some((requester, builds, BuiltStrokes { mapping }))
                } else {
                    *self = MaterializedReality::WaitingForUnbuild(
                        requester,
                        ids_to_unbuild,
                        state,
                        new_plan,
                        new_result,
                        result_delta,
                    );
                    None
                }
            },
            MaterializedReality::Ready(_) => {
                proof {
                    assert(false);
                }
                None
            },
        }
    }

    /// The state that simulations of new deltas start from: the current one,
    /// also while waiting.
    pub fn state(&self) -> (state: &MaterializedRealityState<S, I>)
        ensures
            state == (match self {
                MaterializedReality::Ready(s) => s,
                MaterializedReality::WaitingForUnbuild(_, _, s, _, _, _) => s,
            }),
    {
        match self {
            MaterializedReality::Ready(state) => state,
            MaterializedReality::WaitingForUnbuild(_, _, state, _, _, _) => state,
        }
    }
}

/// Removes the first occurrence of `id` from `ids`.
fn remove_first_id(ids: &mut Vec<ID>, id: ID)
    requires
        old(ids)@.contains(id),
    ensures
        final(ids)@ == without_first(old(ids)@, id),
{
    let ghost ids0 = ids@;
    let mut pos: usize = 0;
    while pos < ids.len() && !ids[pos].same(&id)
        invariant
            ids@ == ids0,
            pos <= ids@.len(),
            forall|j: int| 0 <= j < pos ==> ids@[j] != id,
        decreases ids@.len() - pos,
    {
        pos = pos + 1;
    }
    proof {
        if pos == ids@.len() {
            let j = choose|j: int| 0 <= j < ids0.len() && ids0[j] == id;
            assert(ids0[j] != id);
        }
        assert(ids0[pos as int] == id);
        let c = choose|i: int| 0 <= i < ids0.len() && ids0[i] == id && forall|j: int| 0 <= j < i ==> ids0[j] != id;
        assert(exists|i: int| 0 <= i < ids0.len() && ids0[i] == id && forall|j: int| 0 <= j < i ==> ids0[j] != id) by {
            assert(forall|j: int| 0 <= j < pos ==> ids0[j] != id);
        }
        assert(c == pos as int) by {
            if c < pos {
                assert(ids0[c] != id);
            } else if c > pos {
                assert(ids0[pos as int] != id);
            }
        }
    }
    ids.remove(pos);
}

/// The references of all things that a result delta creates, in the order
/// in which they are built.
fn collect_buildables<I, S>(d: &PlanResultDelta<I, S>) -> (builds: Vec<BuildableRef>)
    ensures
        builds@ == buildables(*d),
{
    let mut builds: Vec<BuildableRef> = Vec::new();
    let ghost ikeys = keys_of(d.intersections.to_create.entries()).map_values(
        |r: IntersectionRef| BuildableRef::Intersection(r.0),
    );
    let ghost tkeys = keys_of(d.trimmed_strokes.to_create.entries()).map_values(
        |r: TrimmedStrokeRef| BuildableRef::TrimmedStroke(r.0),
    );
    let ghost xkeys = keys_of(d.transfer_strokes.to_create.entries()).map_values(
        |r: TransferStrokeRef| BuildableRef::TransferStroke(r.0),
    );
    let mut k: usize = 0;
    while k < d.intersections.to_create.len()
        invariant
            k <= d.intersections.to_create.entries().len(),
            ikeys == keys_of(d.intersections.to_create.entries()).map_values(
                |r: IntersectionRef| BuildableRef::Intersection(r.0),
            ),
            builds@ == ikeys.subrange(0, k as int),
        decreases d.intersections.to_create.entries().len() - k,
    {
        builds.push(BuildableRef::Intersection(d.intersections.to_create.pair_at(k).0 .0));
        proof {
            assert(ikeys.subrange(0, k + 1) =~= ikeys.subrange(0, k as int).push(ikeys[k as int]));
        }
        k = k + 1;
    }
    proof {
        assert(ikeys.subrange(0, k as int) =~= ikeys);
    }
    let mut k: usize = 0;
    while k < d.trimmed_strokes.to_create.len()
        invariant
            k <= d.trimmed_strokes.to_create.entries().len(),
            tkeys == keys_of(d.trimmed_strokes.to_create.entries()).map_values(
                |r: TrimmedStrokeRef| BuildableRef::TrimmedStroke(r.0),
            ),
            builds@ == ikeys + tkeys.subrange(0, k as int),
        decreases d.trimmed_strokes.to_create.entries().len() - k,
    {
        builds.push(BuildableRef::TrimmedStroke(d.trimmed_strokes.to_create.pair_at(k).0 .0));
        proof {
            assert(ikeys + tkeys.subrange(0, k + 1) =~= (ikeys + tkeys.subrange(0, k as int)).push(
                tkeys[k as int],
            ));
        }
        k = k + 1;
    }
    proof {
        assert(tkeys.subrange(0, k as int) =~= tkeys);
    }
    let mut k: usize = 0;
    while k < d.transfer_strokes.to_create.len()
        invariant
            k <= d.transfer_strokes.to_create.entries().len(),
            xkeys == keys_of(d.transfer_strokes.to_create.entries()).map_values(
                |r: TransferStrokeRef| BuildableRef::TransferStroke(r.0),
            ),
            builds@ == ikeys + tkeys + xkeys.subrange(0, k as int),
        decreases d.transfer_strokes.to_create.entries().len() - k,
    {
        builds.push(BuildableRef::TransferStroke(d.transfer_strokes.to_create.pair_at(k).0 .0));
        proof {
            assert(ikeys + tkeys + xkeys.subrange(0, k + 1) =~= (ikeys + tkeys + xkeys.subrange(
                0,
                k as int,
            )).push(xkeys[k as int]));
        }
        k = k + 1;
    }
    proof {
        assert(xkeys.subrange(0, k as int) =~= xkeys);
    }
    builds
}

/// Each stroke of a plan under the reference of its position.
fn strokes_mapping<S: Clone>(strokes: &Vec<S>) -> (mapping: CDict<LaneStrokeRef, S>)
    ensures
        mapping.wf(),
        strokes_by_position(strokes@, mapping.entries()),
{
    let mut mapping: CDict<LaneStrokeRef, S> = CDict::new();
    let mut idx: usize = 0;
    while idx < strokes.len()
        invariant
            idx <= strokes@.len(),
            mapping.wf(),
            mapping.entries().len() == idx,
            forall|j: int| 0 <= j < idx ==> mapping.entries()[j].0 == LaneStrokeRef(j as usize) && cloned(
                strokes@[j],
                mapping.entries()[j].1,
            ),
        decreases strokes@.len() - idx,
    {
        let stroke = strokes[idx].clone();
        proof {
            if mapping.as_map().contains_key(LaneStrokeRef(idx)) {
                let j = choose|j: int| 0 <= j < mapping.entries().len() && mapping.entries()[j].0 == LaneStrokeRef(idx);
                assert(mapping.entries()[j].0 == LaneStrokeRef(j as usize));
            }
        }
        mapping.insert(LaneStrokeRef(idx), stroke);
        idx = idx + 1;
    }
    mapping
}

/// The materialized reality as it starts: ready, with nothing planned or built.
pub fn setup<S, I>() -> (mr: MaterializedReality<S, I>)
    ensures
        mr is Ready,
        mr->Ready_0.wf(),
        mr->Ready_0.current_plan.strokes@.len() == 0,
        mr->Ready_0.built_intersection_lanes.entries().len() == 0,
        mr->Ready_0.built_trimmed_lanes.entries().len() == 0,
        mr->Ready_0.built_transfer_lanes.entries().len() == 0,
        mr->Ready_0.current_result.intersections.entries().len() == 0,
        mr->Ready_0.current_result.trimmed_strokes.entries().len() == 0,
        mr->Ready_0.current_result.transfer_strokes.entries().len() == 0,
{
    MaterializedReality::new()
}

/// The lanes still to be unbuilt after the reports `reports`, in order.
pub open spec fn remaining_after_reports(ids: Seq<ID>, reports: Seq<ID>) -> Seq<ID>
    decreases reports.len(),
{
    if reports.len() == 0 {
        ids
    } else {
        without_first(remaining_after_reports(ids, reports.drop_last()), reports.last())
    }
}

/// Each report takes one of the reported lane off the lanes to wait for.
proof fn lemma_reports_take_off(ids: Seq<ID>, reports: Seq<ID>)
    requires
        reports.to_multiset().subset_of(ids.to_multiset()),
    ensures
        remaining_after_reports(ids, reports).to_multiset() =~= ids.to_multiset().sub(reports.to_multiset()),
    decreases reports.len(),
{
    broadcast use vstd::multiset::group_multiset_axioms;
    broadcast use vstd::seq_lib::group_to_multiset_ensures;
    if reports.len() > 0 {
        let init = reports.drop_last();
        let x = reports.last();
        assert(reports =~= init.push(x));
        assert(reports.to_multiset() =~= init.to_multiset().insert(x));
        lemma_reports_take_off(ids, init);
        let r0 = remaining_after_reports(ids, init);
        assert(r0.to_multiset().count(x) > 0);
        assert(r0.contains(x));
        let c = choose|i: int| 0 <= i < r0.len() && r0[i] == x && forall|j: int| 0 <= j < i ==> r0[j] != x;
        assert(exists|i: int| 0 <= i < r0.len() && r0[i] == x && forall|j: int| 0 <= j < i ==> r0[j] != x) by {
            let k = choose|k: int| 0 <= k < r0.len() && r0[k] == x;
            lemma_first_occurrence(r0, x, k);
        }
        assert(r0.remove(c).to_multiset() =~= r0.to_multiset().remove(x));
    }
}

/// A value that occurs somewhere has a first occurrence.
proof fn lemma_first_occurrence(s: Seq<ID>, x: ID, k: int)
    requires
        0 <= k < s.len(),
        s[k] == x,
    ensures
        exists|i: int| 0 <= i < s.len() && s[i] == x && forall|j: int| 0 <= j < i ==> s[j] != x,
    decreases k,
{
    if exists|j: int| 0 <= j < k && s[j] == x {
        let j = choose|j: int| 0 <= j < k && s[j] == x;
        lemma_first_occurrence(s, x, j);
    } else {
        assert(forall|j: int| 0 <= j < k ==> s[j] != x);
    }
}

/// Reports of lanes that are awaited, each taken off once, leave as many
/// lanes awaited as were not reported yet, and each report is of a lane still
/// awaited when it comes.
proof fn lemma_remaining_len(ids: Seq<ID>, reports: Seq<ID>)
    requires
        reports.to_multiset().subset_of(ids.to_multiset()),
    ensures
        remaining_after_reports(ids, reports).len() == ids.len() - reports.len(),
        reports.len() > 0 ==> remaining_after_reports(ids, reports.drop_last()).contains(reports.last()),
    decreases reports.len(),
{
    broadcast use vstd::multiset::group_multiset_axioms;
    broadcast use vstd::seq_lib::group_to_multiset_ensures;
    if reports.len() > 0 {
        let init = reports.drop_last();
        let x = reports.last();
        assert(reports =~= init.push(x));
        assert(reports.to_multiset() =~= init.to_multiset().insert(x));
        assert(init.to_multiset().subset_of(ids.to_multiset()));
        lemma_remaining_len(ids, init);
        lemma_reports_take_off(ids, init);
        let r0 = remaining_after_reports(ids, init);
        assert(r0.to_multiset().count(x) > 0);
        assert(r0.contains(x));
        let c = choose|i: int| 0 <= i < r0.len() && r0[i] == x && forall|j: int| 0 <= j < i ==> r0[j] != x;
        assert(exists|i: int| 0 <= i < r0.len() && r0[i] == x && forall|j: int| 0 <= j < i ==> r0[j] != x) by {
            let k = choose|k: int| 0 <= k < r0.len() && r0[k] == x;
            lemma_first_occurrence(r0, x, k);
        }
    }
}

/// The unbuild phase as a whole: after `apply` the materialized reality
/// waits for the lanes `ids`; when these report, in whatever order
/// (`report_lane_unbuilt` takes each report's lane off the lanes awaited),
/// every report is of a lane still awaited, the wait goes on until the last
/// report, and after it no lane is left to wait for, so the new plan becomes
/// current.
pub proof fn lemma_reports_in_any_order(ids: Seq<ID>, reports: Seq<ID>)
    requires
        reports.to_multiset() == ids.to_multiset(),
    ensures
        remaining_after_reports(ids, reports).len() == 0,
        forall|k: int|
            0 <= k < reports.len() ==> remaining_after_reports(ids, #[trigger] reports.take(k)).contains(reports[k])
                && remaining_after_reports(ids, reports.take(k)).len() > 0,
{
    broadcast use vstd::multiset::group_multiset_axioms;
    broadcast use vstd::seq_lib::group_to_multiset_ensures;
    lemma_reports_take_off(ids, reports);
    let r = remaining_after_reports(ids, reports);
    assert(r.to_multiset() =~= vstd::multiset::Multiset::<ID>::empty());
    assert(r.len() == r.to_multiset().len());
    assert forall|k: int| 0 <= k < reports.len() implies remaining_after_reports(ids, #[trigger] reports.take(k)).contains(
        reports[k],
    ) && remaining_after_reports(ids, reports.take(k)).len() > 0 by {
        let pre = reports.take(k + 1);
        assert(reports =~= pre + reports.subrange(k + 1, reports.len() as int));
        vstd::seq_lib::lemma_multiset_commutative(pre, reports.subrange(k + 1, reports.len() as int));
        assert(pre.to_multiset().subset_of(ids.to_multiset()));
        lemma_remaining_len(ids, pre);
        assert(pre.drop_last() =~= reports.take(k));
        assert(ids.len() == reports.len()) by {
            assert(ids.len() == ids.to_multiset().len());
            assert(reports.len() == reports.to_multiset().len());
        }
    }
}

/// All dictionaries of a result delta are well formed.
pub open spec fn delta_wf<I, S>(d: PlanResultDelta<I, S>) -> bool {
    &&& d.intersections.to_create.wf() && d.intersections.to_destroy.wf() && d.intersections.old_to_new.wf()
    &&& d.trimmed_strokes.to_create.wf() && d.trimmed_strokes.to_destroy.wf() && d.trimmed_strokes.old_to_new.wf()
    &&& d.transfer_strokes.to_create.wf() && d.transfer_strokes.to_destroy.wf() && d.transfer_strokes.old_to_new.wf()
}

/// The lanes to unbuild when applying `d` to `state`: those of destroyed
/// intersections, then those of destroyed trimmed strokes, then those of
/// destroyed transfer strokes.
pub open spec fn lanes_to_unbuild<S, I>(state: MaterializedRealityState<S, I>, d: PlanResultDelta<I, S>) -> Seq<ID> {
    intersection_lanes(state.built_intersection_lanes.as_map(), keys_of(d.intersections.to_destroy.entries()))
        + stroke_lanes(state.built_trimmed_lanes.as_map(), keys_of(d.trimmed_strokes.to_destroy.entries()))
        + stroke_lanes(state.built_transfer_lanes.as_map(), keys_of(d.transfer_strokes.to_destroy.entries()))
}

/// What gets built once all old lanes are gone: each new intersection, then
/// each new trimmed stroke, then each new transfer stroke. An intersection is
/// built stroke by stroke, each stroke with its signal timings and reporting
/// under the intersection's reference; which strokes and timings those are is
/// read off the intersection by whoever sends the build orders.
pub open spec fn buildables<I, S>(d: PlanResultDelta<I, S>) -> Seq<BuildableRef> {
    keys_of(d.intersections.to_create.entries()).map_values(|r: IntersectionRef| BuildableRef::Intersection(r.0))
        + keys_of(d.trimmed_strokes.to_create.entries()).map_values(
        |r: TrimmedStrokeRef| BuildableRef::TrimmedStroke(r.0),
    ) + keys_of(d.transfer_strokes.to_create.entries()).map_values(
        |r: TransferStrokeRef| BuildableRef::TransferStroke(r.0),
    )
}

/// `s` without the first occurrence of `x` (unchanged if `x` does not occur).
pub open spec fn without_first(s: Seq<ID>, x: ID) -> Seq<ID> {
    if s.contains(x) {
        s.remove(choose|i: int| 0 <= i < s.len() && s[i] == x && forall|j: int| 0 <= j < i ==> s[j] != x)
    } else {
        s
    }
}

/// The ids still to be unbuilt after the report of `maybe_id`.
pub open spec fn remaining_after(ids: Seq<ID>, maybe_id: Option<ID>) -> Seq<ID> {
    match maybe_id {
        Some(id) => without_first(ids, id),
        None => ids,
    }
}

/// Every key of `entries` has an entry in `old_to_new`.
pub open spec fn all_rekeyable<R, V>(entries: Seq<(R, V)>, old_to_new: Map<R, R>) -> bool {
    forall|k: int| 0 <= k < entries.len() ==> old_to_new.contains_key(#[trigger] entries[k].0)
}

/// The strokes of a plan, each by its position.
pub open spec fn strokes_by_position<S: Clone>(strokes: Seq<S>, built: Seq<(LaneStrokeRef, S)>) -> bool {
    &&& built.len() == strokes.len()
    &&& forall|k: int| 0 <= k < strokes.len() ==> built[k].0 == LaneStrokeRef(k as usize) && cloned(strokes[k], built[k].1)
}

/// The dictionary with each key replaced through `old_to_new`.
fn rekey<R: DictKey, V>(dict: CDict<R, V>, old_to_new: &CDict<R, R>) -> (res: CDict<R, V>)
    requires
        dict.wf(),
        old_to_new.wf(),
        all_rekeyable(dict.entries(), old_to_new.as_map()),
    ensures
        res.wf(),
        res.entries() == rekeyed(dict.entries(), old_to_new.as_map()),
{
    let ghost orig = dict.entries();
    let ghost mapped = orig.map_values(|e: (R, V)| (old_to_new.as_map()[e.0], e.1));
    let mut entries = dict.into_entries();
    assert(orig.len() == entries.len());
    let mut res: CDict<R, V> = CDict::new();
    let mut k: usize = 0;
    proof {
        assert(insert_all(mapped.subrange(0, 0)) =~= res.entries());
    }
    while entries.len() > 0
        invariant
            old_to_new.wf(),
            res.wf(),
            k + entries@.len() == orig.len(),
            orig.len() <= usize::MAX,
            entries@ == orig.subrange(k as int, orig.len() as int),
            all_rekeyable(orig, old_to_new.as_map()),
            mapped == orig.map_values(|e: (R, V)| (old_to_new.as_map()[e.0], e.1)),
            res.entries() == insert_all(mapped.subrange(0, k as int)),
        decreases entries@.len(),
    {
        let (old_ref, value) = entries.remove(0);
        proof {
            assert(orig[k as int] == (old_ref, value));
            assert(old_to_new.as_map().contains_key(old_ref));
        }
        let new_ref = *old_to_new.get(old_ref).unwrap();
        res.insert(new_ref, value);
        proof {
            assert(mapped.subrange(0, k + 1).drop_last() =~= mapped.subrange(0, k as int));
            assert(mapped.subrange(0, k + 1).last() == (new_ref, value));
            assert(entries@ =~= orig.subrange(k + 1, orig.len() as int));
        }
        k = k + 1;
    }
    proof {
        assert(mapped.subrange(0, k as int) =~= mapped);
    }
    res
}

/// A copy of a list of lane ids.
fn copy_ids(ids: &Vec<ID>) -> (copy: Vec<ID>)
    ensures
        copy@ == ids@,
{
    let mut copy: Vec<ID> = Vec::new();
    let mut k: usize = 0;
    while k < ids.len()
        invariant
            k <= ids@.len(),
            copy@ == ids@.subrange(0, k as int),
        decreases ids@.len() - k,
    {
        copy.push(ids[k]);
        proof {
            assert(ids@.subrange(0, k + 1) =~= ids@.subrange(0, k as int).push(ids@[k as int]));
        }
        k = k + 1;
    }
    proof {
        assert(ids@.subrange(0, ids@.len() as int) =~= ids@);
    }
    copy
}

/// Removes the lanes of the intersections `refs` from `built`, returning them in order.
fn unbuild_intersections<T>(built: &mut CDict<IntersectionRef, Vec<ID>>, refs: &CDict<IntersectionRef, T>)
    -> (ids: Vec<ID>)
    requires
        old(built).wf(),
        refs.wf(),
    ensures
        final(built).wf(),
        ids@ == intersection_lanes(old(built).as_map(), keys_of(refs.entries())),
        final(built).entries() == without_keys(old(built).entries(), keys_of(refs.entries())),
{
    let mut ids: Vec<ID> = Vec::new();
    let mut k: usize = 0;
    let ghost orig = *built;
    proof {
        assert(without_keys(orig.entries(), keys_of(refs.entries()).subrange(0, 0)) =~= orig.entries()) by {
            lemma_filter_true(orig.entries(), keys_of(refs.entries()).subrange(0, 0));
        }
    }
    while k < refs.len()
        invariant
            refs.wf(),
            built.wf(),
            orig.wf(),
            k <= refs.entries().len(),
            ids@ == intersection_lanes(orig.as_map(), keys_of(refs.entries()).subrange(0, k as int)),
            built.entries() == without_keys(orig.entries(), keys_of(refs.entries()).subrange(0, k as int)),
        decreases refs.entries().len() - k,
    {
        let key = refs.pair_at(k).0;
        let ghost prefix = keys_of(refs.entries()).subrange(0, k as int);
        let ghost before = *built;
        proof {
            assert(keys_of(refs.entries()).subrange(0, k + 1) =~= prefix.push(key));
            assert(prefix.push(key).drop_last() =~= prefix);
            assert(!prefix.contains(key)) by {
                if prefix.contains(key) {
                    let m = choose|m: int| 0 <= m < prefix.len() && prefix[m] == key;
                    assert(keys_of(refs.entries())[m] == keys_of(refs.entries())[k as int]);
                }
            }
            lemma_without_keys_map(orig.entries(), prefix, key);
        }
        match built.remove(key) {
            Some(removed) => {
                let mut j: usize = 0;
                let ghost start = ids@;
                while j < removed.len()
                    invariant
                        j <= removed@.len(),
                        ids@ == start + removed@.subrange(0, j as int),
                    decreases removed@.len() - j,
                {
                    ids.push(removed[j]);
                    proof {
                        assert(start + removed@.subrange(0, j + 1) =~= (start + removed@.subrange(0, j as int)).push(
                            removed@[j as int],
                        ));
                    }
                    j = j + 1;
                }
                proof {
                    assert(removed@.subrange(0, removed@.len() as int) =~= removed@);
                }
            },
            None => {
                proof {
                    assert(ids@ =~= ids@ + Seq::<ID>::empty());
                }
            },
        }
        proof {
            lemma_without_keys_push(orig.entries(), prefix, key);
        }
        k = k + 1;
    }
    proof {
        assert(keys_of(refs.entries()).subrange(0, refs.entries().len() as int) =~= keys_of(refs.entries()));
    }
    ids
}

/// Removes the lanes built for the strokes `refs` from `built`, returning them in order.
fn unbuild_strokes<R: DictKey, T>(built: &mut CDict<R, ID>, refs: &CDict<R, T>) -> (ids: Vec<ID>)
    requires
        old(built).wf(),
        refs.wf(),
        all_built(old(built).as_map(), keys_of(refs.entries())),
    ensures
        final(built).wf(),
        ids@ == stroke_lanes(old(built).as_map(), keys_of(refs.entries())),
        final(built).entries() == without_keys(old(built).entries(), keys_of(refs.entries())),
{
    let mut ids: Vec<ID> = Vec::new();
    let mut k: usize = 0;
    let ghost orig = *built;
    proof {
        lemma_filter_true(orig.entries(), keys_of(refs.entries()).subrange(0, 0));
    }
    while k < refs.len()
        invariant
            refs.wf(),
            built.wf(),
            orig.wf(),
            all_built(orig.as_map(), keys_of(refs.entries())),
            k <= refs.entries().len(),
            ids@ == stroke_lanes(orig.as_map(), keys_of(refs.entries()).subrange(0, k as int)),
            built.entries() == without_keys(orig.entries(), keys_of(refs.entries()).subrange(0, k as int)),
        decreases refs.entries().len() - k,
    {
        let key = refs.pair_at(k).0;
        let ghost prefix = keys_of(refs.entries()).subrange(0, k as int);
        proof {
            assert(keys_of(refs.entries()).subrange(0, k + 1) =~= prefix.push(key));
            assert(!prefix.contains(key)) by {
                if prefix.contains(key) {
                    let m = choose|m: int| 0 <= m < prefix.len() && prefix[m] == key;
                    assert(keys_of(refs.entries())[m] == keys_of(refs.entries())[k as int]);
                }
            }
            lemma_without_keys_map(orig.entries(), prefix, key);
            assert(keys_of(refs.entries())[k as int] == key);
            assert(orig.as_map().contains_key(key));
        }
        let removed = built.remove(key);
        let id = removed.unwrap();
        ids.push(id);
        proof {
            assert(stroke_lanes(orig.as_map(), prefix.push(key)) =~= stroke_lanes(orig.as_map(), prefix).push(
                orig.as_map()[key],
            ));
            lemma_without_keys_push(orig.entries(), prefix, key);
        }
        k = k + 1;
    }
    proof {
        assert(keys_of(refs.entries()).subrange(0, refs.entries().len() as int) =~= keys_of(refs.entries()));
    }
    ids
}

/// Filtering with a predicate that holds everywhere changes nothing.
proof fn lemma_filter_true<R, V>(entries: Seq<(R, V)>, refs: Seq<R>)
    requires
        refs.len() == 0,
    ensures
        without_keys(entries, refs) == entries,
    decreases entries.len(),
{
    reveal_with_fuel(Seq::filter, 1);
    if entries.len() > 0 {
        lemma_filter_true(entries.drop_last(), refs);
        assert(entries.drop_last().push(entries.last()) =~= entries);
    } else {
        assert(without_keys(entries, refs) =~= entries);
    }
}

/// Removing the keys `refs` keeps the map on the other keys; `key` is present
/// afterwards exactly when it was before (when it is not among `refs`).
proof fn lemma_without_keys_map<R, V>(entries: Seq<(R, V)>, refs: Seq<R>, key: R)
    requires
        keys_of(entries).no_duplicates(),
        !refs.contains(key),
    ensures
        keys_of(without_keys(entries, refs)).no_duplicates(),
        map_of(without_keys(entries, refs)).contains_key(key) == map_of(entries).contains_key(key),
        map_of(entries).contains_key(key) ==> map_of(without_keys(entries, refs))[key] == map_of(entries)[key],
    decreases entries.len(),
{
    let f = |e: (R, V)| !refs.contains(e.0);
    reveal_with_fuel(Seq::filter, 1);
    if entries.len() > 0 {
        let init = entries.drop_last();
        assert(keys_of(init) =~= keys_of(entries).drop_last());
        lemma_without_keys_map(init, refs, key);
        let w = without_keys(init, refs);
        let last = entries.last();
        assert(forall|j: int| 0 <= j < init.len() ==> init[j].0 != last.0) by {
            assert forall|j: int| 0 <= j < init.len() implies init[j].0 != last.0 by {
                assert(keys_of(entries)[j] != keys_of(entries)[entries.len() - 1]);
            }
        }
        broadcast use vstd::seq_lib::group_filter_ensures;
        if f(last) {
            assert(without_keys(entries, refs) == w.push(last));
            assert(keys_of(w.push(last)) =~= keys_of(w).push(last.0));
            assert(!keys_of(w).contains(last.0)) by {
                if keys_of(w).contains(last.0) {
                    let m = choose|m: int| 0 <= m < keys_of(w).len() && keys_of(w)[m] == last.0;
                    assert(keys_of(w).len() == w.len());
                    assert(keys_of(w)[m] == w[m].0);
                    assert(w.contains(w[m]));
                    init.lemma_filter_contains_rev(f, w[m]);
                    let j = choose|j: int| 0 <= j < init.len() && init[j] == w[m];
                }
            }
            if last.0 == key {
                assert(!map_of(w).contains_key(key)) by {
                    if map_of(w).contains_key(key) {
                        let m = choose|m: int| 0 <= m < w.len() && w[m].0 == key;
                        assert(w.contains(w[m]));
                        init.lemma_filter_contains_rev(f, w[m]);
                        let j = choose|j: int| 0 <= j < init.len() && init[j] == w[m];
                    }
                }
                assert(w.push(last)[w.len() as int].0 == key);
                let m1 = choose|m: int| 0 <= m < w.push(last).len() && w.push(last)[m].0 == key;
                assert(keys_of(w.push(last))[m1] == keys_of(w.push(last))[w.len() as int]);
                let m2 = choose|m: int| 0 <= m < entries.len() && entries[m].0 == key;
                assert(keys_of(entries)[m2] == keys_of(entries)[entries.len() - 1]);
            } else {
                if map_of(w.push(last)).contains_key(key) {
                    let m = choose|m: int| 0 <= m < w.push(last).len() && w.push(last)[m].0 == key;
                    assert(w[m].0 == key);
                    let m1 = choose|m1: int| 0 <= m1 < w.len() && w[m1].0 == key;
                    assert(keys_of(w.push(last))[m1] == keys_of(w.push(last))[m]);
                }
                if map_of(w).contains_key(key) {
                    let m = choose|m: int| 0 <= m < w.len() && w[m].0 == key;
                    assert(w.push(last)[m].0 == key);
                }
                if map_of(entries).contains_key(key) {
                    let m = choose|m: int| 0 <= m < entries.len() && entries[m].0 == key;
                    assert(m < init.len());
                    assert(init[m].0 == key);
                    let m1 = choose|m1: int| 0 <= m1 < init.len() && init[m1].0 == key;
                    assert(keys_of(entries)[m1] == keys_of(entries)[m]);
                }
                if map_of(init).contains_key(key) {
                    let m = choose|m: int| 0 <= m < init.len() && init[m].0 == key;
                    assert(entries[m].0 == key);
                }
            }
        } else {
            assert(without_keys(entries, refs) == w);
            assert(last.0 != key);
            if map_of(entries).contains_key(key) {
                let m = choose|m: int| 0 <= m < entries.len() && entries[m].0 == key;
                assert(m < init.len());
                assert(init[m].0 == key);
                let m1 = choose|m1: int| 0 <= m1 < init.len() && init[m1].0 == key;
                assert(keys_of(entries)[m1] == keys_of(entries)[m]);
            }
            if map_of(init).contains_key(key) {
                let m = choose|m: int| 0 <= m < init.len() && init[m].0 == key;
                assert(entries[m].0 == key);
            }
        }
    } else {
        assert(without_keys(entries, refs) =~= entries);
    }
}

/// Removing one more key from the without-keys entries is removing it from the list of keys.
proof fn lemma_without_keys_push<R, V>(entries: Seq<(R, V)>, refs: Seq<R>, key: R)
    ensures
        without_keys(entries, refs).filter(|e: (R, V)| e.0 != key) == without_keys(entries, refs.push(key)),
    decreases entries.len(),
{
    let f = |e: (R, V)| !refs.contains(e.0);
    let g = |e: (R, V)| e.0 != key;
    let h = |e: (R, V)| !refs.push(key).contains(e.0);
    reveal_with_fuel(Seq::filter, 1);
    if entries.len() > 0 {
        let init = entries.drop_last();
        lemma_without_keys_push(init, refs, key);
        let last = entries.last();
        assert(refs.push(key).contains(last.0) == (refs.contains(last.0) || last.0 == key)) by {
            if refs.push(key).contains(last.0) {
                let m = choose|m: int| 0 <= m < refs.push(key).len() && refs.push(key)[m] == last.0;
                if m < refs.len() {
                    assert(refs[m] == last.0);
                }
            }
            if refs.contains(last.0) {
                let m = choose|m: int| 0 <= m < refs.len() && refs[m] == last.0;
                assert(refs.push(key)[m] == last.0);
            }
            if last.0 == key {
                assert(refs.push(key)[refs.len() as int] == key);
            }
        }
        if f(last) {
            without_keys(init, refs).lemma_filter_push(last, g);
        }
    } else {
        assert(without_keys(entries, refs).filter(g) =~= without_keys(entries, refs.push(key)));
    }
}

} // verus!
