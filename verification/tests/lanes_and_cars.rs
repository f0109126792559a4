use citybound::kay::{CDict, Fate, ID};
use citybound::lanes_and_cars::connectivity::{Interaction, InteractionKind, OverlapKind, TransferSides};
use citybound::lanes_and_cars::construction::materialized_reality::{self, BuildableRef, MaterializedReality};
use citybound::lanes_and_cars::pathfinding::trip::{
    self as trip_mod, AddLaneForTrip, DestinationOutcome, Start, Trip, TripControl, TripCreator,
};
use citybound::lanes_and_cars::pathfinding::{
    self, answer_as_destination, forget_routes, forward_forget_routes, forward_join_landmark, forward_query_routes,
    join_landmark, learn_routes, on_build, on_connect, on_disconnect, predecessors, still_routed, successors, tick,
    Destination, ForgetRoutes, JoinLandmark, PathfindingInfo, QueryAsDestination, QueryRoutes, RoutingInfo,
    TellAsDestination,
};
use citybound::lanes_and_cars::planning::current_plan::addable::Addable;
use citybound::lanes_and_cars::planning::current_plan::{
    CurrentPlan, IntentProgress, PlanStep, SelectableStrokeRef, SetNLanes,
};
use citybound::lanes_and_cars::planning::lane_stroke_draggable::{Become, LaneStrokeDraggable};
use citybound::lanes_and_cars::planning::lane_stroke_selectable::LaneStrokeSelectable;
use citybound::lanes_and_cars::planning::plan::{
    BuiltStrokes, IntersectionRef, LaneStrokeRef, Plan, PlanDelta, PlanResult, ReferencedDelta, TrimmedStrokeRef,
};
use citybound::lanes_and_cars::planning::plan_result_steps::{
    checked_signal_timings, connect_as_much_as_possible, connection_window, continues_after, groups_correspond,
    signal_cliques, signal_timings,
};
use citybound::lanes_and_cars::planning::current_plan::all_strokes;
use citybound::simulation::Timestamp;

fn id(n: u32) -> ID {
    ID::new(2, 0, n)
}

fn route(learned_from: ID, hops: u8) -> RoutingInfo<u32> {
    RoutingInfo { outgoing_idx: 0, distance: 10, distance_hops: hops, learned_from, fresh: false }
}

fn next(partner: u32) -> Interaction {
    Interaction { partner_lane: id(partner), kind: InteractionKind::Next { green: true } }
}

fn previous(partner: u32) -> Interaction {
    Interaction { partner_lane: id(partner), kind: InteractionKind::Previous }
}

fn transfer(partner: u32) -> Interaction {
    Interaction { partner_lane: id(partner), kind: InteractionKind::Overlap { kind: OverlapKind::Transfer } }
}

#[test]
fn destination_landmarks() {
    let d = Destination { landmark: id(1), node: id(2) };
    assert!(!d.is_landmark());
    let l = d.landmark_destination();
    assert_eq!(l, Destination { landmark: id(1), node: id(1) });
    assert!(l.is_landmark());
    assert_eq!(Destination::landmark(id(5)), Destination { landmark: id(5), node: id(5) });
}

#[test]
fn successors_and_predecessors_of_interactions() {
    let interactions = vec![
        next(1),
        previous(2),
        transfer(3),
        Interaction { partner_lane: id(4), kind: InteractionKind::Overlap { kind: OverlapKind::Conflicting } },
    ];
    assert_eq!(successors(&interactions), vec![id(1), id(3)]);
    assert_eq!(predecessors(&interactions), vec![(1, id(2), false), (2, id(3), true)]);
}

#[test]
fn build_and_connect_reset_state() {
    let mut info: PathfindingInfo<u32> = PathfindingInfo::new();
    info.as_destination = Some(Destination::landmark(id(1)));
    on_build(&mut info);
    assert!(info.as_destination.is_none());
    on_connect(&mut info);
    assert_eq!(info.routing_timeout, 15);
}

#[test]
fn disconnect_drops_routes_learned_from_that_lane() {
    let mut info: PathfindingInfo<u32> = PathfindingInfo::new();
    info.routes.insert(Destination::landmark(id(10)), route(id(1), 1));
    info.routes.insert(Destination::landmark(id(11)), route(id(2), 1));
    info.routes.insert(Destination::landmark(id(12)), route(id(1), 2));
    on_disconnect(&mut info, id(1));
    let keys: Vec<Destination> = info.routes.into_entries().into_iter().map(|e| e.0).collect();
    assert_eq!(keys, vec![Destination::landmark(id(11))]);
    assert!(info.routes_changed);
    assert!(info.query_routes_next_tick);
}

#[test]
fn join_landmark_decisions() {
    // a lane that is no destination joins
    let mut info: PathfindingInfo<u32> = PathfindingInfo::new();
    info.routes.insert(Destination::landmark(id(10)), route(id(1), 1));
    let msg = JoinLandmark { from: id(3), join_as: Destination { landmark: id(7), node: id(8) }, hops_from_landmark: 2 };
    assert!(join_landmark(&mut info, id(8), &msg));
    assert_eq!(info.as_destination, Some(msg.join_as));
    assert_eq!(info.learned_landmark_from, Some(id(3)));
    assert_eq!(info.hops_from_landmark, 2);
    assert_eq!(info.routes.len(), 0);
    assert_eq!(info.tell_to_forget_next_tick, vec![Destination::landmark(id(10))]);
    assert_eq!(info.routing_timeout, 15);
    // the same invitation again is not followed
    assert!(!join_landmark(&mut info, id(8), &msg));
    // a closer landmark is joined
    let closer = JoinLandmark { from: id(4), join_as: Destination { landmark: id(9), node: id(8) }, hops_from_landmark: 1 };
    assert!(join_landmark(&mut info, id(8), &closer));
    assert_eq!(info.tell_to_forget_next_tick, vec![msg.join_as]);
    // a farther one from elsewhere is not
    let farther = JoinLandmark { from: id(5), join_as: Destination { landmark: id(6), node: id(8) }, hops_from_landmark: 3 };
    assert!(!join_landmark(&mut info, id(8), &farther));
}

#[test]
fn landmark_joins_only_close_landmarks_with_smaller_ids() {
    let mut info: PathfindingInfo<u32> = PathfindingInfo::new();
    info.as_destination = Some(Destination::landmark(id(20)));
    let bigger = JoinLandmark { from: id(3), join_as: Destination { landmark: id(30), node: id(20) }, hops_from_landmark: 1 };
    assert!(!join_landmark(&mut info, id(20), &bigger));
    let far = JoinLandmark { from: id(3), join_as: Destination { landmark: id(10), node: id(20) }, hops_from_landmark: 3 };
    assert!(!join_landmark(&mut info, id(20), &far));
    let near = JoinLandmark { from: id(3), join_as: Destination { landmark: id(10), node: id(20) }, hops_from_landmark: 2 };
    assert!(join_landmark(&mut info, id(20), &near));
}

#[test]
fn tick_elects_landmark_and_counts_down() {
    let interactions = vec![previous(1), previous(2), transfer(3), next(4)];
    let mut info: PathfindingInfo<u32> = PathfindingInfo::new();
    let actions = tick(&mut info, id(9), false, &interactions);
    assert_eq!(info.as_destination, Some(Destination::landmark(id(9))));
    assert_eq!(info.routing_timeout, 14);
    assert!(actions.joins.is_empty());
    assert!(actions.share_to.is_empty());
    // on an intersection no landmark is elected
    let mut other: PathfindingInfo<u32> = PathfindingInfo::new();
    tick(&mut other, id(9), true, &interactions);
    assert!(other.as_destination.is_none());
}

#[test]
fn tick_invites_queries_forgets_and_shares() {
    let interactions = vec![previous(1), transfer(3), next(4)];
    let mut info: PathfindingInfo<u32> = PathfindingInfo::new();
    info.as_destination = Some(Destination { landmark: id(50), node: id(9) });
    info.hops_from_landmark = 2;
    info.query_routes_next_tick = true;
    info.tell_to_forget_next_tick = vec![Destination::landmark(id(60))];
    info.routes_changed = true;
    let mut r = route(id(1), 1);
    r.fresh = true;
    info.routes.insert(Destination::landmark(id(70)), r);
    let actions = tick(&mut info, id(9), false, &interactions);
    assert_eq!(actions.joins.len(), 2);
    assert_eq!(actions.joins[0].0, id(3));
    assert_eq!(actions.joins[1].1.join_as, Destination { landmark: id(50), node: id(4) });
    assert_eq!(actions.joins[1].1.hops_from_landmark, 3);
    assert_eq!(actions.queries.iter().map(|q| q.0).collect::<Vec<_>>(), vec![id(3), id(4)]);
    assert!(actions.queries.iter().all(|q| q.1.requester == id(9) && !q.1.is_transfer));
    assert_eq!(actions.forgets.len(), 2);
    assert_eq!(actions.forgets[0].0, id(1));
    assert_eq!(actions.forgets[1].1.forget, vec![Destination::landmark(id(60))]);
    assert_eq!(actions.share_to, vec![(id(1), false), (id(3), true)]);
    assert!(!info.query_routes_next_tick);
    assert!(info.tell_to_forget_next_tick.is_empty());
    assert!(!info.routes_changed);
    assert!(!info.routes.get(Destination::landmark(id(70))).unwrap().fresh);
}

#[test]
fn learn_routes_keeps_shorter_accepted_routes() {
    let interactions = vec![previous(1), previous(2)];
    let mut info: PathfindingInfo<u32> = PathfindingInfo::new();
    info.as_destination = Some(Destination { landmark: id(50), node: id(9) });
    info.routes.insert(Destination::landmark(id(70)), route(id(1), 1));
    let mut news: CDict<Destination, (u32, u8)> = CDict::new();
    news.insert(Destination::landmark(id(70)), (5, 2)); // shorter than known
    news.insert(Destination { landmark: id(80), node: id(81) }, (5, 7)); // far, other area: refused
    news.insert(Destination { landmark: id(50), node: id(51) }, (5, 7)); // own area: taken
    learn_routes(&mut info, &interactions, id(2), &news, &vec![true, true, true]);
    let r70 = info.routes.get(Destination::landmark(id(70))).unwrap();
    assert_eq!(r70.distance, 5);
    assert_eq!(r70.learned_from, id(2));
    assert_eq!(r70.outgoing_idx, 1);
    assert!(r70.fresh);
    assert!(!info.routes.contains_key(Destination { landmark: id(80), node: id(81) }));
    assert!(info.routes.contains_key(Destination { landmark: id(50), node: id(51) }));
    assert!(info.routes_changed);
    // routes from a lane that is not connected are ignored
    let mut other: PathfindingInfo<u32> = PathfindingInfo::new();
    learn_routes(&mut other, &interactions, id(99), &news, &vec![true, true, true]);
    assert_eq!(other.routes.len(), 0);
    assert!(!other.routes_changed);
}

#[test]
fn learn_routes_keeps_known_shorter_route() {
    let interactions = vec![previous(2)];
    let mut info: PathfindingInfo<u32> = PathfindingInfo::new();
    info.routes.insert(Destination::landmark(id(70)), route(id(1), 1));
    let mut news: CDict<Destination, (u32, u8)> = CDict::new();
    news.insert(Destination::landmark(id(70)), (50, 2));
    learn_routes(&mut info, &interactions, id(2), &news, &vec![false]);
    assert_eq!(info.routes.get(Destination::landmark(id(70))).unwrap().learned_from, id(1));
    assert!(!info.routes_changed);
}

#[test]
fn forget_routes_only_from_sender() {
    let mut info: PathfindingInfo<u32> = PathfindingInfo::new();
    info.routes.insert(Destination::landmark(id(10)), route(id(1), 1));
    info.routes.insert(Destination::landmark(id(11)), route(id(2), 1));
    let msg = ForgetRoutes {
        forget: vec![Destination::landmark(id(10)), Destination::landmark(id(11)), Destination::landmark(id(12))],
        from: id(1),
    };
    let forgotten = forget_routes(&mut info, &msg);
    assert_eq!(forgotten, vec![Destination::landmark(id(10))]);
    assert_eq!(info.tell_to_forget_next_tick, vec![Destination::landmark(id(10))]);
    assert!(!info.routes.contains_key(Destination::landmark(id(10))));
    assert!(info.routes.contains_key(Destination::landmark(id(11))));
}

#[test]
fn cars_taken_off_for_forgotten_destinations() {
    let area = Destination { landmark: id(1), node: id(2) };
    assert!(!still_routed(area, Destination::landmark(id(1))));
    assert!(still_routed(area, Destination::landmark(id(3))));
    assert!(!still_routed(area, area));
    assert!(still_routed(area, Destination { landmark: id(1), node: id(4) }));
}

#[test]
fn transfer_lanes_pass_messages_across() {
    let sides = TransferSides { left: Some(id(1)), right: Some(id(2)) };
    assert_eq!(sides.other_side(id(1)), id(2));
    assert_eq!(sides.other_side(id(2)), id(1));
    let msg = JoinLandmark { from: id(1), join_as: Destination { landmark: id(7), node: id(30) }, hops_from_landmark: 2 };
    let (to, out) = forward_join_landmark(&sides, id(30), &msg);
    assert_eq!(to, id(2));
    assert_eq!(out.join_as, Destination { landmark: id(7), node: id(2) });
    assert_eq!(out.from, id(30));
    let (to, q) = forward_query_routes(&sides, id(30), &QueryRoutes { requester: id(2), is_transfer: false });
    assert_eq!(to, id(1));
    assert!(q.is_transfer);
    let (to, f) = forward_forget_routes(&sides, id(30), &ForgetRoutes { forget: vec![Destination::landmark(id(5))], from: id(2) });
    assert_eq!(to, id(1));
    assert_eq!(f.forget, vec![Destination::landmark(id(5))]);
    assert_eq!(f.from, id(30));
}

#[test]
fn lane_answers_as_destination() {
    let mut info: PathfindingInfo<u32> = PathfindingInfo::new();
    info.as_destination = Some(Destination::landmark(id(3)));
    let (to, tell) = answer_as_destination(&info, &QueryAsDestination {
        requester: id(9),
        rough_destination: id(3),
        tick: Some(Timestamp(4)),
    });
    assert_eq!(to, id(9));
    assert_eq!(tell.as_destination, Some(Destination::landmark(id(3))));
    assert_eq!(tell.rough_destination, id(3));
    assert_eq!(tell.tick, Some(Timestamp(4)));
}

#[test]
fn trip_lifecycle() {
    let mut trip = Trip::new(id(1), id(2), Some(id(3)));
    assert!(trip.destination.is_none());
    let (query, created) = trip.start(id(50), &Start(Timestamp(8)));
    assert_eq!(query.0, id(2));
    assert_eq!(query.1.requester, id(50));
    assert_eq!(query.1.tick, Some(Timestamp(8)));
    assert_eq!(created.unwrap().0, id(3));
    let d = Destination { landmark: id(7), node: id(2) };
    let (outcome, fate) = trip.on_tell_as_destination(id(50), &TellAsDestination {
        rough_destination: id(2),
        as_destination: Some(d),
        tick: Some(Timestamp(8)),
    });
    assert_eq!(fate, Fate::Live);
    assert!(matches!(outcome, DestinationOutcome::AddCar { lane, destination } if lane == id(1) && destination == d));
    assert_eq!(trip.destination, Some(d));
    let (notify, fate) = trip.on_control(id(50), &TripControl::Succeed { tick: Timestamp(20) });
    assert_eq!(fate, Fate::Die);
    let (to, result) = notify.unwrap();
    assert_eq!(to, id(3));
    assert_eq!(result.location, id(2));
    assert!(result.failed);
    let (notify, _) = trip.on_control(id(50), &TripControl::Fail { location: id(4), tick: Timestamp(21) });
    assert_eq!(notify.unwrap().1.location, id(4));
}

#[test]
fn trip_fails_without_destination() {
    let mut trip = Trip::new(id(1), id(2), Some(id(3)));
    let (outcome, fate) = trip.on_tell_as_destination(id(50), &TellAsDestination {
        rough_destination: id(2),
        as_destination: None,
        tick: Some(Timestamp(8)),
    });
    assert_eq!(fate, Fate::Die);
    match outcome {
        DestinationOutcome::Failed { notify: Some((to, result)) } => {
            assert_eq!(to, id(3));
            assert_eq!(result.location, id(1));
            assert_eq!(result.tick, Timestamp(8));
            assert!(result.failed);
        }
        _ => panic!("should fail and notify"),
    }
}

#[test]
fn trip_creator_pairs_lanes() {
    let (_trips, mut creator) = trip_mod::setup(64);
    assert!(creator.add_lane_for_trip(&AddLaneForTrip(id(1))).is_none());
    let trip = creator.add_lane_for_trip(&AddLaneForTrip(id(2))).unwrap();
    assert_eq!(trip.source, id(1));
    assert_eq!(trip.rough_destination, id(2));
    assert!(trip.listener.is_none());
    assert!(creator.current_source_lane.is_none());
    let (_trips, creator) = pathfinding::setup(64);
    assert!(creator.current_source_lane.is_none());
    assert!(TripCreator::new().current_source_lane.is_none());
}

#[test]
fn referenced_delta_matches_equivalent_items() {
    let mut new: CDict<IntersectionRef, char> = CDict::new();
    new.insert(IntersectionRef(0), 'a');
    new.insert(IntersectionRef(1), 'b');
    let mut old: CDict<IntersectionRef, char> = CDict::new();
    old.insert(IntersectionRef(0), 'x');
    old.insert(IntersectionRef(1), 'a');
    old.insert(IntersectionRef(2), 'y');
    // new 0 is old 1
    let equivalent = vec![vec![false, true, false], vec![false, false, false]];
    let d = ReferencedDelta::compare(&new, &old, &equivalent);
    assert_eq!(d.old_to_new.into_entries(), vec![(IntersectionRef(1), IntersectionRef(0))]);
    assert_eq!(d.to_create.into_entries(), vec![(IntersectionRef(1), 'b')]);
    assert_eq!(d.to_destroy.into_entries(), vec![(IntersectionRef(0), 'x'), (IntersectionRef(2), 'y')]);
}

#[test]
fn plan_with_delta_keeps_order() {
    let plan = Plan { strokes: vec!['a', 'b', 'c'] };
    let mut destroy = CDict::new();
    destroy.insert(LaneStrokeRef(1), 'b');
    let delta = PlanDelta { new_strokes: vec!['d'], strokes_to_destroy: destroy };
    let (new_plan, kept) = plan.with_delta(&delta);
    assert_eq!(new_plan.strokes, vec!['a', 'c', 'd']);
    assert_eq!(kept.mapping.into_entries(), vec![(LaneStrokeRef(0), 'a'), (LaneStrokeRef(2), 'c')]);
}

#[test]
fn selectable_refs_find_strokes() {
    let delta = PlanDelta { new_strokes: vec!['n'], strokes_to_destroy: CDict::new() };
    let mut mapping = CDict::new();
    mapping.insert(LaneStrokeRef(4), 'b');
    let built = BuiltStrokes { mapping };
    assert_eq!(*SelectableStrokeRef::New(0).get_stroke(&delta, &built), 'n');
    assert_eq!(*SelectableStrokeRef::Built(LaneStrokeRef(4)).get_stroke(&delta, &built), 'b');
    assert_eq!(Addable::new('z').stroke, 'z');
    let mut drag = LaneStrokeDraggable::new(SelectableStrokeRef::New(0), 1.5f32);
    drag.become_ref(&Become(SelectableStrokeRef::Built(LaneStrokeRef(2))));
    assert_eq!(drag.stroke_ref, SelectableStrokeRef::Built(LaneStrokeRef(2)));
    assert_eq!(drag.path, 1.5);
    let sel = LaneStrokeSelectable::new(SelectableStrokeRef::New(3), "path");
    assert_eq!(sel.stroke_ref, SelectableStrokeRef::New(3));
}

fn step(intent: u8) -> PlanStep<char, u8, u8> {
    PlanStep { plan_delta: PlanDelta::new(), selections: 0, intent }
}

#[test]
fn undo_and_redo_revert_each_other() {
    let mut plan: CurrentPlan<char, u8, u8, ()> = CurrentPlan::new(0, 0);
    plan.commit(step(1));
    plan.commit(step(2));
    assert_eq!(plan.current.intent, 2);
    plan.undo(0, 0);
    assert_eq!(plan.current.intent, 1);
    assert_eq!(plan.redo_history.len(), 1);
    assert!(plan.redo());
    assert_eq!(plan.current.intent, 2);
    assert!(!plan.redo());
    plan.undo(0, 0);
    plan.undo(0, 0);
    assert_eq!(plan.current.intent, 0);
    // nothing left to undo: a blank step
    plan.undo(9, 9);
    assert_eq!(plan.current.intent, 9);
    assert_eq!(plan.current.selections, 9);
    assert_eq!(plan.redo_history.len(), 3);
    // committing drops what could be redone
    plan.commit(step(5));
    assert!(plan.redo_history.is_empty());
    assert!(!plan.interactables_valid);
    assert!(plan.preview.is_none());
}

#[test]
fn intents_settings_and_materialize() {
    let mut plan: CurrentPlan<char, u8, u8, u32> = CurrentPlan::new(0, 0);
    assert!(!plan.change_intent(3, IntentProgress::Preview));
    assert_eq!(plan.undo_history.len(), 0);
    assert!(!plan.change_intent(4, IntentProgress::SubStep));
    assert_eq!(plan.undo_history.len(), 1);
    assert_eq!(plan.undo_history[0].intent, 4);
    assert!(plan.change_intent(5, IntentProgress::Finished));
    plan.commit_immediate(step(6), 0);
    assert_eq!(plan.undo_history.last().unwrap().intent, 0);
    assert_eq!(plan.current.intent, 6);
    plan.set_n_lanes(&SetNLanes(3));
    assert_eq!(plan.settings.n_lanes_per_side, 3);
    plan.toggle_both_sides();
    assert!(!plan.settings.create_both_sides);
    plan.simulation_result(17);
    assert_eq!(plan.preview_result_delta, Some(17));
    let mut mapping = CDict::new();
    mapping.insert(LaneStrokeRef(0), 'a');
    mapping.insert(LaneStrokeRef(1), 'b');
    plan.built_strokes_changed(BuiltStrokes { mapping });
    plan.current.plan_delta.strokes_to_destroy.insert(LaneStrokeRef(0), 'a');
    let still = plan.still_built_strokes().unwrap();
    assert_eq!(still.mapping.into_entries(), vec![(LaneStrokeRef(1), 'b')]);
    let delta = plan.materialize(None, 0, 0);
    assert_eq!(delta.strokes_to_destroy.len(), 1);
    assert!(plan.undo_history.is_empty());
    assert!(plan.built_strokes.is_none());
    assert_eq!(plan.settings.n_lanes_per_side, 2);
}

#[test]
fn materialized_reality_waits_for_unbuilds() {
    let mut mr: MaterializedReality<char, u8> = materialized_reality::setup();
    assert!(mr.report_lane_built(id(100), BuildableRef::TrimmedStroke(0)).is_none());
    assert!(mr.report_lane_built(id(101), BuildableRef::Intersection(0)).is_none());
    let adv = mr.report_lane_built(id(102), BuildableRef::Intersection(0));
    assert_eq!(adv, Some(vec![id(101)]));
    // a new result: trimmed stroke 0 and intersection 0 go away, a new
    // trimmed stroke comes
    let old_result: PlanResult<u8, char> = {
        let mut r = PlanResult::new();
        r.trimmed_strokes.insert(TrimmedStrokeRef(0), 't');
        r.intersections.insert(IntersectionRef(0), 1);
        r
    };
    let mut new_result: PlanResult<u8, char> = PlanResult::new();
    new_result.trimmed_strokes.insert(TrimmedStrokeRef(0), 'u');
    let delta = new_result.delta(&old_result, &vec![], &vec![vec![false]], &vec![]);
    let new_plan = Plan { strokes: vec!['u'] };
    let ids = mr.apply(id(7), new_plan, new_result, delta);
    assert_eq!(ids, vec![id(101), id(102), id(100)]);
    assert!(mr.report_lane_unbuilt(None).is_none());
    assert!(mr.report_lane_unbuilt(Some(id(102))).is_none());
    assert!(mr.report_lane_unbuilt(Some(id(100))).is_none());
    let (requester, builds, built) = mr.report_lane_unbuilt(Some(id(101))).unwrap();
    assert_eq!(requester, id(7));
    assert_eq!(builds, vec![BuildableRef::TrimmedStroke(0)]);
    assert_eq!(built.mapping.into_entries(), vec![(LaneStrokeRef(0), 'u')]);
    assert!(matches!(mr, MaterializedReality::Ready(_)));
    assert_eq!(mr.state().current_plan.strokes, vec!['u']);
}

#[test]
fn signal_cliques_of_compatible_strokes() {
    // strokes 0 and 1 are compatible, 2 is compatible with none
    let compatible = vec![vec![false, true, false], vec![false, false, false], vec![false, false, false]];
    let cliques = signal_cliques(3, &compatible);
    let mut sets: Vec<Vec<u32>> = cliques.iter().map(|c| c.iter().collect()).collect();
    sets.sort();
    assert_eq!(sets, vec![vec![0, 1], vec![2]]);
}

#[test]
fn signal_cliques_find_every_maximal_clique() {
    // a cycle 0-1-2-3-0 of compatible strokes: its maximal cliques are its four edges
    let mut compatible = vec![vec![false; 4]; 4];
    compatible[0][1] = true;
    compatible[1][2] = true;
    compatible[2][3] = true;
    compatible[0][3] = true;
    let cliques = signal_cliques(4, &compatible);
    let mut sets: Vec<Vec<u32>> = cliques.iter().map(|c| c.iter().collect()).collect();
    sets.sort();
    assert_eq!(sets, vec![vec![0, 1], vec![0, 3], vec![1, 2], vec![2, 3]]);
    // with no compatible pairs at all, each stroke is a clique of its own
    let none = vec![vec![false; 3]; 3];
    let mut singles: Vec<Vec<u32>> = signal_cliques(3, &none).iter().map(|c| c.iter().collect()).collect();
    singles.sort();
    assert_eq!(singles, vec![vec![0], vec![1], vec![2]]);
}

#[test]
fn signal_timings_cycle() {
    let mut a = roaring::RoaringBitmap::new();
    a.insert(0);
    a.insert(1);
    let mut b = roaring::RoaringBitmap::new();
    b.insert(1);
    b.insert(2);
    let mut c = roaring::RoaringBitmap::new();
    c.insert(2);
    // b first (higher parallelity), then a; c is not needed any more
    let timings = signal_timings(3, vec![a, b, c], &vec![2, 5, 1]);
    assert_eq!(timings.len(), 3);
    // two phases of 6 ticks and 4 of buffer each
    assert!(timings.iter().all(|row| row.len() == 20));
    let green = |s: usize| -> Vec<usize> { (0..20).filter(|t| timings[s][*t]).collect() };
    // b's phase: 0..6, stroke 1 is also in a, so it stays green through the buffer
    // a's phase: 10..16, stroke 1 is also in b, so it stays green through the buffer
    assert_eq!(green(2), (0..6).collect::<Vec<_>>());
    assert_eq!(green(1), (0..20).collect::<Vec<_>>());
    assert_eq!(green(0), (10..16).collect::<Vec<_>>());
}

#[test]
fn signal_timings_single_clique_keeps_green() {
    let mut a = roaring::RoaringBitmap::new();
    a.insert(0);
    let timings = signal_timings(1, vec![a], &vec![1]);
    assert_eq!(timings, vec![vec![true; 10]]);
}



use citybound::lanes_and_cars::construction::{
    add_transfer_lane_interaction, confirm_disconnect, connect, disconnect_lane, disconnect_transfer, unbuild_lane,
    unbuild_transfer, ConnectivityInfo, Disconnect, Unbuild, UnbuildState,
};
use citybound::lanes_and_cars::microtraffic::{add_obstacles, signal_changed, signal_tick, SignalChanged};
use citybound::lanes_and_cars::construction::materialized_reality::ReportLaneUnbuilt;

#[test]
fn connect_adds_next_and_previous_once() {
    let mut interactions: Vec<Interaction> = Vec::new();
    let mut info: PathfindingInfo<u32> = PathfindingInfo::new();
    assert!(!connect(&mut interactions, &mut info, id(1), id(1), true, true, true));
    assert!(interactions.is_empty());
    assert!(connect(&mut interactions, &mut info, id(1), id(2), true, false, true));
    assert_eq!(interactions, vec![next_green(2, false)]);
    assert_eq!(info.routing_timeout, 15);
    assert!(!connect(&mut interactions, &mut info, id(1), id(2), true, true, false));
    assert_eq!(interactions, vec![next_green(2, false), previous(2)]);
    assert!(!connect(&mut interactions, &mut info, id(1), id(3), false, false, true));
    assert_eq!(interactions.len(), 2);
    let c = ConnectivityInfo::new(true);
    assert!(c.on_intersection && c.interactions.is_empty());
}

fn next_green(partner: u32, green: bool) -> Interaction {
    Interaction { partner_lane: id(partner), kind: InteractionKind::Next { green } }
}

#[test]
fn transfer_interactions_added_once_per_partner() {
    let mut interactions = vec![previous(2)];
    let mut info: PathfindingInfo<u32> = PathfindingInfo::new();
    add_transfer_lane_interaction(&mut interactions, &mut info, transfer(2));
    assert_eq!(interactions.len(), 1);
    assert_eq!(info.routing_timeout, 0);
    add_transfer_lane_interaction(&mut interactions, &mut info, transfer(3));
    assert_eq!(interactions, vec![previous(2), transfer(3)]);
    assert_eq!(info.routing_timeout, 15);
}

#[test]
fn disconnect_removes_all_interactions_with_partner() {
    let mut interactions = vec![next(2), previous(3), transfer(2), previous(4)];
    let mut info: PathfindingInfo<u32> = PathfindingInfo::new();
    info.routes.insert(Destination::landmark(id(9)), route(id(2), 1));
    let (removed, reply) = disconnect_lane(&mut interactions, &mut info, &Disconnect { other_id: id(2) });
    assert_eq!(removed, vec![0, 2]);
    assert_eq!(interactions, vec![previous(3), previous(4)]);
    assert_eq!(info.routes.len(), 0);
    assert!(info.routes_changed);
    assert_eq!(reply.0, id(2));
}

#[test]
fn unbuild_waits_for_each_partner_once() {
    let interactions = vec![next(2), previous(3), transfer(2)];
    let mut state = UnbuildState::new();
    let (disconnects, report, fate) = unbuild_lane(&mut state, &interactions, id(1), &Unbuild { report_to: id(99) });
    assert_eq!(disconnects.iter().map(|d| d.0).collect::<Vec<_>>(), vec![id(2), id(3)]);
    assert!(disconnects.iter().all(|d| d.1.other_id == id(1)));
    assert!(report.is_none());
    assert_eq!(fate, Fate::Live);
    assert_eq!(state, UnbuildState { unbuilding_for: Some(id(99)), disconnects_remaining: 2 });
    let (report, fate) = confirm_disconnect(&mut state, id(1));
    assert!(report.is_none());
    assert_eq!(fate, Fate::Live);
    let (report, fate) = confirm_disconnect(&mut state, id(1));
    let (to, ReportLaneUnbuilt(unbuilt)) = report.unwrap();
    assert_eq!(to, id(99));
    assert_eq!(unbuilt, Some(id(1)));
    assert_eq!(fate, Fate::Die);
}

#[test]
fn unbuild_without_partners_reports_at_once() {
    let mut state = UnbuildState::new();
    let (disconnects, report, fate) = unbuild_lane(&mut state, &vec![], id(1), &Unbuild { report_to: id(99) });
    assert!(disconnects.is_empty());
    assert_eq!(report.unwrap().0, id(99));
    assert_eq!(fate, Fate::Die);
}

#[test]
fn transfer_lanes_unbuild_and_disconnect() {
    let mut sides = TransferSides { left: Some(id(2)), right: Some(id(3)) };
    let mut state = UnbuildState::new();
    let (disconnects, report, fate) = unbuild_transfer(&mut state, &sides, id(1), &Unbuild { report_to: id(99) });
    assert_eq!(disconnects.iter().map(|d| d.0).collect::<Vec<_>>(), vec![id(2), id(3)]);
    assert!(report.is_none());
    assert_eq!(fate, Fate::Live);
    assert_eq!(state.disconnects_remaining, 2);
    let reply = disconnect_transfer(&mut sides, &Disconnect { other_id: id(3) });
    assert_eq!(reply.0, id(3));
    assert_eq!(sides.left, Some(id(2)));
    assert_eq!(sides.right, None);
    let lonely = TransferSides { left: None, right: None };
    let (disconnects, report, fate) = unbuild_transfer(&mut UnbuildState::new(), &lonely, id(1), &Unbuild { report_to: id(99) });
    assert!(disconnects.is_empty());
    assert!(report.is_some());
    assert_eq!(fate, Fate::Die);
}

#[test]
fn signals_follow_timings() {
    let timings = vec![true, false];
    let interactions = vec![previous(2), next(3), previous(4)];
    // ticks 0..25 are the first step, green; 100 ticks ahead is step 4, green too
    let t = signal_tick(false, &timings, &interactions, id(7), Timestamp(10));
    assert!(t.signal.green);
    assert!(t.signal.yellow_to_green);
    assert!(!t.signal.yellow_to_red);
    // the signal changed, so previous lanes are told
    assert_eq!(t.signal_changes.iter().map(|c| c.0).collect::<Vec<_>>(), vec![id(2), id(4)]);
    assert!(t.signal_changes.iter().all(|c| c.1.green && c.1.from == id(7)));
    assert!(!t.do_traffic);
    assert!(!t.do_pathfinding);
    // ticks 25..50 are the second step, red
    let t = signal_tick(true, &timings, &interactions, id(7), Timestamp(30));
    assert!(!t.signal.green);
    assert_eq!(t.signal_changes.len(), 2);
    // unchanged and not its turn for traffic: nothing told
    let t = signal_tick(true, &timings, &interactions, id(7), Timestamp(5));
    assert!(t.signal_changes.is_empty());
    // its turn: tick 37 and instance 7 agree modulo both throttlings
    let t = signal_tick(true, &timings, &interactions, id(7), Timestamp(37));
    assert!(t.do_traffic);
    assert!(t.do_pathfinding);
    assert_eq!(t.signal_changes.len(), 2);
    let t = signal_tick(true, &vec![], &interactions, id(7), Timestamp(30));
    assert!(t.signal.green && t.signal.yellow_to_red && t.signal.yellow_to_green);
}

#[test]
fn signal_changed_updates_first_next_interaction() {
    let mut interactions = vec![previous(3), next(3), next(3)];
    assert!(signal_changed(&mut interactions, &SignalChanged { from: id(3), green: false }));
    assert_eq!(interactions, vec![previous(3), next_green(3, false), next(3)]);
    assert!(!signal_changed(&mut interactions, &SignalChanged { from: id(4), green: false }));
}

use citybound::lanes_and_cars::microtraffic::{next_hop_interaction, passes_on, shares_obstacles};

#[test]
fn cars_are_routed_by_destination_then_landmark() {
    let mut routes: CDict<Destination, RoutingInfo<u32>> = CDict::new();
    let mut r1 = route(id(1), 1);
    r1.outgoing_idx = 4;
    let mut r2 = route(id(1), 1);
    r2.outgoing_idx = 6;
    routes.insert(Destination { landmark: id(10), node: id(11) }, r1);
    routes.insert(Destination::landmark(id(20)), r2);
    assert_eq!(next_hop_interaction(&routes, Destination { landmark: id(10), node: id(11) }, None), Some(4));
    assert_eq!(next_hop_interaction(&routes, Destination { landmark: id(20), node: id(21) }, None), Some(6));
    // no route: a pseudorandom one, unless placed by force
    assert_eq!(next_hop_interaction(&routes, Destination { landmark: id(30), node: id(31) }, Some(3)), Some(6));
    assert_eq!(next_hop_interaction(&routes, Destination { landmark: id(30), node: id(31) }, None), None);
    let empty: CDict<Destination, RoutingInfo<u32>> = CDict::new();
    assert_eq!(next_hop_interaction(&empty, Destination::landmark(id(30)), Some(3)), None);
}

#[test]
fn cars_arrive_and_obstacles_are_shared_in_turn() {
    assert!(!passes_on(id(5), Destination { landmark: id(1), node: id(5) }));
    assert!(passes_on(id(4), Destination { landmark: id(1), node: id(5) }));
    assert!(shares_obstacles(Timestamp(29), id(0)));
    assert!(!shares_obstacles(Timestamp(30), id(0)));
    assert!(shares_obstacles(Timestamp(30), id(31)));
}

#[test]
fn groups_correspond_when_all_incoming_continue() {
    let incoming = vec![LaneStrokeRef(1), LaneStrokeRef(2)];
    assert!(groups_correspond(&incoming, &vec![LaneStrokeRef(2), LaneStrokeRef(3), LaneStrokeRef(1)]));
    assert!(!groups_correspond(&incoming, &vec![LaneStrokeRef(2), LaneStrokeRef(3)]));
    assert!(groups_correspond(&vec![], &vec![]));
    let outgoing = vec![vec![LaneStrokeRef(5)], vec![LaneStrokeRef(1), LaneStrokeRef(2)]];
    assert!(continues_after(&incoming, &outgoing));
    assert!(!continues_after(&incoming, &outgoing[..1].to_vec()));
}

#[test]
fn connections_line_up_lanes() {
    // outgoing to the right: lined up from the rightmost lanes
    assert_eq!(connect_as_much_as_possible(3, 2, true, false), vec![(2, 1), (1, 0)]);
    // a u-turn connects the leftmost lanes only
    assert_eq!(connect_as_much_as_possible(3, 2, false, true), vec![(0, 0)]);
    // otherwise lined up from the left
    assert_eq!(connect_as_much_as_possible(2, 3, false, false), vec![(0, 0), (1, 1)]);
}

#[test]
fn connection_windows_split_lanes_by_thirds() {
    // a road of 4 lanes going on: the middle 2 go straight, 2 of the 4 turn each way
    assert_eq!(connection_window(4, true, true), (1, 2));
    assert_eq!(connection_window(4, true, false), (0, 2));
    assert_eq!(connection_window(3, true, true), (0, 3));
    assert_eq!(connection_window(1, true, false), (0, 1));
    // a road of 3 lanes ending: 2 turn each way
    assert_eq!(connection_window(3, false, false), (0, 2));
    assert_eq!(connection_window(7, true, true), (2, 3));
}

#[test]
fn all_strokes_lists_new_then_built() {
    let delta = PlanDelta { new_strokes: vec!['a', 'b'], strokes_to_destroy: CDict::new() };
    let mut mapping = CDict::new();
    mapping.insert(LaneStrokeRef(7), 'x');
    let built = BuiltStrokes { mapping };
    let all = all_strokes(&delta, &built);
    assert_eq!(
        all,
        vec![
            (SelectableStrokeRef::New(0), &'a'),
            (SelectableStrokeRef::New(1), &'b'),
            (SelectableStrokeRef::Built(LaneStrokeRef(7)), &'x'),
        ]
    );
}

#[test]
fn obstacles_from_a_lane_are_replaced() {
    let mut known = vec![(1.5f32, id(1)), (2.5, id(2)), (3.5, id(1))];
    add_obstacles(&mut known, &vec![7.0, 8.0], id(1));
    assert_eq!(known, vec![(2.5, id(2)), (7.0, id(1)), (8.0, id(1))]);
    add_obstacles(&mut known, &vec![], id(2));
    assert_eq!(known, vec![(7.0, id(1)), (8.0, id(1))]);
}

#[test]
fn substep_then_undo_and_redo_keeps_the_intents() {
    let mut plan: CurrentPlan<char, u8, u8, u32> = CurrentPlan::new(0, 0);
    assert!(!plan.change_intent(1, IntentProgress::SubStep));
    assert!(!plan.change_intent(2, IntentProgress::Preview));
    plan.undo(0, 0);
    assert!(plan.redo());
    assert_eq!(plan.current.intent, 2);
    assert_eq!(plan.undo_history.len(), 1);
    assert_eq!(plan.undo_history[0].intent, 1);
    assert!(plan.redo_history.is_empty());
    assert!(plan.preview.is_none());
    assert!(!plan.interactables_valid);
}

#[test]
fn plan_step_duplicate_copies_each_field() {
    let mut destroy = CDict::new();
    destroy.insert(LaneStrokeRef(3), 'z');
    let step = PlanStep {
        plan_delta: PlanDelta { new_strokes: vec!['a', 'b'], strokes_to_destroy: destroy },
        selections: 7u8,
        intent: 9u8,
    };
    let copy = step.duplicate();
    assert_eq!(copy.plan_delta.new_strokes, vec!['a', 'b']);
    assert_eq!(copy.plan_delta.strokes_to_destroy.into_entries(), vec![(LaneStrokeRef(3), 'z')]);
    assert_eq!((copy.selections, copy.intent), (7, 9));
}

#[test]
fn one_stroke_is_green_throughout() {
    let cliques = signal_cliques(1, &vec![vec![false]]);
    let timings = checked_signal_timings(1, cliques, &vec![1]).unwrap();
    assert_eq!(timings, vec![vec![true; 10]]);
}

#[test]
fn two_crossing_strokes_take_turns() {
    let cliques = signal_cliques(2, &vec![vec![false, false], vec![false, false]]);
    assert_eq!(cliques.len(), 2);
    let timings = checked_signal_timings(2, cliques, &vec![1, 1]).unwrap();
    let mut first = vec![true; 6];
    first.extend(vec![false; 14]);
    let mut second = vec![false; 10];
    second.extend(vec![true; 6]);
    second.extend(vec![false; 4]);
    assert_eq!(timings, vec![first, second]);
}

#[test]
fn plan_with_empty_delta_keeps_every_stroke() {
    let plan = Plan { strokes: vec!['a', 'b', 'c'] };
    let (new_plan, built) = plan.with_delta(&PlanDelta::new());
    assert_eq!(new_plan.strokes, vec!['a', 'b', 'c']);
    assert_eq!(
        built.mapping.into_entries(),
        vec![(LaneStrokeRef(0), 'a'), (LaneStrokeRef(1), 'b'), (LaneStrokeRef(2), 'c')]
    );
}
