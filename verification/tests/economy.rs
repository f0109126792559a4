use citybound::economy::grid_example::{self, GridExample, PleaseRegister, RegisterInGrid, GRID_SIZE};
use citybound::economy::households::tasks::{
    self, complete_task, Complete, ScheduleTaskEnd, Task, TaskEndScheduler, TaskState,
};
use citybound::economy::households::{DecisionResourceEntry, DecisionState, Family, MemberIdx, TaskQuery};
use citybound::economy::market::{
    Deal, EvaluatedDeal, EvaluatedSearchResult, Evaluate, Evaluation, GetApplicableDeal, Offer, StartedUsing,
    StoppedUsing, TripCostEstimator,
};
use citybound::economy::resources::{Bag, ResourceId, ResourceRegistry};
use citybound::kay::{CDict, Fate, ID};
use citybound::lanes_and_cars::pathfinding::trip::CreatedTrip;
use citybound::lanes_and_cars::pathfinding::{Destination, TellAsDestination};
use citybound::simulation::{DurationSeconds, TimeOfDay, Timestamp};

fn eid(n: u32) -> ID {
    ID::new(1, 0, n)
}

#[test]
fn registry_ids_in_order_and_renaming() {
    let mut r = ResourceRegistry::new();
    r.add("wakefulness", "being awake");
    r.add("time", "time of day");
    assert_eq!(r.id("wakefulness"), ResourceId(0));
    assert_eq!(r.id("time"), ResourceId(1));
    r.add("wakefulness", "again");
    assert_eq!(r.id("wakefulness"), ResourceId(2));
}

#[test]
fn bag_entries_sorted_and_defaults() {
    let mut bag = Bag::new();
    assert_eq!(bag.get(ResourceId(4)), None);
    *bag.mut_entry_or(ResourceId(4), 7) += 1;
    *bag.mut_entry_or(ResourceId(2), 100) = 3;
    assert_eq!(bag.get(ResourceId(4)), Some(&8));
    assert_eq!(bag.get(ResourceId(2)), Some(&3));
    assert_eq!(*bag.mut_entry_or(ResourceId(4), 0), 8);
    assert_eq!(*bag.mut_entry_or_id(ResourceId(9), 55), 55);
    let copy = bag.duplicate();
    assert_eq!(copy.get(ResourceId(9)), Some(&55));
    assert_eq!(copy.get(ResourceId(2)), Some(&3));
}

#[test]
fn scheduler_appends_positive_ends() {
    let mut s = TaskEndScheduler::new();
    s.schedule_task_end(&ScheduleTaskEnd(Timestamp(5), eid(1), MemberIdx(0)));
    s.schedule_task_end(&ScheduleTaskEnd(Timestamp(3), eid(2), MemberIdx(1)));
    // the last scheduled is checked first: ends 5 and 3, due before tick 4
    // is only the last one
    let done = s.tick(Timestamp(4));
    assert_eq!(done.len(), 1);
    assert_eq!(done[0].0, eid(2));
    assert!(matches!(done[0].1, Complete::Success { member: MemberIdx(1) }));
    // the end 5 is now last, due before tick 6
    let done = s.tick(Timestamp(6));
    assert_eq!(done.len(), 1);
    assert_eq!(done[0].0, eid(1));
    assert_eq!(s.tick(Timestamp(100)).len(), 0);
}

#[test]
fn scheduler_tick_stops_at_first_not_due() {
    let mut s = tasks::setup();
    s.schedule_task_end(&ScheduleTaskEnd(Timestamp(2), eid(1), MemberIdx(0)));
    s.schedule_task_end(&ScheduleTaskEnd(Timestamp(9), eid(2), MemberIdx(0)));
    // the last entry (end 9) is not due at tick 5, so nothing is completed
    assert_eq!(s.tick(Timestamp(5)).len(), 0);
    let done = s.tick(Timestamp(10));
    assert_eq!(done.iter().map(|d| d.0).collect::<Vec<_>>(), vec![eid(2), eid(1)]);
}

#[test]
fn complete_task_success_and_failure() {
    let mut tasks_of = vec![
        Task { offer: eid(9), state: TaskState::DoingFromToAt(1, 2, eid(30)) },
        Task { offer: eid(8), state: TaskState::InTrip(eid(40)) },
    ];
    complete_task(&mut tasks_of, Complete::Success { member: MemberIdx(0) });
    assert_eq!(tasks_of[0], Task { offer: eid(9), state: TaskState::IdleAt(eid(30)) });
    complete_task(&mut tasks_of, Complete::Failure { member: MemberIdx(1), location: eid(50) });
    assert_eq!(tasks_of[1], Task { offer: eid(8), state: TaskState::IdleAt(eid(50)) });
}

fn deal() -> Deal {
    let mut take = Bag::new();
    *take.mut_entry_or(ResourceId(1), 0) = 10;
    Deal { duration: DurationSeconds(60), take, give: (ResourceId(3), 2) }
}

fn offer() -> Offer {
    Offer { by: eid(1), location: eid(2), from: TimeOfDay(100), to: TimeOfDay(200), deal: deal(), users: Vec::new() }
}

#[test]
fn offer_evaluates_before_its_end() {
    let o = offer();
    match o.evaluate(eid(77), &Evaluate { time: TimeOfDay(150), location: eid(5), requester: eid(6) }) {
        Evaluation::Estimate(est) => {
            assert_eq!(est.requester, eid(6));
            assert_eq!(est.rough_source, eid(5));
            assert_eq!(est.rough_destination, eid(2));
            assert_eq!(est.base_result.resource, ResourceId(3));
            assert_eq!(est.base_result.n_to_expect, 1);
            assert_eq!(est.base_result.some_results.len(), 1);
            assert_eq!(est.base_result.some_results[0].offer, eid(77));
            assert_eq!(est.base_result.some_results[0].from, TimeOfDay(100));
            assert_eq!(est.base_result.some_results[0].deal.take.get(ResourceId(1)), Some(&10));
        }
        Evaluation::Unavailable(..) => panic!("should be available"),
    }
}

#[test]
fn offer_unavailable_after_its_end() {
    let o = offer();
    match o.evaluate(eid(77), &Evaluate { time: TimeOfDay(200), location: eid(5), requester: eid(6) }) {
        Evaluation::Unavailable(to, result) => {
            assert_eq!(to, eid(6));
            assert_eq!(result.resource, ResourceId(3));
            assert_eq!(result.n_to_expect, 0);
            assert!(result.some_results.is_empty());
        }
        Evaluation::Estimate(_) => panic!("should be unavailable"),
    }
}

#[test]
fn offer_gives_its_deal_and_tracks_users() {
    let mut o = offer();
    let (to, applicable) = o.get_applicable_deal(&GetApplicableDeal(eid(4), MemberIdx(2)));
    assert_eq!(to, eid(4));
    assert_eq!(applicable.1, MemberIdx(2));
    assert_eq!(applicable.0.give, (ResourceId(3), 2));
    o.started_using(&StartedUsing(eid(4), Some(MemberIdx(2))));
    o.started_using(&StartedUsing(eid(5), None));
    o.started_using(&StartedUsing(eid(4), Some(MemberIdx(2))));
    o.stopped_using(&StoppedUsing(eid(4), Some(MemberIdx(2))));
    assert_eq!(o.users, vec![(eid(5), None)]);
    o.stopped_using(&StoppedUsing(eid(5), Some(MemberIdx(0))));
    assert_eq!(o.users, vec![(eid(5), None)]);
}

fn estimator() -> TripCostEstimator {
    let result = EvaluatedSearchResult {
        resource: ResourceId(3),
        n_to_expect: 1,
        some_results: vec![EvaluatedDeal { offer: eid(77), deal: deal(), from: TimeOfDay(100), to: TimeOfDay(200) }],
    };
    TripCostEstimator::new(eid(6), eid(10), eid(20), result)
}

#[test]
fn estimator_queries_both_ends_then_asks_distance() {
    let mut e = estimator();
    let (q1, q2) = e.on_create(eid(90));
    assert_eq!(q1.0, eid(10));
    assert_eq!(q1.1.rough_destination, eid(10));
    assert_eq!(q1.1.requester, eid(90));
    assert_eq!(q2.0, eid(20));
    assert!(q2.1.tick.is_none());
    let source = Destination { landmark: eid(11), node: eid(10) };
    let destination = Destination { landmark: eid(21), node: eid(20) };
    let ask = e.on_tell_as_destination(eid(90), &TellAsDestination {
        rough_destination: eid(20),
        as_destination: Some(destination),
        tick: None,
    });
    assert!(ask.is_none());
    let ask = e.on_tell_as_destination(eid(90), &TellAsDestination {
        rough_destination: eid(10),
        as_destination: Some(source),
        tick: None,
    });
    let (to, get) = ask.unwrap();
    assert_eq!(to, eid(10));
    assert_eq!(get.destination, destination);
    assert_eq!(get.requester, eid(90));
}

#[test]
fn estimator_adds_travel_time() {
    let e = estimator();
    let ((to, result), fate) = e.on_distance_info(Some(DurationSeconds(30)));
    assert_eq!(to, eid(6));
    assert_eq!(fate, Fate::Die);
    assert_eq!(result.n_to_expect, 1);
    assert_eq!(result.some_results[0].deal.duration, DurationSeconds(90));
    assert_eq!(result.some_results[0].from, TimeOfDay(70));
    assert_eq!(result.some_results[0].to, TimeOfDay(170));
    let ((_, result), _) = estimator().on_distance_info(None);
    assert_eq!(result.n_to_expect, 0);
    assert!(result.some_results.is_empty());
}

#[test]
fn grid_setup_requests_every_cell() {
    let (grid, requests) = grid_example::setup(4);
    assert_eq!(grid.grid_size, GRID_SIZE);
    assert_eq!(grid.grid_created_count, 0);
    assert_eq!(requests.len(), 9);
    assert_eq!(requests[0].1, PleaseRegister(0, 0));
    assert_eq!(requests[5].1, PleaseRegister(2, 1));
    assert!(requests.iter().all(|r| r.0 < 4));
}

#[test]
fn grid_connects_neighbours_when_complete() {
    let mut grid = GridExample::new();
    let mut done = None;
    for y in 0..3 {
        for x in 0..3 {
            let place = eid((10 * y + x) as u32);
            done = grid.register(&RegisterInGrid(place, x, y));
            if !(x == 2 && y == 2) {
                assert!(done.is_none());
            }
        }
    }
    let (roads, start) = done.unwrap();
    assert_eq!(start, eid(0));
    assert_eq!(roads.len(), 16);
    assert_eq!(roads[0], (eid(0), eid(1)));
    assert_eq!(roads[1], (eid(0), eid(10)));
    assert_eq!(roads[2], (eid(1), eid(0)));
    assert_eq!(roads[3], (eid(10), eid(0)));
    assert_eq!(roads[15], (eid(21), eid(11)));
}

fn family() -> Family {
    let mut used = CDict::new();
    used.insert(ResourceId(1), eid(100));
    let mut member_used = CDict::new();
    member_used.insert(ResourceId(2), eid(200));
    Family {
        resources: Bag::new(),
        member_resources: vec![Bag::new(), Bag::new()],
        member_tasks: vec![
            Task { offer: eid(1), state: TaskState::InTrip(eid(55)) },
            Task { offer: eid(2), state: TaskState::IdleAt(eid(60)) },
        ],
        decision_state: DecisionState::Idle,
        used_offers: used,
        member_used_offers: vec![CDict::new(), member_used],
    }
}

#[test]
fn family_wakes_first_idle_member() {
    let f = family();
    assert_eq!(f.wake(), Some((MemberIdx(1), eid(60))));
}

#[test]
fn family_looks_for_tasks_and_considers_deals() {
    let mut f = family();
    let problems = vec![(ResourceId(1), true), (ResourceId(2), false), (ResourceId(3), false)];
    let queries = f.find_new_task_for(eid(9), MemberIdx(1), Timestamp(7), TimeOfDay(30), eid(60), &problems);
    assert_eq!(queries.len(), 3);
    match queries[0] {
        TaskQuery::Evaluate(offer, ev) => {
            assert_eq!(offer, eid(100));
            assert_eq!(ev.requester, eid(9));
        }
        _ => panic!("shared supplier in use should be evaluated"),
    }
    match queries[1] {
        TaskQuery::Evaluate(offer, _) => assert_eq!(offer, eid(200)),
        _ => panic!("member's supplier in use should be evaluated"),
    }
    match queries[2] {
        TaskQuery::Search(search) => assert_eq!(search.resource, ResourceId(3)),
        _ => panic!("unknown supplier should be searched"),
    }
    let d = |r: u16, offer: u32| EvaluatedDeal {
        offer: eid(offer),
        deal: Deal { duration: DurationSeconds(1), take: Bag::new(), give: (ResourceId(r), 1) },
        from: TimeOfDay(0),
        to: TimeOfDay(10),
    };
    assert!(!f.add_into_consideration(&d(1, 100), 1));
    assert!(!f.add_into_consideration(&d(2, 200), 2));
    assert!(!f.add_into_consideration(&d(3, 300), 1));
    assert!(f.add_into_consideration(&d(2, 201), 2));
    match &f.decision_state {
        DecisionState::Choosing(member, tick, entries) => {
            assert_eq!(*member, MemberIdx(1));
            assert_eq!(*tick, Timestamp(7));
            let e: &DecisionResourceEntry = entries.get(ResourceId(2)).unwrap();
            assert_eq!(e.n_deals_expected, 2);
            assert_eq!(e.deals.len(), 2);
            assert_eq!(e.deals[1].offer, eid(201));
            assert_eq!(e.deals[1].deal.duration, DurationSeconds(1));
            assert_eq!(e.deals[1].deal.give, (ResourceId(2), 1));
        }
        _ => panic!("should be choosing"),
    }
}

#[test]
fn family_chooses_deal_and_starts_trip() {
    let mut f = family();
    let problems = vec![(ResourceId(3), false)];
    let _ = f.find_new_task_for(eid(9), MemberIdx(1), Timestamp(7), TimeOfDay(30), eid(60), &problems);
    let d = |offer: u32| EvaluatedDeal {
        offer: eid(offer),
        deal: Deal { duration: DurationSeconds(1), take: Bag::new(), give: (ResourceId(3), 1) },
        from: TimeOfDay(0),
        to: TimeOfDay(10),
    };
    assert!(!f.add_into_consideration(&d(300), 2));
    assert!(f.add_into_consideration(&d(301), 2));
    let (trip, start) = f.choose_deal((0, 1), eid(9));
    assert_eq!(f.member_tasks[1], Task { offer: eid(301), state: TaskState::GettingReadyAt(eid(60)) });
    assert!(matches!(f.decision_state, DecisionState::WaitingForTrip(MemberIdx(1))));
    assert_eq!(trip.source, eid(60));
    assert_eq!(trip.rough_destination, eid(301));
    assert_eq!(trip.listener, Some(eid(9)));
    assert!(trip.destination.is_none());
    assert_eq!(start.0, Timestamp(7));
    let (again, _) = f.start_trip(MemberIdx(1), Timestamp(8), eid(9));
    assert_eq!(again.rough_destination, eid(301));
}

#[test]
fn family_trip_created_and_members_in_trip() {
    let mut f = family();
    f.decision_state = DecisionState::WaitingForTrip(MemberIdx(1));
    f.created_trip(&CreatedTrip(eid(55)));
    assert!(matches!(f.decision_state, DecisionState::Idle));
    assert_eq!(f.member_tasks[1], Task { offer: eid(2), state: TaskState::InTrip(eid(55)) });
    assert_eq!(f.trip_members(eid(55)), vec![MemberIdx(0), MemberIdx(1)]);
    assert!(f.trip_members(eid(56)).is_empty());
}

use citybound::economy::activities_places::{next_place, please_register, Destination as ActivityDestination};

#[test]
fn places_register_and_lead_on() {
    let r = please_register(eid(5), &PleaseRegister(1, 2));
    assert_eq!(r.0, eid(5));
    assert_eq!(r.1, 1);
    assert_eq!(r.2, 2);
    assert_eq!(next_place(ActivityDestination::Stay, eid(5)), eid(5));
    assert_eq!(next_place(ActivityDestination::Move(eid(6)), eid(5)), eid(6));
}
