use citybound::economy::market::{Deal, Offer};
use citybound::economy::resources::{Bag, ResourceId};
use citybound::kay::compact_dict::CDict;
use citybound::kay::swarm::LivingActor;
use citybound::kay::{Compact, Swarm, BROADCAST_INSTANCE_ID, ID};
use citybound::lanes_and_cars::planning::current_plan::SelectableStrokeRef;
use citybound::lanes_and_cars::planning::lane_stroke_draggable::{Become, LaneStrokeDraggable};
use citybound::lanes_and_cars::planning::plan::LaneStrokeRef;
use citybound::simulation::{DurationSeconds, TimeOfDay};

type Draggable = LaneStrokeDraggable<u64>;

fn draggable(path: u64) -> Draggable {
    LaneStrokeDraggable::new(SelectableStrokeRef::New(0), path)
}

fn spawn(swarm: &mut Swarm<Draggable>, path: u64) -> u32 {
    let id = swarm.allocate_instance_id();
    swarm.add(LivingActor { id: ID::new(7, 0, id), state: draggable(path) });
    id
}

fn offer(n_users: usize) -> Offer {
    Offer {
        by: ID::new(1, 0, 1),
        location: ID::new(1, 0, 2),
        from: TimeOfDay(0),
        to: TimeOfDay(10),
        deal: Deal { duration: DurationSeconds(1), take: Bag::new(), give: (ResourceId(0), 0) },
        users: (0..n_users).map(|k| (ID::new(3, 0, k as u32), None)).collect(),
    }
}

#[test]
fn id_new_broadcast_and_same() {
    let id = ID::new(3, 1, 42);
    assert_eq!(id.type_id, 3);
    assert_eq!(id.version, 1);
    assert_eq!(id.instance_id, 42);
    assert!(!id.is_broadcast());
    let all = id.broadcast();
    assert!(all.is_broadcast());
    assert_eq!(all.instance_id, BROADCAST_INSTANCE_ID);
    assert_eq!(all.type_id, 3);
    assert!(id.same(&ID::new(3, 1, 42)));
    assert!(!id.same(&all));
}

#[test]
fn swarm_allocates_ids_in_order() {
    let mut swarm: Swarm<Draggable> = Swarm::new(32);
    assert_eq!(swarm.allocate_instance_id(), 0);
    assert_eq!(swarm.allocate_instance_id(), 1);
    assert_eq!(swarm.allocate_instance_id(), 2);
}

#[test]
fn swarm_add_then_at() {
    let mut swarm: Swarm<Draggable> = Swarm::new(32);
    let a = spawn(&mut swarm, 10);
    let b = spawn(&mut swarm, 20);
    assert_eq!(swarm.at(a as usize).id.instance_id, a);
    assert_eq!(swarm.at(a as usize).state.path, 10);
    assert_eq!(swarm.at(b as usize).state.path, 20);
}

#[test]
fn swarm_removed_id_is_reused() {
    let mut swarm: Swarm<Draggable> = Swarm::new(32);
    let _a = spawn(&mut swarm, 1);
    let b = spawn(&mut swarm, 2);
    let c = spawn(&mut swarm, 3);
    swarm.remove(b as usize);
    assert_eq!(swarm.at(c as usize).state.path, 3);
    assert_eq!(swarm.allocate_instance_id(), b);
}

#[test]
fn swarm_receive_instance_reaches_only_that_instance() {
    let mut swarm: Swarm<Draggable> = Swarm::new(32);
    let a = spawn(&mut swarm, 1);
    let b = spawn(&mut swarm, 2);
    let to = SelectableStrokeRef::Built(LaneStrokeRef(4));
    swarm.receive_instance(&Become(to), ID::new(7, 0, b));
    assert_eq!(swarm.at(a as usize).state.stroke_ref, SelectableStrokeRef::New(0));
    assert_eq!(swarm.at(b as usize).state.stroke_ref, to);
    assert_eq!(swarm.at(b as usize).state.path, 2);
}

#[test]
fn swarm_broadcast_reaches_each_instance() {
    let mut swarm: Swarm<Draggable> = Swarm::new(8);
    let ids: Vec<u32> = (0..5).map(|k| spawn(&mut swarm, k)).collect();
    let to = SelectableStrokeRef::Built(LaneStrokeRef(1));
    swarm.receive_broadcast(&Become(to));
    for (k, id) in ids.iter().enumerate() {
        assert_eq!(swarm.at(*id as usize).state.stroke_ref, to);
        assert_eq!(swarm.at(*id as usize).state.path, k as u64);
    }
}

#[test]
fn swarm_receive_dispatches_on_broadcast_address() {
    let mut swarm: Swarm<Draggable> = Swarm::new(32);
    let a = spawn(&mut swarm, 1);
    let b = spawn(&mut swarm, 2);
    let first = SelectableStrokeRef::New(5);
    swarm.receive(&Become(first), ID::new(7, 0, a));
    assert_eq!(swarm.at(a as usize).state.stroke_ref, first);
    assert_eq!(swarm.at(b as usize).state.stroke_ref, SelectableStrokeRef::New(0));
    let second = SelectableStrokeRef::New(6);
    swarm.receive(&Become(second), ID::new(7, 0, a).broadcast());
    assert_eq!(swarm.at(a as usize).state.stroke_ref, second);
    assert_eq!(swarm.at(b as usize).state.stroke_ref, second);
}

#[test]
fn swarm_instances_move_between_size_classes() {
    let mut swarm: Swarm<Offer> = Swarm::new(64);
    let mut ids = Vec::new();
    for _ in 0..4 {
        let id = swarm.allocate_instance_id();
        swarm.add(LivingActor { id: ID::new(8, 0, id), state: offer(0) });
        ids.push(id);
    }
    {
        let grown = swarm.at_mut(ids[1] as usize);
        grown.state.users = offer(50).users;
    }
    swarm.resize(ids[1] as usize);
    assert_eq!(swarm.at(ids[1] as usize).state.users.len(), 50);
    assert!(swarm.at(ids[1] as usize).state.total_size_bytes() > std::mem::size_of::<Offer>());
    for k in [0usize, 2, 3] {
        assert_eq!(swarm.at(ids[k] as usize).state.users.len(), 0);
        assert_eq!(swarm.at(ids[k] as usize).id.instance_id, ids[k]);
    }
    swarm.remove(ids[0] as usize);
    assert_eq!(swarm.at(ids[1] as usize).state.users.len(), 50);
    assert_eq!(swarm.at(ids[3] as usize).id.instance_id, ids[3]);
}

#[test]
fn cdict_insert_get_remove() {
    let mut d: CDict<usize, &str> = CDict::new();
    assert_eq!(d.insert(3, "c"), None);
    assert_eq!(d.insert(1, "a"), None);
    assert_eq!(d.insert(3, "C"), Some("c"));
    assert_eq!(d.len(), 2);
    assert_eq!(d.get(3), Some(&"C"));
    assert_eq!(d.position(1), Some(1));
    assert!(d.contains_key(1));
    assert_eq!(d.remove(3), Some("C"));
    assert_eq!(d.remove(3), None);
    assert!(!d.contains_key(3));
    assert_eq!(*d.pair_at(0), (1, "a"));
    assert_eq!(d.into_entries(), vec![(1, "a")]);
}

#[test]
fn cdict_push_at_and_values_at() {
    let mut d: CDict<usize, Vec<u8>> = CDict::new();
    d.push_at(2, 10);
    d.push_at(5, 20);
    d.push_at(2, 11);
    assert_eq!(d.get(2), Some(&vec![10, 11]));
    assert_eq!(d.get(5), Some(&vec![20]));
    let old = d.replace_value_at(1, vec![1]);
    assert_eq!(old, vec![20]);
    d.set_value_at(0, vec![]);
    assert_eq!(d.into_entries(), vec![(2, vec![]), (5, vec![1])]);
}
