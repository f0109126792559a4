//! Tasks of household members and the scheduler that ends them on time.
use vstd::prelude::*;
use crate::kay::ID;
use crate::simulation::Timestamp;
use super::MemberIdx;

verus! {

/// What a household member is doing.
#[derive(Clone, Copy, PartialEq, Eq, Debug)]
pub enum TaskState {
    GettingReadyAt(ID),
    InTrip(ID),
    DoingFromToAt(usize, usize, ID),
    IdleAt(ID),
}

/// A member's task: the offer it fulfils and its state.
#[derive(Clone, Copy, PartialEq, Eq, Debug)]
pub struct Task {
    pub offer: ID,
    pub state: TaskState,
}

/// Asks the scheduler to end the task of `member` of household `ID` at the timestamp.
#[derive(Clone, Copy, Debug)]
pub struct ScheduleTaskEnd(pub Timestamp, pub ID, pub MemberIdx);

/// How a member's task ended.
#[derive(Clone, Copy, Debug)]
pub enum Complete {
    Success { member: MemberIdx },
    Failure { member: MemberIdx, location: ID },
}

/// Every scheduled end fits in an `isize`, so that its key can be computed.
pub open spec fn ends_fit(task_ends: Seq<(Timestamp, ID, MemberIdx)>) -> bool {
    forall|k: int| 0 <= k < task_ends.len() ==> #[trigger] task_ends[k].0 .0 <= isize::MAX
}

/// Where a new end `end` goes among `task_ends`: the ends are searched by their
/// negated value for the value `end` itself, so a positive end matches none
/// and goes last, while an end of zero may also land on an end of zero.
pub open spec fn insert_position(task_ends: Seq<(Timestamp, ID, MemberIdx)>, end: Timestamp, i: int) -> bool {
    &&& 0 <= i <= task_ends.len()
    &&& i == task_ends.len() || (end.0 == 0 && task_ends[i].0 .0 == 0)
}

/// Keeps the scheduled ends of tasks; the last entry is the next one checked.
#[derive(Default)]
pub struct TaskEndScheduler {
    task_ends: Vec<(Timestamp, ID, MemberIdx)>,
}

impl TaskEndScheduler {
    /// The scheduled ends; the last one is checked first.
    pub closed spec fn task_ends(&self) -> Seq<(Timestamp, ID, MemberIdx)> {
        self.task_ends@
    }

    pub open spec fn wf(&self) -> bool {
        ends_fit(self.task_ends())
    }

    /// A scheduler with nothing scheduled.
    pub fn new() -> (s: Self)
        ensures
            s.wf(),
            s.task_ends() == Seq::<(Timestamp, ID, MemberIdx)>::empty(),
    {
        TaskEndScheduler { task_ends: Vec::new() }
    }

    /// Schedules the end of `member`'s task in household `task_id` at `end`.
    /// The insertion index is found by a binary search for `end` over the
    /// negated ends; as the negated ends are never above the searched value,
    /// the entry goes last unless `end` is zero and the search hits another
    /// end of zero, where it goes before that entry.
    pub fn schedule_task_end(&mut self, msg: &ScheduleTaskEnd)
        requires
            old(self).wf(),
            msg.0 .0 <= isize::MAX,
        ensures
            final(self).wf(),
            exists|i: int|
                insert_position(old(self).task_ends(), msg.0, i) && final(self).task_ends()
                    == old(self).task_ends().insert(i, (msg.0, msg.1, msg.2)),
    {
        let ScheduleTaskEnd(end, task_id, member) = *msg;
        let target: isize = end.0 as isize;
        let mut lo: usize = 0;
        let mut hi: usize = self.task_ends.len();
        let mut found: Option<usize> = None;
        while lo < hi && found.is_none()
            invariant
                lo <= hi == self.task_ends@.len(),
                self.wf(),
                target as int == end.0 as int,
                found matches Some(f) ==> f < self.task_ends@.len() && end.0 == 0 && self.task_ends@[f as int].0 .0 == 0,
            decreases hi - lo + (if found is None { 1int } else { 0int }),
        {
            let mid = lo + (hi - lo) / 2;
            let e = self.task_ends[mid].0;
            proof {
                assert(self.task_ends@[mid as int].0 .0 <= isize::MAX);
            }
            let mid_key: isize = -(e.0 as isize);
            if mid_key < target {
                lo = mid + 1;
            } else if mid_key > target {
                hi = mid;
            } else {
                found = Some(mid);
            }
        }
        let idx: usize = match found {
            Some(f) => f,
            None => lo,
        };
        let ghost before = self.task_ends@;
        self.task_ends.insert(idx, (end, task_id, member));
        proof {
            assert(self.task_ends@ == before.insert(idx as int, (end, task_id, member)));
            assert(insert_position(before, end, idx as int));
            assert forall|k: int| 0 <= k < self.task_ends@.len() implies #[trigger] self.task_ends@[k].0 .0
                <= isize::MAX by {
                if k > idx as int {
                    assert(self.task_ends@[k] == before[k - 1]);
                } else if k < idx as int {
                    assert(self.task_ends@[k] == before[k]);
                }
            }
        }
    }

    /// Ends, as of tick `current_tick`, the tasks at the back whose end lies
    /// before it: takes entries from the back while the last entry's end is
    /// before `current_tick`, and returns for each the household to notify
    /// and the message it gets.
    pub fn tick(&mut self, current_tick: Timestamp) -> (done: Vec<(ID, Complete)>)
        requires
            old(self).wf(),
        ensures
            final(self).wf(),
            done@.len() <= old(self).task_ends().len(),
            final(self).task_ends() == old(self).task_ends().subrange(
                0,
                old(self).task_ends().len() - done@.len(),
            ),
            forall|k: int|
                0 <= k < done@.len() ==> {
                    let e = #[trigger] old(self).task_ends()[old(self).task_ends().len() - 1 - k];
                    &&& e.0 .0 < current_tick.0
                    &&& done@[k].0 == e.1
                    &&& done@[k].1 == (Complete::Success { member: e.2 })
                },
            final(self).task_ends().len() > 0 ==> final(self).task_ends().last().0 .0 >= current_tick.0,
    {
        let ghost before = self.task_ends@;
        let mut done: Vec<(ID, Complete)> = Vec::new();
        while self.task_ends.len() > 0 && self.task_ends[self.task_ends.len() - 1].0 .0 < current_tick.0
            invariant
                done@.len() + self.task_ends@.len() == before.len(),
                self.task_ends@ == before.subrange(0, self.task_ends@.len() as int),
                ends_fit(before),
                forall|k: int|
                    0 <= k < done@.len() ==> {
                        let e = #[trigger] before[before.len() - 1 - k];
                        &&& e.0 .0 < current_tick.0
                        &&& done@[k].0 == e.1
                        &&& done@[k].1 == (Complete::Success { member: e.2 })
                    },
            decreases self.task_ends@.len(),
        {
            let (_end, id, member) = self.task_ends.pop().unwrap();
            done.push((id, Complete::Success { member }));
        }
        done
    }
}

/// The task end scheduler as it starts: with nothing scheduled.
pub fn setup() -> (scheduler: TaskEndScheduler)
    ensures
        scheduler.wf(),
        scheduler.task_ends() == Seq::<(Timestamp, ID, MemberIdx)>::empty(),
{
    TaskEndScheduler::new()
}

/// A member's task after `result` arrives: idle where the task took place on
/// success, idle at the reported location on failure.
pub open spec fn completed_state(state: TaskState, result: Complete) -> TaskState {
    match result {
        Complete::Success { .. } => match state {
            TaskState::DoingFromToAt(_, _, location) => TaskState::IdleAt(location),
            _ => state,
        },
        Complete::Failure { location, .. } => TaskState::IdleAt(location),
    }
}

/// The member a completion is about.
pub open spec fn completed_member(result: Complete) -> MemberIdx {
    match result {
        Complete::Success { member } => member,
        Complete::Failure { member, .. } => member,
    }
}

/// Applies a task completion to a household's member tasks. A successful
/// completion is only valid for a member who is doing a task. The household
/// then asks to be woken up right away (done by the caller).
pub fn complete_task(member_tasks: &mut Vec<Task>, result: Complete)
    requires
        completed_member(result).0 < old(member_tasks)@.len(),
        result is Success ==> old(member_tasks)@[completed_member(result).0 as int].state is DoingFromToAt,
    ensures
        final(member_tasks)@ == old(member_tasks)@.update(
            completed_member(result).0 as int,
            Task {
                offer: old(member_tasks)@[completed_member(result).0 as int].offer,
                state: completed_state(old(member_tasks)@[completed_member(result).0 as int].state, result),
            },
        ),
{
    match result {
        Complete::Success { member } => {
            let task = member_tasks[member.0];
            match task.state {
                TaskState::DoingFromToAt(_, _, location) => {
                    member_tasks.set(member.0, Task { offer: task.offer, state: TaskState::IdleAt(location) });
                },
                _ => {
                    proof {
                        assert(false);
                    }
                },
            }
        },
        Complete::Failure { member, location } => {
            let task = member_tasks[member.0];
            member_tasks.set(member.0, Task { offer: task.offer, state: TaskState::IdleAt(location) });
        },
    }
}

} // verus!
