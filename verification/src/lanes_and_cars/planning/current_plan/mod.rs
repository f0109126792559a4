//! The plan being edited: its steps, with undo and redo.
use vstd::prelude::*;
use crate::kay::DictKey;
use super::plan::{cloned_entries, BuiltStrokes, LaneStrokeRef, PlanDelta};
use crate::kay::CDict;
use crate::kay::compact_dict::keys_of;

pub mod addable;

verus! {

/// Refers to a stroke that can be selected: a new stroke of the plan delta
/// by its index, or a built stroke by its reference.
#[derive(Clone, Copy, PartialEq, Eq, Debug, Structural)]
pub enum SelectableStrokeRef {
    New(usize),
    Built(LaneStrokeRef),
}

impl SelectableStrokeRef {
    /// The stroke referred to, among the new strokes of `plan_delta` and the
    /// `still_built_strokes`. It must exist.
    pub fn get_stroke<'a, S>(&self, plan_delta: &'a PlanDelta<S>, still_built_strokes: &'a BuiltStrokes<S>) -> (stroke: &'a S)
        requires
            still_built_strokes.mapping.wf(),
            match *self {
                SelectableStrokeRef::New(i) => i < plan_delta.new_strokes@.len(),
                SelectableStrokeRef::Built(r) => still_built_strokes.mapping.as_map().contains_key(r),
            },
        ensures
            *stroke == match *self {
                SelectableStrokeRef::New(i) => plan_delta.new_strokes@[i as int],
                SelectableStrokeRef::Built(r) => still_built_strokes.mapping.as_map()[r],
            },
    {
        match *self {
            SelectableStrokeRef::New(node_idx) => &plan_delta.new_strokes[node_idx],
            SelectableStrokeRef::Built(old_ref) => still_built_strokes.mapping.get(old_ref).unwrap(),
        }
    }
}

/// The strokes that can be selected, with their references: the new strokes
/// of `plan_delta`, in order, then the `still_built_strokes`, in order.
pub fn all_strokes<'a, S>(plan_delta: &'a PlanDelta<S>, still_built_strokes: &'a BuiltStrokes<S>) -> (all: Vec<
    (SelectableStrokeRef, &'a S),
>)
    ensures
        all@.len() == plan_delta.new_strokes@.len() + still_built_strokes.mapping.entries().len(),
        forall|i: int|
            0 <= i < plan_delta.new_strokes@.len() ==> #[trigger] all@[i] == (
                SelectableStrokeRef::New(i as usize),
                &plan_delta.new_strokes@[i],
            ),
        forall|j: int|
            0 <= j < still_built_strokes.mapping.entries().len() ==> #[trigger] all@[plan_delta.new_strokes@.len() + j]
                == (
                SelectableStrokeRef::Built(still_built_strokes.mapping.entries()[j].0),
                &still_built_strokes.mapping.entries()[j].1,
            ),
{
    let mut all: Vec<(SelectableStrokeRef, &'a S)> = Vec::new();
    let mut i: usize = 0;
    while i < plan_delta.new_strokes.len()
        invariant
            i <= plan_delta.new_strokes@.len(),
            all@.len() == i,
            forall|k: int|
                0 <= k < i ==> #[trigger] all@[k] == (SelectableStrokeRef::New(k as usize), &plan_delta.new_strokes@[k]),
        decreases plan_delta.new_strokes@.len() - i,
    {
        all.push((SelectableStrokeRef::New(i), &plan_delta.new_strokes[i]));
        i = i + 1;
    }
    let n = plan_delta.new_strokes.len();
    let mut j: usize = 0;
    while j < still_built_strokes.mapping.len()
        invariant
            n == plan_delta.new_strokes@.len(),
            j <= still_built_strokes.mapping.entries().len(),
            all@.len() == n + j,
            forall|k: int|
                0 <= k < n ==> #[trigger] all@[k] == (SelectableStrokeRef::New(k as usize), &plan_delta.new_strokes@[k]),
            forall|k: int|
                0 <= k < j ==> #[trigger] all@[n + k] == (
                    SelectableStrokeRef::Built(still_built_strokes.mapping.entries()[k].0),
                    &still_built_strokes.mapping.entries()[k].1,
                ),
        decreases still_built_strokes.mapping.entries().len() - j,
    {
        let pair = still_built_strokes.mapping.pair_at(j);
        all.push((SelectableStrokeRef::Built(pair.0), &pair.1));
        j = j + 1;
    }
    all
}

impl DictKey for SelectableStrokeRef {
    fn key_eq(&self, other: &Self) -> (b: bool) {
        match (*self, *other) {
            (SelectableStrokeRef::New(a), SelectableStrokeRef::New(b)) => a == b,
            (SelectableStrokeRef::Built(a), SelectableStrokeRef::Built(b)) => a.0 == b.0,
            _ => false,
        }
    }
}

/// Whether a road is continued at its end or at its start.
#[derive(Clone, Copy, PartialEq, Eq, Debug, Structural)]
pub enum ContinuationMode {
    Append,
    Prepend,
}

/// How new roads are drawn and what a selection extends to.
#[derive(Clone, Copy, PartialEq, Eq, Debug, Structural)]
pub struct Settings {
    pub n_lanes_per_side: usize,
    pub create_both_sides: bool,
    pub select_parallel: bool,
    pub select_opposite: bool,
}

impl Default for Settings {
    /// Two lanes on each side, both sides, selections extending to parallel
    /// and opposite lanes.
    fn default() -> (s: Settings)
        ensures
            s == (Settings { create_both_sides: true, n_lanes_per_side: 2, select_parallel: true, select_opposite: true }),
    {
        Settings { create_both_sides: true, n_lanes_per_side: 2, select_parallel: true, select_opposite: true }
    }
}

/// How far an intent has come: only previewed, an intermediate step, done,
/// or done at once.
#[derive(Clone, Copy, PartialEq, Eq, Debug, Structural)]
pub enum IntentProgress {
    Preview,
    SubStep,
    Finished,
    Immediate,
}

/// Goes back one step.
#[derive(Clone, Copy, Debug)]
pub struct Undo;

/// Goes forward again one undone step.
#[derive(Clone, Copy, Debug)]
pub struct Redo;

/// Sets the number of lanes per side of new roads.
#[derive(Clone, Copy, Debug)]
pub struct SetNLanes(pub usize);

/// Toggles whether new roads get lanes on both sides.
#[derive(Clone, Copy, Debug)]
pub struct ToggleBothSides;

/// Builds the current plan.
#[derive(Clone, Copy, Debug)]
pub struct Materialize;

/// Asks an interactable to show itself.
#[derive(Clone, Copy, Debug)]
pub struct InitInteractable;

/// Asks an interactable to go away.
#[derive(Clone, Copy, Debug)]
pub struct ClearInteractable;

/// One state of the edited plan: the change to the built plan, the current
/// selections and the user's intent.
#[derive(Clone)]
pub struct PlanStep<S, L, I> {
    pub plan_delta: PlanDelta<S>,
    pub selections: L,
    pub intent: I,
}

/// `copy` is `orig` copied field by field: each new stroke, each stroke to
/// destroy (under the same reference, in the same order), the selections
/// and the intent a clone.
pub open spec fn step_copy<S: Clone, L: Clone, I: Clone>(orig: PlanStep<S, L, I>, copy: PlanStep<S, L, I>) -> bool {
    &&& copy.plan_delta.new_strokes@.len() == orig.plan_delta.new_strokes@.len()
    &&& forall|i: int|
        0 <= i < orig.plan_delta.new_strokes@.len() ==> cloned(
            orig.plan_delta.new_strokes@[i],
            #[trigger] copy.plan_delta.new_strokes@[i],
        )
    &&& cloned_entries(orig.plan_delta.strokes_to_destroy.entries(), copy.plan_delta.strokes_to_destroy.entries())
    &&& cloned(orig.selections, copy.selections)
    &&& cloned(orig.intent, copy.intent)
}

impl<S: Clone, L: Clone, I: Clone> PlanStep<S, L, I> {
    /// A copy of the step, field by field.
    pub fn duplicate(&self) -> (d: Self)
        ensures
            step_copy(*self, d),
            self.plan_delta.strokes_to_destroy.wf() ==> d.plan_delta.strokes_to_destroy.wf(),
    {
        let new_strokes = self.plan_delta.new_strokes.clone();
        let strokes_to_destroy = self.plan_delta.strokes_to_destroy.duplicate();
        let d = PlanStep {
            plan_delta: PlanDelta { new_strokes, strokes_to_destroy },
            selections: self.selections.clone(),
            intent: self.intent.clone(),
        };
        proof {
            assert(keys_of(d.plan_delta.strokes_to_destroy.entries()) == keys_of(
                self.plan_delta.strokes_to_destroy.entries(),
            ));
        }
        d
    }
}

/// The plan being edited. `S` are strokes, `L` selections, `I` intents and
/// `R` simulated result deltas.
pub struct CurrentPlan<S, L, I, R> {
    pub built_strokes: Option<BuiltStrokes<S>>,
    pub undo_history: Vec<PlanStep<S, L, I>>,
    pub redo_history: Vec<PlanStep<S, L, I>>,
    pub current: PlanStep<S, L, I>,
    pub preview: Option<PlanStep<S, L, I>>,
    pub preview_result_delta: Option<R>,
    pub preview_result_delta_rendered: bool,
    pub interactables_valid: bool,
    pub settings: Settings,
}

/// The editing history: steps to undo (the last one first), the current
/// step, and steps to redo (the last one first).
pub type History<T> = (Seq<T>, T, Seq<T>);

/// The history after committing: the current step is kept for undo, the
/// step `next` becomes current, and nothing is left to redo.
pub open spec fn spec_commit<T>(h: History<T>, next: T) -> History<T> {
    (h.0.push(h.1), next, Seq::empty())
}

/// The history after an undo: the last step to undo (or `blank` if there is
/// none) becomes current, and the current one is kept for redo.
pub open spec fn spec_undo<T>(h: History<T>, blank: T) -> History<T> {
    if h.0.len() > 0 {
        (h.0.drop_last(), h.0.last(), h.2.push(h.1))
    } else {
        (h.0, blank, h.2.push(h.1))
    }
}

/// The history after a redo: the last undone step becomes current, and the
/// current one is kept for undo; nothing changes if nothing was undone.
pub open spec fn spec_redo<T>(h: History<T>) -> History<T> {
    if h.2.len() > 0 {
        (h.0.push(h.1), h.2.last(), h.2.drop_last())
    } else {
        h
    }
}

/// Committing a step and undoing it gives back the step before, with the
/// committed step ready to be redone.
pub proof fn lemma_undo_reverts_commit<T>(h: History<T>, next: T, blank: T)
    ensures
        spec_undo(spec_commit(h, next), blank) == (h.0, h.1, seq![next]),
{
    assert(h.0.push(h.1).drop_last() =~= h.0);
    assert(Seq::<T>::empty().push(next) =~= seq![next]);
}

/// Redoing an undone step gives back the history before the undo, when there
/// was a step to undo.
pub proof fn lemma_redo_reverts_undo<T>(h: History<T>, blank: T)
    requires
        h.0.len() > 0,
    ensures
        spec_redo(spec_undo(h, blank)) == h,
{
    assert(h.0.drop_last().push(h.0.last()) =~= h.0);
    assert(h.2.push(h.1).drop_last() =~= h.2);
}

/// Undoing a redone step gives back the history before the redo, when there
/// was a step to redo.
pub proof fn lemma_undo_reverts_redo<T>(h: History<T>, blank: T)
    requires
        h.2.len() > 0,
    ensures
        spec_undo(spec_redo(h), blank) == h,
{
    assert(h.0.push(h.1).drop_last() =~= h.0);
    assert(h.2.drop_last().push(h.2.last()) =~= h.2);
}

/// The built strokes not destroyed by `delta`, in their order.
pub open spec fn not_destroyed<S>(delta: PlanDelta<S>) -> spec_fn((LaneStrokeRef, S)) -> bool {
    |e: (LaneStrokeRef, S)| !delta.strokes_to_destroy.as_map().contains_key(e.0)
}

impl<S, L, I, R> CurrentPlan<S, L, I, R> {
    /// The editing history of the plan.
    pub open spec fn history(&self) -> History<PlanStep<S, L, I>> {
        (self.undo_history@, self.current, self.redo_history@)
    }

    /// The plan is well formed where its dictionaries are.
    pub open spec fn wf(&self) -> bool {
        &&& self.current.plan_delta.strokes_to_destroy.wf()
        &&& self.built_strokes matches Some(b) ==> b.mapping.wf()
    }

    /// Everything but the history, the preview and the interactables'
    /// validity is as in `other`.
    pub open spec fn same_but_history(&self, other: &Self) -> bool {
        &&& self.built_strokes == other.built_strokes
        &&& self.preview_result_delta == other.preview_result_delta
        &&& self.preview_result_delta_rendered == other.preview_result_delta_rendered
        &&& self.settings == other.settings
    }

    /// A fresh plan: no built strokes known, nothing to undo or redo, an
    /// unchanged plan with the given selections and intent, default settings.
    pub fn new(selections: L, intent: I) -> (p: Self)
        ensures
            p.wf(),
            p.built_strokes is None,
            p.undo_history@.len() == 0,
            p.redo_history@.len() == 0,
            p.current.plan_delta.new_strokes@.len() == 0,
            p.current.plan_delta.strokes_to_destroy.entries().len() == 0,
            p.current.selections == selections,
            p.current.intent == intent,
            p.preview is None,
            p.preview_result_delta is None,
            !p.preview_result_delta_rendered,
            !p.interactables_valid,
            p.settings == (Settings {
                create_both_sides: true,
                n_lanes_per_side: 2,
                select_parallel: true,
                select_opposite: true,
            }),
    {
        CurrentPlan {
            built_strokes: None,
            undo_history: Vec::new(),
            redo_history: Vec::new(),
            current: PlanStep { plan_delta: PlanDelta::new(), selections, intent },
            preview: None,
            preview_result_delta: None,
            preview_result_delta_rendered: false,
            interactables_valid: false,
            settings: Settings { create_both_sides: true, n_lanes_per_side: 2, select_parallel: true, select_opposite: true },
        }
    }

    /// The built strokes that the current plan delta does not destroy, if the
    /// built strokes are known.
    pub fn still_built_strokes(&self) -> (still: Option<BuiltStrokes<S>>)
        where S: Clone
        requires
            self.wf(),
        ensures
            match self.built_strokes {
                None => still is None,
                Some(b) => still matches Some(sb) && sb.mapping.wf() && keys_of(sb.mapping.entries()) == keys_of(
                    b.mapping.entries().filter(not_destroyed(self.current.plan_delta)),
                ) && forall|k: int|
                    0 <= k < sb.mapping.entries().len() ==> cloned(
                        b.mapping.entries().filter(not_destroyed(self.current.plan_delta))[k].1,
                        #[trigger] sb.mapping.entries()[k].1,
                    ),
            },
    {
        match &self.built_strokes {
            None => None,
            Some(built_strokes) => {
                let ghost entries = built_strokes.mapping.entries();
                let ghost f = not_destroyed(self.current.plan_delta);
                let mut mapping: CDict<LaneStrokeRef, S> = CDict::new();
                let mut k: usize = 0;
                while k < built_strokes.mapping.len()
                    invariant
                        built_strokes.mapping.entries() == entries,
                        keys_of(entries).no_duplicates(),
                        self.current.plan_delta.strokes_to_destroy.wf(),
                        f == not_destroyed(self.current.plan_delta),
                        k <= entries.len(),
                        mapping.wf(),
                        keys_of(mapping.entries()) == keys_of(entries.subrange(0, k as int).filter(f)),
                        mapping.entries().len() == entries.subrange(0, k as int).filter(f).len(),
                        forall|j: int|
                            0 <= j < mapping.entries().len() ==> cloned(
                                entries.subrange(0, k as int).filter(f)[j].1,
                                #[trigger] mapping.entries()[j].1,
                            ),
                    decreases entries.len() - k,
                {
                    let pair = built_strokes.mapping.pair_at(k);
                    let built_ref = pair.0;
                    proof {
                        broadcast use vstd::seq::Seq::lemma_filter_push;
                        assert(entries.subrange(0, k + 1) =~= entries.subrange(0, k as int).push(entries[k as int]));
                    }
                    if !self.current.plan_delta.strokes_to_destroy.contains_key(built_ref) {
                        let stroke = pair.1.clone();
                        proof {
                            broadcast use vstd::seq_lib::group_filter_ensures;
                            if mapping.as_map().contains_key(built_ref) {
                                let j = choose|j: int| 0 <= j < mapping.entries().len() && mapping.entries()[j].0 == built_ref;
                                assert(keys_of(mapping.entries())[j] == built_ref);
                                let fs = entries.subrange(0, k as int).filter(f);
                                assert(fs[j].0 == built_ref);
                                assert(fs.contains(fs[j]));
                                entries.subrange(0, k as int).lemma_filter_contains_rev(f, fs[j]);
                                let m = choose|m: int| 0 <= m < k && entries.subrange(0, k as int)[m] == fs[j];
                                assert(keys_of(entries)[m] == keys_of(entries)[k as int]);
                            }
                        }
                        let ghost before = mapping.entries();
                        mapping.insert(built_ref, stroke);
                        proof {
                            assert(keys_of(mapping.entries()) =~= keys_of(before).push(built_ref));
                            assert(keys_of(entries.subrange(0, k + 1).filter(f)) =~= keys_of(
                                entries.subrange(0, k as int).filter(f),
                            ).push(built_ref));
                        }
                    }
                    k = k + 1;
                }
                proof {
                    assert(entries.subrange(0, k as int) =~= entries);
                }
                Some(BuiltStrokes { mapping })
            },
        }
    }

    /// The preview is to be recomputed.
    pub fn invalidate_preview(&mut self)
        ensures
            final(self).preview is None,
            final(self).history() == old(self).history(),
            final(self).same_but_history(&*old(self)),
            final(self).interactables_valid == old(self).interactables_valid,
    {
        self.preview = None;
    }

    /// The interactables are to be recreated.
    pub fn invalidate_interactables(&mut self)
        ensures
            !final(self).interactables_valid,
            final(self).history() == old(self).history(),
            final(self).same_but_history(&*old(self)),
            final(self).preview == old(self).preview,
    {
        self.interactables_valid = false;
    }

    /// Commits the current step: it is kept for undo, nothing is left to
    /// redo, and `applied` (the current step with its intent applied to the
    /// still built strokes under the settings) becomes current.
    pub fn commit(&mut self, applied: PlanStep<S, L, I>)
        requires
            old(self).wf(),
            applied.plan_delta.strokes_to_destroy.wf(),
        ensures
            final(self).wf(),
            final(self).history() == spec_commit(old(self).history(), applied),
            final(self).same_but_history(&*old(self)),
            final(self).preview is None,
            !final(self).interactables_valid,
    {
        let mut previous = applied;
        core::mem::swap(&mut self.current, &mut previous);
        self.undo_history.push(previous);
        self.redo_history = Vec::new();
        self.invalidate_preview();
        self.invalidate_interactables();
    }

    /// Commits an intermediate step, where only the intent changed: a copy of
    /// the current step is kept for undo and nothing is left to redo.
    pub fn commit_substep(&mut self)
        where S: Clone, L: Clone, I: Clone
        ensures
            final(self).wf() == old(self).wf(),
            final(self).undo_history@.len() == old(self).undo_history@.len() + 1,
            final(self).undo_history@.drop_last() == old(self).undo_history@,
            step_copy(old(self).current, final(self).undo_history@.last()),
            final(self).current == old(self).current,
            final(self).redo_history@.len() == 0,
            final(self).same_but_history(&*old(self)),
            final(self).preview is None,
            !final(self).interactables_valid,
    {
        let copy = self.current.duplicate();
        self.undo_history.push(copy);
        self.redo_history = Vec::new();
        self.invalidate_preview();
        self.invalidate_interactables();
        proof {
            assert(self.undo_history@.drop_last() =~= old(self).undo_history@);
        }
    }

    /// Commits at once: the current step, with its intent set to
    /// `idle_intent`, is kept for undo, nothing is left to redo, and
    /// `applied` becomes current.
    pub fn commit_immediate(&mut self, applied: PlanStep<S, L, I>, idle_intent: I)
        requires
            old(self).wf(),
            applied.plan_delta.strokes_to_destroy.wf(),
        ensures
            final(self).wf(),
            final(self).history() == spec_commit(
                (old(self).undo_history@, PlanStep { intent: idle_intent, ..old(self).current }, old(self).redo_history@),
                applied,
            ),
            final(self).same_but_history(&*old(self)),
            final(self).preview is None,
            !final(self).interactables_valid,
    {
        let mut previous = applied;
        core::mem::swap(&mut self.current, &mut previous);
        previous.intent = idle_intent;
        self.undo_history.push(previous);
        self.redo_history = Vec::new();
        self.invalidate_preview();
        self.invalidate_interactables();
    }

    /// Handles `Undo`: the last step to undo becomes current (an unchanged
    /// plan with `blank_selections` and `blank_intent` if there is none), and
    /// the current one is kept for redo. The stroke canvas is then to show the
    /// points of the new current intent (a road being drawn), which the caller
    /// reads off `current.intent` and sends.
    pub fn undo(&mut self, blank_selections: L, blank_intent: I)
        requires
            old(self).wf(),
            forall|k: int|
                0 <= k < old(self).undo_history@.len() ==> (#[trigger] old(self).undo_history@[k]).plan_delta.strokes_to_destroy.wf(),
        ensures
            final(self).wf(),
            old(self).undo_history@.len() > 0 ==> final(self).history() == spec_undo(
                old(self).history(),
                old(self).current,
            ),
            old(self).undo_history@.len() == 0 ==> {
                &&& final(self).undo_history@.len() == 0
                &&& final(self).redo_history@ == old(self).redo_history@.push(old(self).current)
                &&& final(self).current.plan_delta.new_strokes@.len() == 0
                &&& final(self).current.plan_delta.strokes_to_destroy.entries().len() == 0
                &&& final(self).current.selections == blank_selections
                &&& final(self).current.intent == blank_intent
            },
            final(self).same_but_history(&*old(self)),
            final(self).preview is None,
            !final(self).interactables_valid,
    {
        let previous_state = match self.undo_history.pop() {
            Some(step) => step,
            None => PlanStep { plan_delta: PlanDelta::new(), selections: blank_selections, intent: blank_intent },
        };
        let mut current = previous_state;
        core::mem::swap(&mut self.current, &mut current);
        self.redo_history.push(current);
        self.invalidate_preview();
        self.invalidate_interactables();
    }

    /// Handles `Redo`: if a step was undone, the last one becomes current and
    /// the current one is kept for undo; returns whether it did. When it did,
    /// the stroke canvas is to show the points of the new current intent, as
    /// after `undo`.
    pub fn redo(&mut self) -> (redone: bool)
        requires
            old(self).wf(),
            forall|k: int|
                0 <= k < old(self).redo_history@.len() ==> (#[trigger] old(self).redo_history@[k]).plan_delta.strokes_to_destroy.wf(),
        ensures
            final(self).wf(),
            redone == (old(self).redo_history@.len() > 0),
            final(self).history() == spec_redo(old(self).history()),
            final(self).same_but_history(&*old(self)),
            redone ==> final(self).preview is None && !final(self).interactables_valid,
            !redone ==> final(self).preview == old(self).preview && final(self).interactables_valid
                == old(self).interactables_valid,
    {
        match self.redo_history.pop() {
            Some(next_state) => {
                let mut current = next_state;
                core::mem::swap(&mut self.current, &mut current);
                self.undo_history.push(current);
                self.invalidate_preview();
                self.invalidate_interactables();
                true
            },
            None => false,
        }
    }

    /// Handles `ChangeIntent`: the current step gets `intent`. A preview only
    /// invalidates the preview, an intermediate step is committed as such.
    /// A finished or immediate intent is to be committed with the step it
    /// gives (by `commit` or `commit_immediate`): returns whether so.
    pub fn change_intent(&mut self, intent: I, progress: IntentProgress) -> (to_commit: bool)
        where S: Clone, L: Clone, I: Clone
        ensures
            final(self).wf() == old(self).wf(),
            final(self).current.intent == intent,
            final(self).current.plan_delta == old(self).current.plan_delta,
            final(self).current.selections == old(self).current.selections,
            final(self).same_but_history(&*old(self)),
            final(self).preview is None,
            to_commit == (progress == IntentProgress::Finished || progress == IntentProgress::Immediate),
            progress == IntentProgress::SubStep ==> {
                &&& final(self).undo_history@.drop_last() == old(self).undo_history@
                &&& final(self).undo_history@.len() == old(self).undo_history@.len() + 1
                &&& step_copy(PlanStep { intent: intent, ..old(self).current }, final(self).undo_history@.last())
                &&& final(self).redo_history@.len() == 0
                &&& !final(self).interactables_valid
            },
            progress != IntentProgress::SubStep ==> final(self).undo_history@ == old(self).undo_history@
                && final(self).redo_history@ == old(self).redo_history@,
            progress == IntentProgress::Preview ==> final(self).interactables_valid == old(self).interactables_valid,
    {
        self.current.intent = intent;
        match progress {
            IntentProgress::Preview => {
                self.invalidate_preview();
                false
            },
            IntentProgress::SubStep => {
                self.commit_substep();
                false
            },
            IntentProgress::Finished => {
                self.invalidate_preview();
                true
            },
            IntentProgress::Immediate => {
                self.invalidate_preview();
                true
            },
        }
    }

    /// Handles `SetNLanes`: new roads get that many lanes per side.
    pub fn set_n_lanes(&mut self, msg: &SetNLanes)
        ensures
            final(self).settings == (Settings { n_lanes_per_side: msg.0, ..old(self).settings }),
            final(self).preview is None,
            final(self).history() == old(self).history(),
            final(self).built_strokes == old(self).built_strokes,
            final(self).interactables_valid == old(self).interactables_valid,
    {
        self.settings.n_lanes_per_side = msg.0;
        self.invalidate_preview();
    }

    /// Handles `ToggleBothSides`.
    pub fn toggle_both_sides(&mut self)
        ensures
            final(self).settings == (Settings {
                create_both_sides: !old(self).settings.create_both_sides,
                ..old(self).settings
            }),
            final(self).preview is None,
            final(self).history() == old(self).history(),
            final(self).built_strokes == old(self).built_strokes,
            final(self).interactables_valid == old(self).interactables_valid,
    {
        self.settings.create_both_sides = !self.settings.create_both_sides;
        self.invalidate_preview();
    }

    /// Handles a simulation result: it is kept as the preview's, not rendered yet.
    pub fn simulation_result(&mut self, result_delta: R)
        ensures
            final(self).preview_result_delta == Some(result_delta),
            !final(self).preview_result_delta_rendered,
            final(self).history() == old(self).history(),
            final(self).built_strokes == old(self).built_strokes,
            final(self).settings == old(self).settings,
            final(self).preview == old(self).preview,
            final(self).interactables_valid == old(self).interactables_valid,
    {
        self.preview_result_delta = Some(result_delta);
        self.preview_result_delta_rendered = false;
    }

    /// Handles `BuiltStrokesChanged`: these are now the built strokes.
    pub fn built_strokes_changed(&mut self, built_strokes: BuiltStrokes<S>)
        ensures
            final(self).built_strokes == Some(built_strokes),
            final(self).history() == old(self).history(),
            final(self).settings == old(self).settings,
            final(self).preview == old(self).preview,
            final(self).preview_result_delta == old(self).preview_result_delta,
            final(self).interactables_valid == old(self).interactables_valid,
    {
        self.built_strokes = Some(built_strokes);
    }

    /// Handles `Materialize`: a road being drawn is first committed with
    /// `applied` (the step its intent gives); then the plan starts afresh with
    /// `blank_selections` and `blank_intent`, and the delta to apply is returned.
    pub fn materialize(&mut self, applied: Option<PlanStep<S, L, I>>, blank_selections: L, blank_intent: I) -> (delta: PlanDelta<S>)
        requires
            old(self).wf(),
            applied matches Some(a) ==> a.plan_delta.strokes_to_destroy.wf(),
        ensures
            delta == (match applied {
                Some(a) => a.plan_delta,
                None => old(self).current.plan_delta,
            }),
            final(self).wf(),
            final(self).built_strokes is None,
            final(self).undo_history@.len() == 0,
            final(self).redo_history@.len() == 0,
            final(self).current.plan_delta.new_strokes@.len() == 0,
            final(self).current.plan_delta.strokes_to_destroy.entries().len() == 0,
            final(self).current.selections == blank_selections,
            final(self).current.intent == blank_intent,
            final(self).preview is None,
            final(self).preview_result_delta is None,
            !final(self).interactables_valid,
            final(self).settings == (Settings {
                create_both_sides: true,
                n_lanes_per_side: 2,
                select_parallel: true,
                select_opposite: true,
            }),
    {
        if let Some(step) = applied {
            self.commit(step);
        }
        let mut done = CurrentPlan::new(blank_selections, blank_intent);
        core::mem::swap(self, &mut done);
        done.current.plan_delta
    }
}

} // verus!
