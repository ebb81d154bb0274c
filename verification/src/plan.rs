//! Plans: changes to be made in order, and directories to be cleared away after
//! them. A `Run` says which change comes next and takes in how each one went.

use vstd::prelude::*;

use crate::disk;
use crate::disk::Disk;
use crate::host;
use crate::host::{Change, Effect, Outcome};
use crate::text;

verus! {

/// What is to be done, in order; then the directories to remove, up to the first
/// that cannot be removed.
pub struct Plan {
    pub changes: Vec<Change>,
    pub prune: Vec<Vec<u8>>,
}

impl Plan {
    pub open spec fn effects(&self) -> Seq<Effect> {
        host::effects(self.changes@)
    }

    pub open spec fn dirs(&self) -> Seq<Seq<u8>> {
        views(self.prune@)
    }
}

pub open spec fn views(paths: Seq<Vec<u8>>) -> Seq<Seq<u8>> {
    paths.map_values(|p: Vec<u8>| p@)
}

/// How a plan ended. Only the changes decide; a directory that stays is no
/// failure.
#[derive(Debug, PartialEq, Eq)]
pub enum End {
    Complete,
    Missing,
    Taken,
    Failed(String),
}

/// Where a run stands: the changes and directories that are left, and how it
/// ended, if it did before all were done.
pub struct Course {
    pub left: Seq<Effect>,
    pub dirs: Seq<Seq<u8>>,
    pub end: Option<End>,
}

/// The start of a plan.
pub open spec fn start(effects: Seq<Effect>, dirs: Seq<Seq<u8>>) -> Course {
    Course { left: effects, dirs, end: None }
}

/// What is to be done next.
pub open spec fn upcoming(course: Course) -> Option<Effect> {
    if course.end is Some {
        None
    } else if course.left.len() > 0 {
        Some(course.left[0])
    } else if course.dirs.len() > 0 {
        Some(Effect::RemoveDir { path: course.dirs[0] })
    } else {
        None
    }
}

/// Where a run stands once it is told how the next change went. A change that
/// was not made ends the plan; a directory that was not removed ends the
/// clearing away.
pub open spec fn told(course: Course, outcome: Outcome) -> Course {
    if upcoming(course) is None {
        course
    } else if course.left.len() > 0 {
        match outcome {
            Outcome::Done => Course { left: course.left.drop_first(), ..course },
            Outcome::Missing => Course { end: Some(End::Missing), ..course },
            Outcome::Taken => Course { end: Some(End::Taken), ..course },
            Outcome::Failed(reason) => Course { end: Some(End::Failed(reason)), ..course },
        }
    } else if outcome is Done {
        Course { dirs: course.dirs.drop_first(), ..course }
    } else {
        Course { end: Some(End::Complete), ..course }
    }
}

/// A plan that is being carried out.
pub struct Run {
    plan: Plan,
    changed: usize,
    cleared: usize,
    end: Option<End>,
}

impl View for Run {
    type V = Course;

    closed spec fn view(&self) -> Course {
        Course {
            left: self.plan.effects().skip(self.changed as int),
            dirs: self.plan.dirs().skip(self.cleared as int),
            end: self.end,
        }
    }
}

impl Run {
    #[verifier::type_invariant]
    spec fn within_the_plan(self) -> bool {
        &&& self.changed <= self.plan.changes@.len()
        &&& self.cleared <= self.plan.prune@.len()
        &&& self.end matches Some(end) ==> (end is Complete <==> self.changed
            == self.plan.changes@.len())
    }

    pub fn begin(plan: Plan) -> (r: Run)
        ensures
            r@ == start(plan.effects(), plan.dirs()),
    {
        let r: Run = Run { plan, changed: 0, cleared: 0, end: None };
        proof {
            assert(r.plan.effects().skip(0) =~= plan.effects());
            assert(r.plan.dirs().skip(0) =~= plan.dirs());
        }
        r
    }

    /// The next change to make, until there is none.
    pub fn next(&self) -> (r: Option<Change>)
        ensures
            match upcoming(self@) {
                Some(effect) => r matches Some(change) && change@ == effect,
                None => r is None,
            },
    {
        proof {
            use_type_invariant(self);
        }
        if self.end.is_some() {
            None
        } else if self.changed < self.plan.changes.len() {
            Some(self.plan.changes[self.changed].copy())
        } else if self.cleared < self.plan.prune.len() {
            Some(
                Change::RemoveDir {
                    path: text::copy_of(self.plan.prune[self.cleared].as_slice()),
                },
            )
        } else {
            None
        }
    }

    /// Take in how the next change went.
    pub fn report(self, outcome: Outcome) -> (r: Run)
        ensures
            r@ == told(self@, outcome),
    {
        proof {
            use_type_invariant(&self);
        }
        let ghost before = self@;
        let mut run: Run = self;
        if run.end.is_some() {
            return run;
        }
        if run.changed < run.plan.changes.len() {
            match outcome {
                Outcome::Done => {
                    run.changed = run.changed + 1;
                },
                Outcome::Missing => {
                    run.end = Some(End::Missing);
                },
                Outcome::Taken => {
                    run.end = Some(End::Taken);
                },
                Outcome::Failed(reason) => {
                    run.end = Some(End::Failed(reason));
                },
            }
        } else if run.cleared < run.plan.prune.len() {
            match outcome {
                Outcome::Done => {
                    run.cleared = run.cleared + 1;
                },
                _ => {
                    run.end = Some(End::Complete);
                },
            }
        }
        proof {
            assert(run@.left =~= told(before, outcome).left);
            assert(run@.dirs =~= told(before, outcome).dirs);
        }
        run
    }

    /// How the plan ended, once there is nothing left to do. It is complete exactly
    /// if every change was made.
    pub fn end(self) -> (r: End)
        requires
            upcoming(self@) is None,
        ensures
            r == (match self@.end {
                Some(end) => end,
                None => End::Complete,
            }),
            r is Complete <==> self@.left.len() == 0,
    {
        proof {
            use_type_invariant(&self);
        }
        match self.end {
            Some(end) => end,
            None => End::Complete,
        }
    }
}

/// The disk that a run leads to, where every change that is possible is made.
pub open spec fn carried_out(d: Disk, course: Course) -> Disk
    decreases course.left.len() + course.dirs.len(),
{
    match upcoming(course) {
        None => d,
        Some(effect) => if !disk::possible(d, effect) {
            d
        } else if course.left.len() > 0 {
            carried_out(
                disk::after(d, effect),
                Course { left: course.left.drop_first(), ..course },
            )
        } else {
            carried_out(
                disk::after(d, effect),
                Course { dirs: course.dirs.drop_first(), ..course },
            )
        },
    }
}

/// A plan whose changes are all possible leads to the disk after them, with the
/// directories cleared away.
pub proof fn a_plan_is_carried_out(d: Disk, effects: Seq<Effect>, dirs: Seq<Seq<u8>>)
    requires
        disk::all_possible(d, effects),
    ensures
        carried_out(d, start(effects, dirs)) == disk::pruned(disk::after_all(d, effects), dirs),
    decreases effects.len() + dirs.len(),
{
    if effects.len() > 0 {
        a_plan_is_carried_out(disk::after(d, effects[0]), effects.drop_first(), dirs);
    } else if dirs.len() > 0 && disk::possible(d, Effect::RemoveDir { path: dirs[0] }) {
        a_plan_is_carried_out(d.remove(dirs[0]), effects, dirs.drop_first());
    }
}

/// Each step keeps the disk that a run leads to: if the next change is made where
/// it is possible, and not made where it is not, then what is left of the run
/// leads from there to the same disk.
pub proof fn a_step_keeps_the_course(d: Disk, course: Course, outcome: Outcome)
    requires
        upcoming(course) matches Some(effect) && (outcome is Done <==> disk::possible(d, effect)),
    ensures
        carried_out(
            if outcome is Done {
                disk::after(d, upcoming(course)->0)
            } else {
                d
            },
            told(course, outcome),
        ) == carried_out(d, course),
{
}

/// Where a run stands once it is told how one change after the other went.
pub open spec fn told_all(course: Course, outcomes: Seq<Outcome>) -> Course
    decreases outcomes.len(),
{
    if outcomes.len() == 0 {
        course
    } else {
        told_all(told(course, outcomes[0]), outcomes.drop_first())
    }
}

/// A run that ends complete has made every change: there was an outcome for each,
/// and each was made.
pub proof fn a_complete_run_made_every_change(
    effects: Seq<Effect>,
    dirs: Seq<Seq<u8>>,
    outcomes: Seq<Outcome>,
)
    requires
        upcoming(told_all(start(effects, dirs), outcomes)) is None,
        told_all(start(effects, dirs), outcomes).end matches Some(end) ==> end is Complete,
    ensures
        effects.len() <= outcomes.len(),
        forall|i: int| 0 <= i < effects.len() ==> #[trigger] outcomes[i] is Done,
{
    the_changes_left_are_made(start(effects, dirs), outcomes);
}

proof fn the_changes_left_are_made(course: Course, outcomes: Seq<Outcome>)
    requires
        course.end is None,
        upcoming(told_all(course, outcomes)) is None,
        told_all(course, outcomes).end matches Some(end) ==> end is Complete,
    ensures
        course.left.len() <= outcomes.len(),
        forall|i: int| 0 <= i < course.left.len() ==> #[trigger] outcomes[i] is Done,
    decreases outcomes.len(),
{
    if course.left.len() > 0 && outcomes.len() > 0 {
        let next = told(course, outcomes[0]);
        let rest = outcomes.drop_first();
        if outcomes[0] is Done {
            the_changes_left_are_made(next, rest);
            assert forall|i: int| 0 <= i < course.left.len() implies #[trigger]
                outcomes[i] is Done by {
                if i > 0 {
                    assert(rest[i - 1] == outcomes[i]);
                }
            }
        } else {
            an_end_stays(next, rest);
        }
    }
}

proof fn an_end_stays(course: Course, outcomes: Seq<Outcome>)
    requires
        course.end is Some,
    ensures
        told_all(course, outcomes) == course,
    decreases outcomes.len(),
{
    if outcomes.len() > 0 {
        an_end_stays(told(course, outcomes[0]), outcomes.drop_first());
    }
}

} // verus!
