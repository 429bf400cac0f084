//! The walk against a file system: driven by the answers of any file system,
//! the work list does what a recursive depth-first tour would do.
//!
//! Nothing here runs. A [`World`] stands for a file system, [`run`] for the
//! loop that carries out the walk's actions and reports the answers, and
//! [`tour`] for the recursive traversal. [`lemma_walk_follows_tour`] says
//! that the two agree.

use vstd::prelude::*;
use crate::log::{record_of, Message, Record};
use crate::step::{Action, StepView};
use crate::walk::{
    after,
    brought,
    decided,
    listed_tasks,
    taken,
    visited,
    Classification,
    EventView,
    Task,
    WalkView,
};

verus! {

/// A file system as the walk comes to know it: what each path is, and for a
/// directory the entries that can be read and the error that ends the
/// reading, if there is one.
pub struct World {
    pub kind: spec_fn(Seq<char>) -> Classification,
    pub entries: spec_fn(Seq<char>) -> Seq<Seq<char>>,
    pub failure: spec_fn(Seq<char>) -> Option<Seq<char>>,
}

/// What a run does that can be seen from outside.
pub enum Deed {
    /// A record is logged.
    Log(Record<Seq<char>>),
    /// A file is handed to the processor.
    Process(Seq<char>),
}

/// The deeds of a run and the exit code it ended with, if it has ended.
pub struct Outcome {
    pub deeds: Seq<Deed>,
    pub exit: Option<i32>,
}

/// The logging of each record, in order.
pub open spec fn logs(records: Seq<Record<Seq<char>>>) -> Seq<Deed> {
    records.map_values(|r: Record<Seq<char>>| Deed::Log(r))
}

/// The deeds of one step: its records are logged, and then the file is
/// processed if that is the step's action.
pub open spec fn deeds(step: StepView) -> Seq<Deed> {
    match step.action {
        Action::Process(path) => logs(step.records).push(Deed::Process(path)),
        _ => logs(step.records),
    }
}

/// The event with which the world answers an action.
pub open spec fn answer(world: World, action: Action<Seq<char>>) -> EventView {
    match action {
        Action::Probe(path) => EventView::Probed { path, kind: (world.kind)(path) },
        Action::List(dir) => EventView::Listed {
            dir,
            entries: (world.entries)(dir),
            failure: (world.failure)(dir),
        },
        _ => EventView::Resume,
    }
}

/// A walk with this work pending.
pub open spec fn waiting(pending: Seq<Task<Seq<char>>>) -> WalkView {
    WalkView { pending, ended: None }
}

/// One outcome after another: the deeds of both, and the exit of the second.
pub open spec fn then(first: Seq<Deed>, second: Outcome) -> Outcome {
    Outcome { deeds: first + second.deeds, exit: second.exit }
}

/// The loop around the walk, for at most `steps` steps: the walk is told
/// `event`, its step is carried out, and the world's answer is the next
/// event, until the step is an exit.
pub open spec fn run(
    world: World,
    verbose: bool,
    walk: WalkView,
    event: EventView,
    steps: nat,
) -> Outcome
    decreases steps,
{
    if steps == 0 {
        Outcome { deeds: Seq::empty(), exit: None }
    } else {
        let (next, step) = after(walk, verbose, event);
        match step.action {
            Action::Exit(code) => Outcome { deeds: deeds(step), exit: Some(code) },
            action => then(
                deeds(step),
                run(world, verbose, next, answer(world, action), (steps - 1) as nat),
            ),
        }
    }
}

/// The recursive tour of `tasks`, through directories nested at most
/// `depth` deep: each task is dealt with in turn, and a directory's entries
/// are toured before the task after it. A failure ends the tour with exit
/// code 1; the end of the tasks ends it with exit code 0; a directory below
/// `depth` leaves it without an exit.
pub open spec fn tour(
    world: World,
    verbose: bool,
    tasks: Seq<Task<Seq<char>>>,
    depth: nat,
) -> Outcome
    decreases depth, tasks.len(),
{
    if tasks.len() == 0 {
        Outcome { deeds: Seq::empty(), exit: Some(0i32) }
    } else {
        match tasks[0] {
            Task::Fail { dir, error } => Outcome {
                deeds: seq![Deed::Log(record_of(Message::ReadFailed { dir, error }))],
                exit: Some(1i32),
            },
            Task::Visit(path) => {
                let step = visited(verbose, path, (world.kind)(path));
                if step.action is List {
                    if depth == 0 {
                        Outcome { deeds: deeds(step), exit: None }
                    } else {
                        let inside = tour(
                            world,
                            verbose,
                            listed_tasks(path, (world.entries)(path), (world.failure)(path)),
                            (depth - 1) as nat,
                        );
                        if inside.exit == Some(0i32) {
                            then(
                                deeds(step) + inside.deeds,
                                tour(world, verbose, tasks.drop_first(), depth),
                            )
                        } else {
                            then(deeds(step), inside)
                        }
                    }
                } else {
                    then(deeds(step), tour(world, verbose, tasks.drop_first(), depth))
                }
            },
        }
    }
}

/// Told to resume, a walk takes up its next task.
proof fn lemma_resume_takes(verbose: bool, pending: Seq<Task<Seq<char>>>)
    ensures
        after(waiting(pending), verbose, EventView::Resume) == taken(pending),
{
    let event = EventView::Resume;
    assert(brought(event) + pending =~= pending);
    let (next, second) = taken(pending);
    assert(decided(verbose, event).records + second.records =~= second.records);
}

/// An event that brings `tasks` and calls for nothing else leaves the walk
/// where a resume with `tasks` before the pending work leaves it, with the
/// event's own records logged first.
proof fn lemma_event_then_takes(verbose: bool, pending: Seq<Task<Seq<char>>>, event: EventView)
    requires
        decided(verbose, event).action is Advance,
    ensures
        after(waiting(pending), verbose, event).0 == taken(brought(event) + pending).0,
        after(waiting(pending), verbose, event).1.action == taken(
            brought(event) + pending,
        ).1.action,
        after(waiting(pending), verbose, event).1.records == decided(verbose, event).records
            + taken(brought(event) + pending).1.records,
{
}

/// The deeds of records that come in two parts.
proof fn lemma_logs_add(a: Seq<Record<Seq<char>>>, b: Seq<Record<Seq<char>>>)
    ensures
        logs(a + b) == logs(a) + logs(b),
{
    assert(logs(a + b) =~= logs(a) + logs(b));
}

/// A step with records put before its own does the logging of those first.
proof fn lemma_deeds_after_records(records: Seq<Record<Seq<char>>>, step: StepView)
    ensures
        deeds(StepView { records: records + step.records, action: step.action }) == logs(records)
            + deeds(step),
{
    lemma_logs_add(records, step.records);
    assert(deeds(StepView { records: records + step.records, action: step.action }) =~= logs(
        records,
    ) + deeds(step));
}

/// A run that has ended is not changed by allowing it more steps.
pub proof fn lemma_run_stays_ended(
    world: World,
    verbose: bool,
    walk: WalkView,
    event: EventView,
    steps: nat,
    more: nat,
)
    requires
        run(world, verbose, walk, event, steps).exit is Some,
    ensures
        run(world, verbose, walk, event, steps + more) == run(world, verbose, walk, event, steps),
    decreases steps,
{
    if steps > 0 {
        let (next, step) = after(walk, verbose, event);
        if !(step.action is Exit) {
            lemma_run_stays_ended(
                world,
                verbose,
                next,
                answer(world, step.action),
                (steps - 1) as nat,
                more,
            );
            assert((steps + more - 1) as nat == (steps - 1) as nat + more);
        }
    }
}

/// A run from a resume with extra records logged first.
proof fn lemma_run_after_event(
    world: World,
    verbose: bool,
    pending: Seq<Task<Seq<char>>>,
    event: EventView,
    steps: nat,
)
    requires
        decided(verbose, event).action is Advance,
        steps > 0,
    ensures
        run(world, verbose, waiting(pending), event, steps) == then(
            logs(decided(verbose, event).records),
            run(world, verbose, waiting(brought(event) + pending), EventView::Resume, steps),
        ),
{
    let all = brought(event) + pending;
    let first = decided(verbose, event);
    lemma_event_then_takes(verbose, pending, event);
    lemma_resume_takes(verbose, all);
    let (next, second) = taken(all);
    let (walk_a, step_a) = after(waiting(pending), verbose, event);
    let (walk_b, step_b) = after(waiting(all), verbose, EventView::Resume);
    assert(walk_a == walk_b);
    assert(step_b == second);
    assert(step_a == StepView { records: first.records + second.records, action: second.action });
    lemma_deeds_after_records(first.records, second);
    let left = run(world, verbose, waiting(pending), event, steps);
    let right = run(world, verbose, waiting(all), EventView::Resume, steps);
    match second.action {
        Action::Exit(code) => {
            assert(left.deeds =~= logs(first.records) + right.deeds);
        },
        _ => {
            let rest = run(world, verbose, next, answer(world, second.action), (steps - 1) as nat);
            assert(left.deeds =~= (logs(first.records) + deeds(second)) + rest.deeds);
            assert(right.deeds =~= deeds(second) + rest.deeds);
            assert(left.deeds =~= logs(first.records) + right.deeds);
        },
    }
}

/// With more work behind the pending work, a run goes as it would without,
/// up to its exit: after a failure that is the end; after exit code 0 the
/// run goes on as a run of the work behind.
pub proof fn lemma_run_goes_on(
    world: World,
    verbose: bool,
    walk: WalkView,
    event: EventView,
    steps: nat,
    behind: Seq<Task<Seq<char>>>,
    more: nat,
)
    requires
        walk.ended is None,
        run(world, verbose, walk, event, steps).exit is Some,
        run(world, verbose, walk, event, steps).exit == Some(0i32) ==> run(
            world,
            verbose,
            waiting(behind),
            EventView::Resume,
            more,
        ).exit is Some,
    ensures
        run(world, verbose, waiting(walk.pending + behind), event, steps + more) == if run(
            world,
            verbose,
            walk,
            event,
            steps,
        ).exit == Some(0i32) {
            then(
                run(world, verbose, walk, event, steps).deeds,
                run(world, verbose, waiting(behind), EventView::Resume, more),
            )
        } else {
            run(world, verbose, walk, event, steps)
        },
    decreases steps,
{
    let alone = run(world, verbose, walk, event, steps);
    let wide = waiting(walk.pending + behind);
    let first = decided(verbose, event);
    let pending = brought(event) + walk.pending;
    let all = brought(event) + (walk.pending + behind);
    assert(all =~= pending + behind);
    assert(walk == waiting(walk.pending));
    let (next, step) = after(walk, verbose, event);
    let (next_wide, step_wide) = after(wide, verbose, event);
    if first.action is Advance {
        if pending.len() == 0 {
            assert(all =~= behind);
            lemma_run_after_event(world, verbose, behind, EventView::Resume, 1);
            lemma_resume_takes(verbose, behind);
            let (after_behind, second) = taken(behind);
            let tail = run(world, verbose, waiting(behind), EventView::Resume, more);
            assert(more > 0);
            lemma_deeds_after_records(first.records, second);
            assert(step.records =~= first.records);
            assert(alone.deeds =~= logs(first.records));
            assert(step_wide == StepView {
                records: first.records + second.records,
                action: second.action,
            });
            match second.action {
                Action::Exit(code) => {},
                _ => {
                    lemma_run_stays_ended(
                        world,
                        verbose,
                        after_behind,
                        answer(world, second.action),
                        (more - 1) as nat,
                        steps,
                    );
                    assert((steps + more - 1) as nat == (more - 1) as nat + steps);
                    let rest = run(
                        world,
                        verbose,
                        after_behind,
                        answer(world, second.action),
                        (more - 1) as nat,
                    );
                    assert(tail.deeds =~= deeds(second) + rest.deeds);
                    assert((logs(first.records) + deeds(second)) + rest.deeds =~= logs(
                        first.records,
                    ) + tail.deeds);
                },
            }
        } else {
            assert(all[0] == pending[0]);
            assert(all.drop_first() =~= pending.drop_first() + behind);
            match pending[0] {
                Task::Visit(path) => {
                    assert(step_wide == step);
                    assert(next_wide == waiting(next.pending + behind));
                    lemma_run_goes_on(
                        world,
                        verbose,
                        next,
                        answer(world, step.action),
                        (steps - 1) as nat,
                        behind,
                        more,
                    );
                    assert((steps + more - 1) as nat == (steps - 1) as nat + more);
                    lemma_then_assoc(world, verbose, walk, event, steps, behind, more);
                },
                Task::Fail { dir, error } => {
                    assert(step_wide == step);
                },
            }
        }
    } else {
        assert(step_wide == step);
        assert(next_wide == waiting(next.pending + behind));
        lemma_run_goes_on(
            world,
            verbose,
            next,
            answer(world, step.action),
            (steps - 1) as nat,
            behind,
            more,
        );
        assert((steps + more - 1) as nat == (steps - 1) as nat + more);
        lemma_then_assoc(world, verbose, walk, event, steps, behind, more);
    }
}

/// Deeds that come in three parts can be read in either grouping.
proof fn lemma_then_assoc(
    world: World,
    verbose: bool,
    walk: WalkView,
    event: EventView,
    steps: nat,
    behind: Seq<Task<Seq<char>>>,
    more: nat,
)
    requires
        steps > 0,
        !(after(walk, verbose, event).1.action is Exit),
    ensures
        ({
            let (next, step) = after(walk, verbose, event);
            let rest = run(world, verbose, next, answer(world, step.action), (steps - 1) as nat);
            let tail = run(world, verbose, waiting(behind), EventView::Resume, more);
            &&& run(world, verbose, walk, event, steps) == then(deeds(step), rest)
            &&& then(deeds(step), then(rest.deeds, tail)) == then(deeds(step) + rest.deeds, tail)
        }),
{
    let (next, step) = after(walk, verbose, event);
    let rest = run(world, verbose, next, answer(world, step.action), (steps - 1) as nat);
    let tail = run(world, verbose, waiting(behind), EventView::Resume, more);
    assert(deeds(step) + (rest.deeds + tail.deeds) =~= (deeds(step) + rest.deeds) + tail.deeds);
}

/// The walk follows the tour. Whenever the recursive tour of `tasks` comes
/// to an end, the loop around a walk with `tasks` pending comes to the same
/// end within the number of steps returned: the same records are logged and
/// the same files processed, in the same order, and the exit code is the
/// same.
pub proof fn lemma_walk_follows_tour(
    world: World,
    verbose: bool,
    tasks: Seq<Task<Seq<char>>>,
    depth: nat,
) -> (steps: nat)
    requires
        tour(world, verbose, tasks, depth).exit is Some,
    ensures
        run(world, verbose, waiting(tasks), EventView::Resume, steps) == tour(
            world,
            verbose,
            tasks,
            depth,
        ),
    decreases depth, tasks.len(),
{
    lemma_resume_takes(verbose, tasks);
    if tasks.len() == 0 {
        assert(logs(Seq::empty()) =~= Seq::empty());
        1
    } else {
        match tasks[0] {
            Task::Fail { dir, error } => {
                assert(logs(seq![record_of(Message::ReadFailed { dir, error })]) =~= seq![
                    Deed::Log(record_of(Message::ReadFailed { dir, error })),
                ]);
                1
            },
            Task::Visit(path) => {
                let rest = tasks.drop_first();
                let probed = EventView::Probed { path, kind: (world.kind)(path) };
                let step = visited(verbose, path, (world.kind)(path));
                assert(decided(verbose, probed) == step);
                assert(brought(probed) + rest =~= rest);
                assert(logs(Seq::empty()) =~= Seq::<Deed>::empty());
                if step.action is Advance {
                    let n = lemma_walk_follows_tour(world, verbose, rest, depth);
                    assert(n > 0);
                    lemma_run_after_event(world, verbose, rest, probed, n);
                    let tail = run(world, verbose, waiting(rest), EventView::Resume, n);
                    assert(Seq::<Deed>::empty() + (logs(step.records) + tail.deeds) =~= deeds(step)
                        + tail.deeds);
                    n + 1
                } else if step.action is List {
                    let listed = EventView::Listed {
                        dir: path,
                        entries: (world.entries)(path),
                        failure: (world.failure)(path),
                    };
                    let inner = listed_tasks(path, (world.entries)(path), (world.failure)(path));
                    assert(step.action == Action::List(path));
                    assert(answer(world, step.action) == listed);
                    assert(brought(listed) == inner);
                    assert(depth > 0);
                    let inside = tour(world, verbose, inner, (depth - 1) as nat);
                    let n1 = lemma_walk_follows_tour(world, verbose, inner, (depth - 1) as nat);
                    assert(n1 > 0);
                    let n2 = if inside.exit == Some(0i32) {
                        lemma_walk_follows_tour(world, verbose, rest, depth)
                    } else {
                        0
                    };
                    lemma_run_goes_on(
                        world,
                        verbose,
                        waiting(inner),
                        EventView::Resume,
                        n1,
                        rest,
                        n2,
                    );
                    lemma_run_after_event(world, verbose, rest, listed, n1 + n2);
                    assert(after(waiting(rest), verbose, probed) == (waiting(rest), step));
                    let joined = run(
                        world,
                        verbose,
                        waiting(inner + rest),
                        EventView::Resume,
                        n1 + n2,
                    );
                    let listing = run(world, verbose, waiting(rest), listed, n1 + n2);
                    assert(logs(decided(verbose, listed).records) + joined.deeds =~= joined.deeds);
                    assert(listing == joined);
                    let middle = run(world, verbose, waiting(rest), probed, n1 + n2 + 1);
                    assert(middle == then(deeds(step), listing));
                    assert(run(world, verbose, waiting(tasks), EventView::Resume, n1 + n2 + 2)
                        == then(Seq::empty(), middle));
                    assert(Seq::<Deed>::empty() + (deeds(step) + joined.deeds) =~= deeds(step)
                        + joined.deeds);
                    if inside.exit == Some(0i32) {
                        let tail = tour(world, verbose, rest, depth);
                        assert(deeds(step) + (inside.deeds + tail.deeds) =~= (deeds(step)
                            + inside.deeds) + tail.deeds);
                    }
                    n1 + n2 + 2
                } else {
                    let n = lemma_walk_follows_tour(world, verbose, rest, depth);
                    assert(step.action is Process);
                    assert(answer(world, step.action) == EventView::Resume);
                    assert(after(waiting(rest), verbose, probed) == (waiting(rest), step));
                    let tail = run(world, verbose, waiting(rest), EventView::Resume, n);
                    let middle = run(world, verbose, waiting(rest), probed, n + 1);
                    assert(middle == then(deeds(step), tail));
                    assert(run(world, verbose, waiting(tasks), EventView::Resume, n + 2) == then(
                        Seq::empty(),
                        middle,
                    ));
                    assert(Seq::<Deed>::empty() + (deeds(step) + tail.deeds) =~= deeds(step)
                        + tail.deeds);
                    n + 2
                }
            },
        }
    }
}

} // verus!
