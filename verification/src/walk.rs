//! The traversal: a work list of pending paths and the decision taken for
//! each answer that the file system gives.
//!
//! The walk itself touches no file system. It asks for one piece of outside
//! work at a time, as an [`Action`], and is told the answer as an [`Event`].
//! Paths are taken up depth first: the entries of a directory come before
//! whatever was pending when the directory was read, in the order in which
//! they were listed.

use vstd::prelude::*;
use crate::log::{emitted, note, record_of, records_view, Context, Message, Record, Severity};
use crate::roots::{dedup_paths, sameness, texts};
use crate::partition::{heads, repeats};
use crate::route::{file, path_extension, routed};
use crate::step::{Action, Step, StepView};

verus! {

/// What a path turned out to be.
#[derive(Clone, Copy, Debug, PartialEq, Eq, Structural)]
pub enum Classification {
    /// Nothing is there, or only a link that leads nowhere.
    Missing,
    /// A regular file.
    File,
    /// A directory.
    Directory,
    /// Something that exists and is neither.
    Other,
}

/// The classification that three answers of the file system amount to.
pub open spec fn classified(exists: bool, is_dir: bool, is_file: bool) -> Classification {
    if !exists {
        Classification::Missing
    } else if is_dir {
        Classification::Directory
    } else if is_file {
        Classification::File
    } else {
        Classification::Other
    }
}

/// Classifies a path from what the file system said of it: whether it
/// exists, whether it is a directory, whether it is a regular file.
pub fn classify(exists: bool, is_dir: bool, is_file: bool) -> (kind: Classification)
    ensures
        kind == classified(exists, is_dir, is_file),
{
    if !exists {
        Classification::Missing
    } else if is_dir {
        Classification::Directory
    } else if is_file {
        Classification::File
    } else {
        Classification::Other
    }
}

/// A directory is announced, if the run is verbose, and then listed.
pub open spec fn entered(verbose: bool, path: Seq<char>) -> StepView {
    StepView { records: emitted(verbose, Message::Reading(path)), action: Action::List(path) }
}

/// What is done with a path of a given kind.
pub open spec fn visited(verbose: bool, path: Seq<char>, kind: Classification) -> StepView {
    match kind {
        Classification::Missing => StepView {
            records: seq![record_of(Message::Missing(path))],
            action: Action::Advance,
        },
        Classification::Directory => entered(verbose, path),
        Classification::File => routed(verbose, path, path_extension(path)),
        Classification::Other => StepView { records: Seq::empty(), action: Action::Advance },
    }
}

/// Takes up a directory: announces it and asks for its entries.
pub fn dir(ctx: &Context, path: String) -> (step: Step)
    ensures
        step@ == entered(ctx.verbose, path@),
{
    let records = note(ctx, Message::Reading(path.clone()));
    Step { records, action: Action::List(path) }
}

/// Takes up a path that has been classified: a missing one is warned about,
/// a directory is entered, a file is routed by its extension, anything else
/// is passed over in silence.
pub fn generic(ctx: &Context, path: String, kind: Classification) -> (step: Step)
    ensures
        step@ == visited(ctx.verbose, path@, kind),
{
    match kind {
        Classification::Missing => {
            let records = note(ctx, Message::Missing(path));
            Step { records, action: Action::Advance }
        },
        Classification::Directory => dir(ctx, path),
        Classification::File => file(ctx, path),
        Classification::Other => {
            let step = Step { records: Vec::new(), action: Action::Advance };
            assert(step@.records =~= Seq::empty());
            step
        },
    }
}

/// One unit of pending work. `S` is the type of paths: `String` in running
/// code, `Seq<char>` in contracts.
#[derive(Debug)]
pub enum Task<S> {
    /// The path is to be classified and dealt with.
    Visit(S),
    /// Reading `dir` failed with `error` at this point of its listing.
    Fail { dir: S, error: S },
}

impl View for Task<String> {
    type V = Task<Seq<char>>;

    open spec fn view(&self) -> Task<Seq<char>> {
        match *self {
            Task::Visit(p) => Task::Visit(p@),
            Task::Fail { dir, error } => Task::Fail { dir: dir@, error: error@ },
        }
    }
}

/// What the outside reports back to the walk.
#[derive(Debug)]
pub enum Event {
    /// The last action asked for no answer, or the processor is done.
    Resume,
    /// The path was probed and is of this kind.
    Probed { path: String, kind: Classification },
    /// The directory was listed. `entries` are the paths of the entries that
    /// were read, in the order read; `failure` is the error that ended the
    /// listing early, if one did.
    Listed { dir: String, entries: Vec<String>, failure: Option<String> },
}

/// An event as contracts see it.
pub enum EventView {
    Resume,
    Probed { path: Seq<char>, kind: Classification },
    Listed { dir: Seq<char>, entries: Seq<Seq<char>>, failure: Option<Seq<char>> },
}

impl View for Event {
    type V = EventView;

    open spec fn view(&self) -> EventView {
        match *self {
            Event::Resume => EventView::Resume,
            Event::Probed { path, kind } => EventView::Probed { path: path@, kind },
            Event::Listed { dir, entries, failure } => EventView::Listed {
                dir: dir@,
                entries: texts(entries@),
                failure: match failure {
                    Some(e) => Some(e@),
                    None => None,
                },
            },
        }
    }
}

/// The state of a walk as contracts see it.
pub struct WalkView {
    /// The work still to do, first come first.
    pub pending: Seq<Task<Seq<char>>>,
    /// The exit code, once the walk has ended.
    pub ended: Option<i32>,
}

/// A visit of each path, in order.
pub open spec fn visits(paths: Seq<Seq<char>>) -> Seq<Task<Seq<char>>> {
    paths.map_values(|p: Seq<char>| Task::Visit(p))
}

/// The tasks that a listing puts before the pending work: a visit for each
/// entry, and after them the failure, if the listing ended in one.
pub open spec fn listed_tasks(
    dir: Seq<char>,
    entries: Seq<Seq<char>>,
    failure: Option<Seq<char>>,
) -> Seq<Task<Seq<char>>> {
    match failure {
        Some(error) => visits(entries).push(Task::Fail { dir, error }),
        None => visits(entries),
    }
}

/// Taking up the next pending task: a visit asks for a probe; a failure is
/// logged as an error and ends the walk with exit code 1, whatever else is
/// pending; with nothing pending the walk ends with exit code 0.
pub open spec fn taken(pending: Seq<Task<Seq<char>>>) -> (WalkView, StepView) {
    if pending.len() == 0 {
        (
            WalkView { pending: Seq::empty(), ended: Some(0i32) },
            StepView { records: Seq::empty(), action: Action::Exit(0i32) },
        )
    } else {
        match pending[0] {
            Task::Visit(path) => (
                WalkView { pending: pending.drop_first(), ended: None },
                StepView { records: Seq::empty(), action: Action::Probe(path) },
            ),
            Task::Fail { dir, error } => (
                WalkView { pending: Seq::empty(), ended: Some(1i32) },
                StepView {
                    records: seq![record_of(Message::ReadFailed { dir, error })],
                    action: Action::Exit(1i32),
                },
            ),
        }
    }
}

/// What an event by itself calls for, before any pending task is taken up.
pub open spec fn decided(verbose: bool, event: EventView) -> StepView {
    match event {
        EventView::Resume => StepView { records: Seq::empty(), action: Action::Advance },
        EventView::Probed { path, kind } => visited(verbose, path, kind),
        EventView::Listed { .. } => StepView { records: Seq::empty(), action: Action::Advance },
    }
}

/// The tasks that an event puts before the pending work.
pub open spec fn brought(event: EventView) -> Seq<Task<Seq<char>>> {
    match event {
        EventView::Listed { dir, entries, failure } => listed_tasks(dir, entries, failure),
        _ => Seq::empty(),
    }
}

/// The transition of the walk: the state and the step that follow `event`.
///
/// A walk that has ended stays as it is and repeats its exit. Otherwise the
/// event's tasks go before the pending ones; if the event calls for outside
/// work, that is the step; if not, the next pending task is taken up, and
/// the step carries the event's records followed by that task's.
pub open spec fn after(walk: WalkView, verbose: bool, event: EventView) -> (WalkView, StepView) {
    match walk.ended {
        Some(code) => (walk, StepView { records: Seq::empty(), action: Action::Exit(code) }),
        None => {
            let first = decided(verbose, event);
            let pending = brought(event) + walk.pending;
            if first.action is Advance {
                let (next, second) = taken(pending);
                (next, StepView { records: first.records + second.records, action: second.action })
            } else {
                (WalkView { pending, ended: None }, first)
            }
        },
    }
}

/// Whether one of the records is of the given severity.
pub open spec fn has_severity(records: Seq<Record<Seq<char>>>, severity: Severity) -> bool {
    exists|i: int| 0 <= i < records.len() && (#[trigger] records[i]).severity == severity
}

/// A run that is not verbose logs nothing informational, whatever happens.
pub proof fn lemma_quiet_step_has_no_info(walk: WalkView, event: EventView)
    ensures
        !has_severity(after(walk, false, event).1.records, Severity::Info),
{
}

/// An error is logged exactly in the step that ends the walk with exit code
/// 1. It is the only error of that step and its last record, and nothing is
/// pending after it. A walk ends with exit code 0 only when nothing is
/// pending, and never with another code than these two.
pub proof fn lemma_error_ends_the_walk(walk: WalkView, verbose: bool, event: EventView)
    requires
        walk.ended is None,
    ensures
        ({
            let (next, step) = after(walk, verbose, event);
            &&& has_severity(step.records, Severity::Error) <==> step.action == Action::<
                Seq<char>,
            >::Exit(1)
            &&& step.action == Action::<Seq<char>>::Exit(1) ==> {
                &&& step.records.len() > 0
                &&& step.records.last().severity == Severity::Error
                &&& !has_severity(step.records.drop_last(), Severity::Error)
                &&& next.pending.len() == 0
                &&& next.ended == Some(1i32)
            }
            &&& step.action == Action::<Seq<char>>::Exit(0) ==> {
                &&& brought(event).len() == 0
                &&& walk.pending.len() == 0
                &&& next.pending.len() == 0
                &&& next.ended == Some(0i32)
            }
            &&& step.action is Exit <==> next.ended is Some
            &&& step.action matches Action::Exit(code) ==> code == 0 || code == 1
            &&& !(step.action is Advance)
        }),
{
    let (next, step) = after(walk, verbose, event);
    let first = decided(verbose, event);
    let pending = brought(event) + walk.pending;
    if first.action is Advance {
        let (w, second) = taken(pending);
        assert(step.records =~= first.records + second.records);
        assert forall|i: int| 0 <= i < first.records.len() implies (#[trigger] first.records[i]).severity
            != Severity::Error by {}
        if second.records.len() > 0 {
            assert(step.records.drop_last() =~= first.records);
            assert(step.records[step.records.len() - 1] == second.records[0]);
        }
        if has_severity(step.records, Severity::Error) {
            let i = choose|i: int|
                0 <= i < step.records.len() && (#[trigger] step.records[i]).severity
                    == Severity::Error;
            if i < first.records.len() {
                assert(step.records[i] == first.records[i]);
            } else {
                assert(step.records[i] == second.records[i - first.records.len()]);
            }
        }
    }
}

/// A walk that has ended stays as it is: every later step has no records
/// and repeats the exit code.
pub proof fn lemma_ended_walk_stays(walk: WalkView, verbose: bool, event: EventView)
    requires
        walk.ended is Some,
    ensures
        after(walk, verbose, event).0 == walk,
        after(walk, verbose, event).1.records.len() == 0,
        after(walk, verbose, event).1.action == Action::<Seq<char>>::Exit(walk.ended.unwrap()),
{
}

/// The tasks on a stack, top first.
pub open spec fn top_first(stack: Seq<Task<String>>) -> Seq<Task<Seq<char>>> {
    Seq::new(stack.len(), |i: int| stack[stack.len() - 1 - i]@)
}

/// A walk in progress: the work list and, once it has ended, the exit code.
#[derive(Debug)]
pub struct Walk {
    stack: Vec<Task<String>>,
    ended: Option<i32>,
}

impl View for Walk {
    type V = WalkView;

    closed spec fn view(&self) -> WalkView {
        WalkView { pending: top_first(self.stack@), ended: self.ended }
    }
}

/// Pushing a task onto the stack puts it first.
proof fn lemma_push_is_first(stack: Seq<Task<String>>, task: Task<String>)
    ensures
        top_first(stack.push(task)) == seq![task@] + top_first(stack),
{
    assert(top_first(stack.push(task)) =~= seq![task@] + top_first(stack));
}

/// Popping the stack takes the first task away.
proof fn lemma_pop_is_first(stack: Seq<Task<String>>)
    requires
        stack.len() > 0,
    ensures
        top_first(stack)[0] == stack.last()@,
        top_first(stack.drop_last()) == top_first(stack).drop_first(),
{
    assert(top_first(stack.drop_last()) =~= top_first(stack).drop_first());
}

impl Walk {
    /// A walk that will visit `roots` in their order.
    pub fn new(roots: Vec<String>) -> (walk: Walk)
        ensures
            walk@.pending == visits(texts(roots@)),
            walk@.ended is None,
    {
        let mut walk = Walk { stack: Vec::new(), ended: None };
        let ghost all = texts(roots@);
        assert(walk@.pending =~= Seq::empty());
        walk.put_before(roots);
        assert(visits(all) + Seq::empty() =~= visits(all));
        walk
    }

    /// The exit code, once the walk has ended.
    pub fn ended(&self) -> (code: Option<i32>)
        ensures
            code == self@.ended,
    {
        self.ended
    }

    /// The number of tasks that are pending.
    pub fn remaining(&self) -> (n: usize)
        ensures
            n == self@.pending.len(),
    {
        self.stack.len()
    }

    /// Puts a visit of each path before the pending work, in the paths'
    /// order.
    fn put_before(&mut self, paths: Vec<String>)
        ensures
            final(self)@.pending == visits(texts(paths@))
                + old(self)@.pending,
            final(self)@.ended == old(self)@.ended,
    {
        let mut rest = paths;
        let ghost all = texts(paths@);
        let ghost before = self@.pending;
        assert(visits(texts(rest@)) + self@.pending =~= visits(all) + before);
        loop
            invariant
                self.ended == old(self).ended,
                visits(texts(rest@)) + self@.pending == visits(all) + before,
            ensures
                rest@.len() == 0,
            decreases rest@.len(),
        {
            let ghost stack = self.stack@;
            let ghost left = rest@;
            match rest.pop() {
                Some(path) => {
                    let task = Task::Visit(path);
                    proof {
                        lemma_push_is_first(stack, task);
                        let earlier = visits(texts(left.drop_last()));
                        assert(visits(texts(left)) =~= earlier + seq![task@]);
                        assert((earlier + seq![task@]) + top_first(stack) =~= earlier + (seq![
                            task@,
                        ] + top_first(stack)));
                    }
                    self.stack.push(task);
                },
                None => {
                    break ;
                },
            }
        }
        assert(visits(texts(rest@)) =~= Seq::empty());
        assert(Seq::<Task<Seq<char>>>::empty() + self@.pending =~= self@.pending);
    }

    /// Takes up the next pending task.
    fn take(&mut self) -> (step: Step)
        requires
            old(self)@.ended is None,
        ensures
            (final(self)@, step@) == taken(old(self)@.pending),
    {
        let ghost stack = self.stack@;
        match self.stack.pop() {
            None => {
                self.ended = Some(0);
                let step = Step { records: Vec::new(), action: Action::Exit(0) };
                assert(step@.records =~= Seq::empty());
                assert(self@.pending =~= Seq::empty());
                step
            },
            Some(Task::Visit(path)) => {
                proof {
                    lemma_pop_is_first(stack);
                }
                let step = Step { records: Vec::new(), action: Action::Probe(path) };
                assert(step@.records =~= Seq::empty());
                step
            },
            Some(Task::Fail { dir, error }) => {
                proof {
                    lemma_pop_is_first(stack);
                }
                self.stack.clear();
                self.ended = Some(1);
                let mut records = Vec::new();
                records.push(Message::ReadFailed { dir, error }.record());
                let step = Step { records, action: Action::Exit(1) };
                assert(step@.records =~= seq![
                    record_of(Message::ReadFailed { dir: dir@, error: error@ }),
                ]);
                assert(self@.pending =~= Seq::empty());
                step
            },
        }
    }

    /// Tells the walk what the outside found and asks what to do next.
    ///
    /// The records of the step are to be logged in their order, then its
    /// action is to be carried out and the answer handed to the next call:
    /// `Probed` after `Probe`, `Listed` after `List`, `Resume` after
    /// `Process`. After `Exit` the walk is over.
    pub fn step(&mut self, ctx: &Context, event: Event) -> (step: Step)
        ensures
            (final(self)@, step@) == after(old(self)@, ctx.verbose, event@),
            !(step@.action is Advance),
            step@.action is Exit <==> final(self)@.ended is Some,
    {
        if let Some(code) = self.ended {
            let step = Step { records: Vec::new(), action: Action::Exit(code) };
            assert(step@.records =~= Seq::empty());
            return step;
        }
        let ghost pending = self@.pending;
        let first = match event {
            Event::Resume => {
                assert(brought(event@) + pending =~= pending);
                let step = Step { records: Vec::new(), action: Action::Advance };
                assert(step@.records =~= Seq::empty());
                step
            },
            Event::Probed { path, kind } => {
                assert(brought(event@) + pending =~= pending);
                generic(ctx, path, kind)
            },
            Event::Listed { dir, entries, failure } => {
                let ghost first = visits(texts(entries@));
                match failure {
                    Some(error) => {
                        let ghost stack = self.stack@;
                        let task = Task::Fail { dir, error };
                        proof {
                            lemma_push_is_first(stack, task);
                            assert(first + (seq![task@] + pending) =~= first.push(task@)
                                + pending);
                        }
                        self.stack.push(task);
                    },
                    None => {},
                }
                self.put_before(entries);
                let step = Step { records: Vec::new(), action: Action::Advance };
                assert(step@.records =~= Seq::empty());
                step
            },
        };
        match first.action {
            Action::Advance => {
                let second = self.take();
                let mut records = first.records;
                let mut more = second.records;
                let ghost head = records@;
                let ghost tail = more@;
                records.append(&mut more);
                assert(records_view(records@) =~= records_view(head) + records_view(tail));
                Step { records, action: second.action }
            },
            _ => first,
        }
    }
}

/// The warnings about modes that were asked for and are not there.
pub open spec fn mode_warnings(verbose: bool, watch: bool) -> Seq<Record<Seq<char>>> {
    let first = if verbose {
        seq![record_of(Message::<Seq<char>>::VerboseUnimplemented)]
    } else {
        Seq::empty()
    };
    let second = if watch {
        seq![record_of(Message::<Seq<char>>::WatchUnimplemented)]
    } else {
        Seq::empty()
    };
    first + second
}

/// A warning for each repeated path, in order.
pub open spec fn duplicate_warnings(repeated: Seq<Seq<char>>) -> Seq<Record<Seq<char>>> {
    repeated.map_values(|p: Seq<char>| record_of(Message::Duplicate(p)))
}

/// Begins a run over the given paths.
///
/// Returns the walk and the records to log before it starts: a warning for
/// each of the two modes that was asked for, then one for every path that
/// repeats the one before it. The walk visits the remaining paths in the
/// order given.
pub fn begin(verbose: bool, watch: bool, paths: Vec<String>) -> (out: (Walk, Vec<Record<String>>))
    ensures
        out.0@.ended is None,
        out.0@.pending == visits(heads(texts(paths@), sameness())),
        exists|repeated: Seq<Seq<char>>|
            {
                &&& repeated.to_multiset() == repeats(texts(paths@), sameness()).to_multiset()
                &&& records_view(out.1@) == mode_warnings(verbose, watch) + #[trigger] duplicate_warnings(repeated)
            },
{
    let mut records: Vec<Record<String>> = Vec::new();
    if verbose {
        records.push(Message::VerboseUnimplemented.record());
    }
    if watch {
        records.push(Message::WatchUnimplemented.record());
    }
    assert(records_view(records@) =~= mode_warnings(verbose, watch));
    let (roots, repeated) = dedup_paths(paths);
    let ghost all = texts(repeated@);
    let mut rest = repeated;
    let mut i: usize = 0;
    let n = rest.len();
    while i < n
        invariant
            n == rest@.len(),
            i <= n,
            texts(rest@) == all,
            records_view(records@) == mode_warnings(verbose, watch) + duplicate_warnings(
                all.take(i as int),
            ),
        decreases n - i,
    {
        let ghost so_far = records@;
        let record = Message::Duplicate(rest[i].clone()).record();
        records.push(record);
        proof {
            assert(all[i as int] == rest@[i as int]@);
            assert(all.take(i + 1) =~= all.take(i as int).push(all[i as int]));
            assert(records_view(records@) =~= records_view(so_far).push(record@));
            assert(duplicate_warnings(all.take(i + 1)) =~= duplicate_warnings(
                all.take(i as int),
            ).push(record@));
        }
        i += 1;
    }
    assert(all.take(n as int) =~= all);
    (Walk::new(roots), records)
}

} // verus!
