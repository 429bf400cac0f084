//! What one decision of the walk hands back: records to log and the next
//! piece of outside work.

use vstd::prelude::*;
use crate::log::{records_view, Record};

verus! {

/// The outside work that the walk asks for next. `S` is the type of paths:
/// `String` in running code, `Seq<char>` in contracts.
#[derive(Debug)]
pub enum Action<S> {
    /// Nothing outside is needed: go on with what is pending.
    Advance,
    /// Find out whether the path exists and what it is.
    Probe(S),
    /// Read the directory's entries.
    List(S),
    /// Hand the file to the processor.
    Process(S),
    /// End the run with this exit code.
    Exit(i32),
}

impl View for Action<String> {
    type V = Action<Seq<char>>;

    open spec fn view(&self) -> Action<Seq<char>> {
        match *self {
            Action::Advance => Action::Advance,
            Action::Probe(p) => Action::Probe(p@),
            Action::List(p) => Action::List(p@),
            Action::Process(p) => Action::Process(p@),
            Action::Exit(code) => Action::Exit(code),
        }
    }
}

/// The records to log, in order, and then the action to take.
#[derive(Debug)]
pub struct Step {
    pub records: Vec<Record<String>>,
    pub action: Action<String>,
}

/// A step as contracts see it.
pub struct StepView {
    pub records: Seq<Record<Seq<char>>>,
    pub action: Action<Seq<char>>,
}

impl View for Step {
    type V = StepView;

    open spec fn view(&self) -> StepView {
        StepView { records: records_view(self.records@), action: self.action@ }
    }
}

} // verus!
