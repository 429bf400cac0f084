//! What the walk has to say: severities, messages and records.
//!
//! A record is data. Writing it to a stream, and what colour its tag has
//! there, is left to the caller.

use vstd::prelude::*;
use vstd::string::*;

verus! {

/// The width to which a severity's tag is right-aligned in a log line.
pub const ALIGN: usize = 5;

/// How serious a record is.
#[derive(Clone, Copy, Debug, PartialEq, Eq, Structural)]
pub enum Severity {
    Debug,
    Info,
    Warn,
    Error,
}

/// The tag under which a severity appears in a log line.
pub open spec fn tag_of(severity: Severity) -> Seq<char> {
    match severity {
        Severity::Debug => "Debug"@,
        Severity::Info => "Info"@,
        Severity::Warn => "Warn"@,
        Severity::Error => "Error"@,
    }
}

/// `text` with as many spaces before it as it is shorter than `width`.
pub open spec fn right_aligned(text: Seq<char>, width: nat) -> Seq<char> {
    if text.len() >= width {
        text
    } else {
        Seq::new((width - text.len()) as nat, |i: int| ' ') + text
    }
}

/// Pads `text` with spaces on the left to `width` characters. A text that
/// is as long or longer comes back as it is.
pub fn right_align(text: &str, width: usize) -> (out: String)
    ensures
        out@ == right_aligned(text@, width as nat),
{
    let len = text.unicode_len();
    let mut out = String::new();
    let mut at: usize = len;
    while at < width
        invariant
            len == text@.len(),
            len <= at,
            len < width ==> at <= width,
            len >= width ==> at == len,
            out@ == Seq::new((at - len) as nat, |i: int| ' '),
        decreases width - at,
    {
        proof {
            reveal_strlit(" ");
        }
        out.append(" ");
        at += 1;
        assert(out@ =~= Seq::new((at - len) as nat, |i: int| ' '));
    }
    out.append(text);
    assert(out@ =~= right_aligned(text@, width as nat));
    out
}

impl Severity {
    /// The tag under which this severity appears in a log line.
    pub fn tag(&self) -> (tag: &'static str)
        ensures
            tag@ == tag_of(*self),
    {
        match self {
            Severity::Debug => "Debug",
            Severity::Info => "Info",
            Severity::Warn => "Warn",
            Severity::Error => "Error",
        }
    }

    /// The tag, right-aligned to [`ALIGN`] characters.
    pub fn label(&self) -> (label: String)
        ensures
            label@ == right_aligned(tag_of(*self), ALIGN as nat),
            label@.len() == ALIGN,
    {
        proof {
            reveal_strlit("Debug");
            reveal_strlit("Info");
            reveal_strlit("Warn");
            reveal_strlit("Error");
        }
        right_align(self.tag(), ALIGN)
    }
}

/// What a record says. `S` is the type of the paths it names: `String` in
/// running code, `Seq<char>` in contracts.
#[derive(Debug)]
pub enum Message<S> {
    /// Verbose mode was asked for and does nothing more than enable the
    /// informational records.
    VerboseUnimplemented,
    /// Watch mode was asked for and does nothing.
    WatchUnimplemented,
    /// The path was given more than once.
    Duplicate(S),
    /// The path does not exist.
    Missing(S),
    /// The file's extension is not a supported one.
    Unsupported(S),
    /// The directory is about to be read.
    Reading(S),
    /// The directory, or one of its entries, could not be read.
    ReadFailed { dir: S, error: S },
}

/// A message with its severity.
#[derive(Debug)]
pub struct Record<S> {
    pub severity: Severity,
    pub message: Message<S>,
}

impl View for Message<String> {
    type V = Message<Seq<char>>;

    open spec fn view(&self) -> Message<Seq<char>> {
        match *self {
            Message::VerboseUnimplemented => Message::VerboseUnimplemented,
            Message::WatchUnimplemented => Message::WatchUnimplemented,
            Message::Duplicate(p) => Message::Duplicate(p@),
            Message::Missing(p) => Message::Missing(p@),
            Message::Unsupported(p) => Message::Unsupported(p@),
            Message::Reading(p) => Message::Reading(p@),
            Message::ReadFailed { dir, error } => Message::ReadFailed { dir: dir@, error: error@ },
        }
    }
}

impl View for Record<String> {
    type V = Record<Seq<char>>;

    open spec fn view(&self) -> Record<Seq<char>> {
        Record { severity: self.severity, message: self.message@ }
    }
}

/// The views of a list of records, in order.
pub open spec fn records_view(records: Seq<Record<String>>) -> Seq<Record<Seq<char>>> {
    records.map_values(|r: Record<String>| r@)
}

/// The severity at which a message is recorded.
pub open spec fn severity_of(message: Message<Seq<char>>) -> Severity {
    match message {
        Message::VerboseUnimplemented => Severity::Warn,
        Message::WatchUnimplemented => Severity::Warn,
        Message::Duplicate(_) => Severity::Warn,
        Message::Missing(_) => Severity::Warn,
        Message::Unsupported(_) => Severity::Info,
        Message::Reading(_) => Severity::Info,
        Message::ReadFailed { .. } => Severity::Error,
    }
}

/// The record of a message, at the message's own severity.
pub open spec fn record_of(message: Message<Seq<char>>) -> Record<Seq<char>> {
    Record { severity: severity_of(message), message }
}

/// The records that reach the log: informational ones only when `verbose`.
pub open spec fn emitted(verbose: bool, message: Message<Seq<char>>) -> Seq<Record<Seq<char>>> {
    if severity_of(message) == Severity::Info && !verbose {
        Seq::empty()
    } else {
        seq![record_of(message)]
    }
}

impl Message<String> {
    /// The severity at which this message is recorded.
    pub fn severity(&self) -> (s: Severity)
        ensures
            s == severity_of(self@),
    {
        match self {
            Message::VerboseUnimplemented => Severity::Warn,
            Message::WatchUnimplemented => Severity::Warn,
            Message::Duplicate(_) => Severity::Warn,
            Message::Missing(_) => Severity::Warn,
            Message::Unsupported(_) => Severity::Info,
            Message::Reading(_) => Severity::Info,
            Message::ReadFailed { .. } => Severity::Error,
        }
    }

    /// Turns the message into a record at its own severity.
    pub fn record(self) -> (r: Record<String>)
        ensures
            r@ == record_of(self@),
    {
        let severity = self.severity();
        Record { severity, message: self }
    }
}

/// Configuration of one run, handed to every step of the walk.
#[derive(Clone, Copy, Debug, PartialEq, Eq, Structural)]
pub struct Context {
    pub verbose: bool,
}

impl Context {
    /// An informational record of `message`, if this run is verbose.
    pub fn info(&self, message: Message<String>) -> (out: Option<Record<String>>)
        ensures
            match out {
                Some(r) => self.verbose && r@ == (Record {
                    severity: Severity::Info,
                    message: message@,
                }),
                None => !self.verbose,
            },
    {
        if self.verbose {
            Some(Record { severity: Severity::Info, message })
        } else {
            None
        }
    }
}

/// The records that `message` adds to the log of a run: one record at the
/// message's severity, or none if that is informational and the run is not
/// verbose.
pub fn note(ctx: &Context, message: Message<String>) -> (records: Vec<Record<String>>)
    ensures
        records_view(records@) == emitted(ctx.verbose, message@),
{
    let mut records = Vec::new();
    match message.severity() {
        Severity::Info => {
            if let Some(r) = ctx.info(message) {
                records.push(r);
            }
        },
        _ => {
            records.push(message.record());
        },
    }
    assert(records_view(records@) =~= emitted(ctx.verbose, message@));
    records
}

} // verus!
