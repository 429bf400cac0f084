use std::collections::HashMap;

use pathwalk::log::{Context, Message, Record, Severity};
use pathwalk::step::Action;
use pathwalk::walk::{begin, classify, dir, generic, Classification, Event, Walk};

/// A file system made up for a test.
enum Node {
    File,
    Other,
    Dir(Vec<&'static str>),
    Unreadable(&'static str),
    Broken(Vec<&'static str>, &'static str),
}

struct Run {
    records: Vec<Record<String>>,
    probed: Vec<String>,
    processed: Vec<String>,
    exit: i32,
}

fn strings(items: &[&str]) -> Vec<String> {
    items.iter().map(|s| s.to_string()).collect()
}

fn probe(fs: &HashMap<&'static str, Node>, path: String) -> Event {
    let kind = match fs.get(path.as_str()) {
        None => classify(false, false, false),
        Some(Node::File) => classify(true, false, true),
        Some(Node::Other) => classify(true, false, false),
        Some(_) => classify(true, true, false),
    };
    Event::Probed { path, kind }
}

fn list(fs: &HashMap<&'static str, Node>, dir: String) -> Event {
    let (entries, failure) = match fs.get(dir.as_str()) {
        Some(Node::Dir(entries)) => (strings(entries), None),
        Some(Node::Unreadable(error)) => (Vec::new(), Some(error.to_string())),
        Some(Node::Broken(entries, error)) => (strings(entries), Some(error.to_string())),
        _ => panic!("{dir} was listed and is no directory"),
    };
    Event::Listed { dir, entries, failure }
}

fn run(fs: &HashMap<&'static str, Node>, verbose: bool, roots: &[&str]) -> Run {
    let ctx = Context { verbose };
    let mut walk = Walk::new(strings(roots));
    let mut out = Run { records: Vec::new(), probed: Vec::new(), processed: Vec::new(), exit: -1 };
    let mut event = Event::Resume;
    for _ in 0..1000 {
        let step = walk.step(&ctx, event);
        out.records.extend(step.records);
        event = match step.action {
            Action::Advance => panic!("a step never ends in Advance"),
            Action::Probe(path) => {
                out.probed.push(path.clone());
                probe(fs, path)
            }
            Action::List(dir) => list(fs, dir),
            Action::Process(path) => {
                out.processed.push(path);
                Event::Resume
            }
            Action::Exit(code) => {
                out.exit = code;
                assert_eq!(walk.ended(), Some(code));
                return out;
            }
        };
    }
    panic!("the walk did not end");
}

fn site() -> HashMap<&'static str, Node> {
    let mut fs = HashMap::new();
    fs.insert("D", Node::Dir(vec!["D/x.css", "D/y.txt"]));
    fs.insert("D/x.css", Node::File);
    fs.insert("D/y.txt", Node::File);
    fs
}

#[test]
fn classification_follows_the_three_answers() {
    assert_eq!(classify(false, false, false), Classification::Missing);
    assert_eq!(classify(false, true, true), Classification::Missing);
    assert_eq!(classify(true, true, false), Classification::Directory);
    assert_eq!(classify(true, true, true), Classification::Directory);
    assert_eq!(classify(true, false, true), Classification::File);
    assert_eq!(classify(true, false, false), Classification::Other);
}

#[test]
fn directory_with_a_missing_sibling_verbose() {
    let out = run(&site(), true, &["D", "M"]);
    assert_eq!(out.exit, 0);
    assert_eq!(out.processed, strings(&["D/x.css"]));
    assert_eq!(out.probed, strings(&["D", "D/x.css", "D/y.txt", "M"]));
    assert_eq!(out.records.len(), 3);
    assert_eq!(out.records[0].severity, Severity::Info);
    assert!(matches!(out.records[0].message, Message::Reading(ref p) if p == "D"));
    assert_eq!(out.records[1].severity, Severity::Info);
    assert!(matches!(out.records[1].message, Message::Unsupported(ref p) if p == "D/y.txt"));
    assert_eq!(out.records[2].severity, Severity::Warn);
    assert!(matches!(out.records[2].message, Message::Missing(ref p) if p == "M"));
}

#[test]
fn directory_with_a_missing_sibling_quiet() {
    let out = run(&site(), false, &["D", "M"]);
    assert_eq!(out.exit, 0);
    assert_eq!(out.processed, strings(&["D/x.css"]));
    assert_eq!(out.records.len(), 1);
    assert_eq!(out.records[0].severity, Severity::Warn);
    assert!(matches!(out.records[0].message, Message::Missing(ref p) if p == "M"));
}

#[test]
fn missing_root_first_does_not_stop_the_walk() {
    let out = run(&site(), false, &["M", "D"]);
    assert_eq!(out.exit, 0);
    assert_eq!(out.probed, strings(&["M", "D", "D/x.css", "D/y.txt"]));
    assert_eq!(out.processed, strings(&["D/x.css"]));
    assert_eq!(out.records.len(), 1);
}

#[test]
fn unreadable_directory_ends_the_run() {
    let mut fs = site();
    fs.insert("locked", Node::Unreadable("permission denied"));
    let out = run(&fs, false, &["locked", "D"]);
    assert_eq!(out.exit, 1);
    assert_eq!(out.records.len(), 1);
    assert_eq!(out.records[0].severity, Severity::Error);
    assert!(matches!(
        out.records[0].message,
        Message::ReadFailed { ref dir, ref error } if dir == "locked" && error == "permission denied"
    ));
    assert_eq!(out.probed, strings(&["locked"]));
    assert!(out.processed.is_empty());
}

#[test]
fn unreadable_directory_after_other_roots() {
    let mut fs = site();
    fs.insert("locked", Node::Unreadable("permission denied"));
    let out = run(&fs, true, &["D", "locked", "M"]);
    assert_eq!(out.exit, 1);
    assert_eq!(out.processed, strings(&["D/x.css"]));
    assert_eq!(out.probed, strings(&["D", "D/x.css", "D/y.txt", "locked"]));
    let errors: Vec<&Record<String>> =
        out.records.iter().filter(|r| r.severity == Severity::Error).collect();
    assert_eq!(errors.len(), 1);
    assert!(matches!(out.records.last().unwrap().message, Message::ReadFailed { .. }));
    assert!(!out.records.iter().any(|r| matches!(r.message, Message::Missing(_))));
}

#[test]
fn entries_before_a_failed_entry_are_still_walked() {
    let mut fs = HashMap::new();
    fs.insert("top", Node::Broken(vec!["top/a.css", "top/sub"], "input/output error"));
    fs.insert("top/a.css", Node::File);
    fs.insert("top/sub", Node::Dir(vec!["top/sub/b.css"]));
    fs.insert("top/sub/b.css", Node::File);
    fs.insert("later.css", Node::File);
    let out = run(&fs, false, &["top", "later.css"]);
    assert_eq!(out.exit, 1);
    assert_eq!(out.processed, strings(&["top/a.css", "top/sub/b.css"]));
    assert_eq!(out.records.len(), 1);
    assert!(matches!(
        out.records[0].message,
        Message::ReadFailed { ref dir, ref error } if dir == "top" && error == "input/output error"
    ));
}

#[test]
fn nested_directories_are_walked_depth_first() {
    let mut fs = HashMap::new();
    fs.insert("r", Node::Dir(vec!["r/a", "r/b.css"]));
    fs.insert("r/a", Node::Dir(vec!["r/a/1.css", "r/a/deep"]));
    fs.insert("r/a/1.css", Node::File);
    fs.insert("r/a/deep", Node::Dir(vec!["r/a/deep/2.CSS"]));
    fs.insert("r/a/deep/2.CSS", Node::File);
    fs.insert("r/b.css", Node::File);
    fs.insert("z.css", Node::File);
    let out = run(&fs, true, &["r", "z.css"]);
    assert_eq!(out.exit, 0);
    assert_eq!(out.processed, strings(&["r/a/1.css", "r/a/deep/2.CSS", "r/b.css", "z.css"]));
    let read: Vec<&str> = out
        .records
        .iter()
        .map(|r| match &r.message {
            Message::Reading(p) => p.as_str(),
            _ => panic!("only directories are announced here"),
        })
        .collect();
    assert_eq!(read, vec!["r", "r/a", "r/a/deep"]);
}

#[test]
fn special_file_is_passed_over_in_silence() {
    let mut fs = HashMap::new();
    fs.insert("sock", Node::Other);
    let out = run(&fs, true, &["sock"]);
    assert_eq!(out.exit, 0);
    assert!(out.records.is_empty());
    assert!(out.processed.is_empty());
}

#[test]
fn empty_directory_and_no_roots() {
    let mut fs = HashMap::new();
    fs.insert("empty", Node::Dir(Vec::new()));
    let out = run(&fs, false, &["empty"]);
    assert_eq!(out.exit, 0);
    assert!(out.records.is_empty());
    let out = run(&fs, true, &[]);
    assert_eq!(out.exit, 0);
    assert!(out.records.is_empty());
    assert!(out.probed.is_empty());
}

#[test]
fn a_root_given_twice_apart_is_walked_twice() {
    let out = run(&site(), false, &["D/x.css", "D", "D/x.css"]);
    assert_eq!(out.exit, 0);
    assert_eq!(out.processed, strings(&["D/x.css", "D/x.css", "D/x.css"]));
}

#[test]
fn duplicate_roots_are_walked_once() {
    let mut fs = HashMap::new();
    fs.insert("a", Node::File);
    fs.insert("b", Node::File);
    let ctx = Context { verbose: false };
    let (mut walk, records) = begin(false, false, strings(&["a", "a", "b"]));
    assert_eq!(records.len(), 1);
    let mut probed = Vec::new();
    let mut event = Event::Resume;
    loop {
        let step = walk.step(&ctx, event);
        event = match step.action {
            Action::Probe(path) => {
                probed.push(path.clone());
                probe(&fs, path)
            }
            Action::Exit(code) => {
                assert_eq!(code, 0);
                break;
            }
            _ => panic!("plain files without a supported extension ask for nothing else"),
        };
    }
    assert_eq!(probed, strings(&["a", "b"]));
}

#[test]
fn ended_walk_repeats_its_exit() {
    let ctx = Context { verbose: true };
    let mut walk = Walk::new(Vec::new());
    assert_eq!(walk.ended(), None);
    let step = walk.step(&ctx, Event::Resume);
    assert!(matches!(step.action, Action::Exit(0)));
    let step = walk.step(
        &ctx,
        Event::Listed { dir: "d".to_string(), entries: strings(&["d/a"]), failure: None },
    );
    assert!(step.records.is_empty());
    assert!(matches!(step.action, Action::Exit(0)));
    assert_eq!(walk.remaining(), 0);
}

#[test]
fn failed_walk_repeats_its_exit() {
    let ctx = Context { verbose: false };
    let mut walk = Walk::new(strings(&["next"]));
    let step = walk.step(
        &ctx,
        Event::Listed { dir: "d".to_string(), entries: Vec::new(), failure: Some("e".to_string()) },
    );
    assert_eq!(step.records.len(), 1);
    assert!(matches!(step.action, Action::Exit(1)));
    assert_eq!(walk.ended(), Some(1));
    assert_eq!(walk.remaining(), 0);
    let step = walk.step(&ctx, Event::Resume);
    assert!(step.records.is_empty());
    assert!(matches!(step.action, Action::Exit(1)));
}

#[test]
fn generic_decides_by_kind() {
    let ctx = Context { verbose: true };
    let step = generic(&ctx, "m".to_string(), Classification::Missing);
    assert_eq!(step.records.len(), 1);
    assert_eq!(step.records[0].severity, Severity::Warn);
    assert!(matches!(step.action, Action::Advance));
    let step = generic(&ctx, "d".to_string(), Classification::Directory);
    assert_eq!(step.records.len(), 1);
    assert!(matches!(step.action, Action::List(ref p) if p == "d"));
    let step = generic(&ctx, "f.css".to_string(), Classification::File);
    assert!(step.records.is_empty());
    assert!(matches!(step.action, Action::Process(ref p) if p == "f.css"));
    let step = generic(&ctx, "f.txt".to_string(), Classification::File);
    assert_eq!(step.records.len(), 1);
    assert!(matches!(step.action, Action::Advance));
    let step = generic(&ctx, "o".to_string(), Classification::Other);
    assert!(step.records.is_empty());
    assert!(matches!(step.action, Action::Advance));
}

#[test]
fn missing_path_is_warned_about_when_quiet_too() {
    let ctx = Context { verbose: false };
    let step = generic(&ctx, "m".to_string(), Classification::Missing);
    assert_eq!(step.records.len(), 1);
    assert!(matches!(step.records[0].message, Message::Missing(ref p) if p == "m"));
}

#[test]
fn dir_announces_only_when_verbose() {
    let step = dir(&Context { verbose: false }, "d".to_string());
    assert!(step.records.is_empty());
    assert!(matches!(step.action, Action::List(ref p) if p == "d"));
    let step = dir(&Context { verbose: true }, "d".to_string());
    assert_eq!(step.records.len(), 1);
    assert_eq!(step.records[0].severity, Severity::Info);
    assert!(matches!(step.records[0].message, Message::Reading(ref p) if p == "d"));
}
