use pathwalk::log::{note, right_align, Context, Message, Severity, ALIGN};

fn all_messages() -> Vec<Message<String>> {
    vec![
        Message::VerboseUnimplemented,
        Message::WatchUnimplemented,
        Message::Duplicate("a".to_string()),
        Message::Missing("b".to_string()),
        Message::Unsupported("c".to_string()),
        Message::Reading("d".to_string()),
        Message::ReadFailed { dir: "e".to_string(), error: "denied".to_string() },
    ]
}

#[test]
fn each_message_has_its_severity() {
    let severities: Vec<Severity> = all_messages().iter().map(|m| m.severity()).collect();
    assert_eq!(
        severities,
        vec![
            Severity::Warn,
            Severity::Warn,
            Severity::Warn,
            Severity::Warn,
            Severity::Info,
            Severity::Info,
            Severity::Error,
        ]
    );
}

#[test]
fn record_keeps_the_message() {
    let record = Message::Missing("gone".to_string()).record();
    assert_eq!(record.severity, Severity::Warn);
    assert!(matches!(record.message, Message::Missing(ref p) if p == "gone"));
}

#[test]
fn info_is_recorded_when_verbose() {
    let ctx = Context { verbose: true };
    let record = ctx.info(Message::Reading("d".to_string()));
    let record = record.expect("a verbose run records informational messages");
    assert_eq!(record.severity, Severity::Info);
    assert!(matches!(record.message, Message::Reading(ref p) if p == "d"));
}

#[test]
fn info_is_dropped_when_quiet() {
    let ctx = Context { verbose: false };
    assert!(ctx.info(Message::Reading("d".to_string())).is_none());
}

#[test]
fn quiet_run_keeps_warnings_and_errors() {
    let ctx = Context { verbose: false };
    let kept: Vec<usize> = all_messages().into_iter().map(|m| note(&ctx, m).len()).collect();
    assert_eq!(kept, vec![1, 1, 1, 1, 0, 0, 1]);
}

#[test]
fn verbose_run_keeps_everything() {
    let ctx = Context { verbose: true };
    let kept: Vec<usize> = all_messages().into_iter().map(|m| note(&ctx, m).len()).collect();
    assert_eq!(kept, vec![1, 1, 1, 1, 1, 1, 1]);
}

#[test]
fn noted_record_has_the_message_severity() {
    let ctx = Context { verbose: true };
    let records = note(&ctx, Message::ReadFailed { dir: "d".to_string(), error: "e".to_string() });
    assert_eq!(records.len(), 1);
    assert_eq!(records[0].severity, Severity::Error);
    let records = note(&ctx, Message::Unsupported("f".to_string()));
    assert_eq!(records[0].severity, Severity::Info);
}

#[test]
fn tags_name_the_severities() {
    assert_eq!(Severity::Debug.tag(), "Debug");
    assert_eq!(Severity::Info.tag(), "Info");
    assert_eq!(Severity::Warn.tag(), "Warn");
    assert_eq!(Severity::Error.tag(), "Error");
}

#[test]
fn labels_are_right_aligned_to_five() {
    assert_eq!(ALIGN, 5);
    assert_eq!(Severity::Debug.label(), "Debug");
    assert_eq!(Severity::Info.label(), " Info");
    assert_eq!(Severity::Warn.label(), " Warn");
    assert_eq!(Severity::Error.label(), "Error");
}

#[test]
fn short_text_is_padded_on_the_left() {
    assert_eq!(right_align("ab", 5), "   ab");
    assert_eq!(right_align("", 3), "   ");
    assert_eq!(right_align("", 0), "");
}

#[test]
fn long_text_is_not_cut() {
    assert_eq!(right_align("abcde", 5), "abcde");
    assert_eq!(right_align("abcdef", 5), "abcdef");
    assert_eq!(right_align("abc", 0), "abc");
}

#[test]
fn width_counts_characters_not_bytes() {
    assert_eq!(right_align("\u{e9}t\u{e9}", 5), "  \u{e9}t\u{e9}");
    assert_eq!(right_align("\u{e9}", 1), "\u{e9}");
}
