use pathwalk::log::{Context, Message, Severity};
use pathwalk::route;
use pathwalk::route::{supports, SUPPORTED_FILE_EXTS};
use pathwalk::step::Action;

const QUIET: Context = Context { verbose: false };
const VERBOSE: Context = Context { verbose: true };

#[test]
fn css_is_the_supported_extension() {
    assert_eq!(SUPPORTED_FILE_EXTS, ["css"]);
}

#[test]
fn extension_is_matched_without_regard_to_ascii_case() {
    assert!(supports(Some("css")));
    assert!(supports(Some("CSS")));
    assert!(supports(Some("cSs")));
}

#[test]
fn other_extensions_are_not_supported() {
    assert!(!supports(Some("txt")));
    assert!(!supports(Some("cs")));
    assert!(!supports(Some("csss")));
    assert!(!supports(Some("")));
    assert!(!supports(Some("c\u{17f}s")));
    assert!(!supports(None));
}

#[test]
fn supported_file_goes_to_the_processor() {
    let step = route::file(&QUIET, "site/x.css".to_string());
    assert!(step.records.is_empty());
    assert!(matches!(step.action, Action::Process(ref p) if p == "site/x.css"));
}

#[test]
fn upper_case_extension_goes_to_the_processor() {
    let step = route::file(&VERBOSE, "X.CSS".to_string());
    assert!(step.records.is_empty());
    assert!(matches!(step.action, Action::Process(ref p) if p == "X.CSS"));
}

#[test]
fn unsupported_file_is_skipped_in_silence_when_quiet() {
    let step = route::file(&QUIET, "y.txt".to_string());
    assert!(step.records.is_empty());
    assert!(matches!(step.action, Action::Advance));
}

#[test]
fn unsupported_file_is_skipped_with_a_note_when_verbose() {
    let step = route::file(&VERBOSE, "y.txt".to_string());
    assert_eq!(step.records.len(), 1);
    assert_eq!(step.records[0].severity, Severity::Info);
    assert!(matches!(step.records[0].message, Message::Unsupported(ref p) if p == "y.txt"));
    assert!(matches!(step.action, Action::Advance));
}

#[test]
fn file_without_extension_is_skipped() {
    let step = route::file(&VERBOSE, "Makefile".to_string());
    assert_eq!(step.records.len(), 1);
    assert!(matches!(step.records[0].message, Message::Unsupported(ref p) if p == "Makefile"));
    assert!(matches!(step.action, Action::Advance));
}

#[test]
fn dot_file_named_like_the_extension_is_skipped() {
    let step = route::file(&QUIET, ".css".to_string());
    assert!(matches!(step.action, Action::Advance));
}

#[test]
fn extension_of_a_directory_part_does_not_count() {
    let step = route::file(&QUIET, "theme.css/readme".to_string());
    assert!(matches!(step.action, Action::Advance));
}

#[test]
fn only_the_last_extension_counts() {
    let step = route::file(&QUIET, "a.css.bak".to_string());
    assert!(matches!(step.action, Action::Advance));
    let step = route::file(&QUIET, "a.min.css".to_string());
    assert!(matches!(step.action, Action::Process(_)));
}

#[test]
fn route_goes_by_the_extension_it_is_given() {
    let step = route::route(&QUIET, "anything".to_string(), Some("Css"));
    assert!(matches!(step.action, Action::Process(ref p) if p == "anything"));
    let step = route::route(&VERBOSE, "x.css".to_string(), None);
    assert_eq!(step.records.len(), 1);
    assert!(matches!(step.action, Action::Advance));
}
