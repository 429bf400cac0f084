//! The extension router: which files go on to the processor.

use vstd::prelude::*;
use vstd::string::*;
use crate::log::{emitted, note, Context, Message};
use crate::step::{Action, Step, StepView};

verus! {

/// The extension that `std::path::Path::extension` finds in a path, under
/// the path syntax of the platform the library is built for.
pub uninterp spec fn path_extension(path: Seq<char>) -> Option<Seq<char>>;

/// `std::path::Path::extension`: the part of the path's file name after its
/// last dot, if the path has a file name with such a part. The contract
/// only gives the result its name; nothing else is claimed of it.
#[verifier::external_body]
fn extension(path: &str) -> (ext: Option<String>)
    ensures
        ext.deep_view() == path_extension(path@),
{
    let ext = std::path::Path::new(path).extension()?;
    Some(ext.to_string_lossy().into_owned())
}

/// An ASCII capital letter as its small letter, any other character as
/// itself.
pub open spec fn ascii_lower(c: char) -> char {
    if 'A' <= c && c <= 'Z' {
        ((c as u32) + 32) as char
    } else {
        c
    }
}

/// The two texts are equal once ASCII capitals are read as small letters.
pub open spec fn same_ignoring_ascii_case(a: Seq<char>, b: Seq<char>) -> bool {
    a.map_values(|c: char| ascii_lower(c)) == b.map_values(|c: char| ascii_lower(c))
}

/// `str::eq_ignore_ascii_case`: whether the two strings have the same
/// ASCII-lowercase form, where only `A` to `Z` are changed.
pub assume_specification[ str::eq_ignore_ascii_case ](a: &str, b: &str) -> (same: bool)
    ensures
        same == same_ignoring_ascii_case(a@, b@),
;

/// The extensions of the files that the processor takes.
pub const SUPPORTED_FILE_EXTS: [&'static str; 1] = ["css"];

/// The extension, if any, matches a supported one without regard to ASCII
/// case.
pub open spec fn is_supported(ext: Option<Seq<char>>) -> bool {
    match ext {
        Some(e) => exists|i: int|
            0 <= i < SUPPORTED_FILE_EXTS@.len() && same_ignoring_ascii_case(
                e,
                #[trigger] SUPPORTED_FILE_EXTS@[i]@,
            ),
        None => false,
    }
}

/// What becomes of a file whose extension is `ext`: on to the processor if
/// the extension is supported, else an informational record and on to the
/// next path.
pub open spec fn routed(verbose: bool, path: Seq<char>, ext: Option<Seq<char>>) -> StepView {
    if is_supported(ext) {
        StepView { records: Seq::empty(), action: Action::Process(path) }
    } else {
        StepView { records: emitted(verbose, Message::Unsupported(path)), action: Action::Advance }
    }
}

/// Whether a file with this extension is one the processor takes.
pub fn supports(ext: Option<&str>) -> (yes: bool)
    ensures
        yes == is_supported(ext.deep_view()),
{
    match ext {
        Some(e) => {
            let mut i: usize = 0;
            while i < SUPPORTED_FILE_EXTS.len()
                invariant
                    ext == Some(e),
                    i <= SUPPORTED_FILE_EXTS@.len(),
                    forall|j: int|
                        0 <= j < i ==> !same_ignoring_ascii_case(
                            e@,
                            #[trigger] SUPPORTED_FILE_EXTS@[j]@,
                        ),
                decreases SUPPORTED_FILE_EXTS@.len() - i,
            {
                if e.eq_ignore_ascii_case(SUPPORTED_FILE_EXTS[i]) {
                    assert(same_ignoring_ascii_case(e@, SUPPORTED_FILE_EXTS@[i as int]@));
                    return true;
                }
                i += 1;
            }
            false
        },
        None => false,
    }
}

/// Routes a file whose extension has been found: a supported one goes to
/// the processor, any other is passed over with an informational record.
pub fn route(ctx: &Context, path: String, ext: Option<&str>) -> (step: Step)
    ensures
        step@ == routed(ctx.verbose, path@, ext.deep_view()),
{
    if supports(ext) {
        let step = Step { records: Vec::new(), action: Action::Process(path) };
        assert(step@.records =~= Seq::empty());
        step
    } else {
        let records = note(ctx, Message::Unsupported(path));
        Step { records, action: Action::Advance }
    }
}

/// Routes a file by the extension of its path.
pub fn file(ctx: &Context, path: String) -> (step: Step)
    ensures
        step@ == routed(ctx.verbose, path@, path_extension(path@)),
{
    let ext = extension(path.as_str());
    match &ext {
        Some(e) => route(ctx, path, Some(e.as_str())),
        None => route(ctx, path, None),
    }
}

} // verus!
