//! The paths a run starts from: the given paths without repeated runs.

use vstd::prelude::*;
use vstd::seq_lib::*;
use crate::partition::{answers_as, heads, partition_dedup_by, repeats};

verus! {

/// Whether `std::path::Path` calls two paths equal, under the path syntax
/// of the platform the library is built for.
pub uninterp spec fn paths_equal(a: Seq<char>, b: Seq<char>) -> bool;

/// `==` of `std::path::Path`: whether the two paths are equal as paths. The
/// contract only gives the result its name; nothing else is claimed of it.
#[verifier::external_body]
fn same_path(a: &str, b: &str) -> (same: bool)
    ensures
        same == paths_equal(a@, b@),
{
    std::path::Path::new(a) == std::path::Path::new(b)
}

/// The text of a path.
pub open spec fn text_of() -> spec_fn(String) -> Seq<char> {
    |p: String| p@
}

/// The texts of a list of paths, in order.
pub open spec fn texts(paths: Seq<String>) -> Seq<Seq<char>> {
    paths.map_values(text_of())
}

/// Path equality as a relation on texts.
pub open spec fn sameness() -> spec_fn(Seq<char>, Seq<char>) -> bool {
    |a: Seq<char>, b: Seq<char>| paths_equal(a, b)
}

/// Path equality as a relation on strings.
pub open spec fn string_sameness() -> spec_fn(String, String) -> bool {
    |a: String, b: String| paths_equal(a@, b@)
}

/// Taking texts commutes with taking the heads and the repeats of runs.
proof fn lemma_texts_of_runs(s: Seq<String>)
    ensures
        texts(heads(s, string_sameness())) == heads(texts(s), sameness()),
        texts(repeats(s, string_sameness())) == repeats(texts(s), sameness()),
    decreases s.len(),
{
    if s.len() == 0 {
        assert(texts(heads(s, string_sameness())) =~= heads(texts(s), sameness()));
        assert(texts(repeats(s, string_sameness())) =~= repeats(texts(s), sameness()));
    } else {
        lemma_texts_of_runs(s.drop_last());
        assert(texts(s).drop_last() =~= texts(s.drop_last()));
        assert(texts(s).last() == s.last()@);
        let before = heads(s.drop_last(), string_sameness());
        if before.len() > 0 {
            assert(texts(before).last() == before.last()@);
        }
        assert(texts(heads(s, string_sameness())) =~= heads(texts(s), sameness()));
        assert(texts(repeats(s, string_sameness())) =~= repeats(texts(s), sameness()));
    }
}

/// Sequences with the same elements have the same elements after a map.
pub proof fn lemma_map_keeps_elements<A, B>(a: Seq<A>, b: Seq<A>, f: spec_fn(A) -> B)
    requires
        a.to_multiset() == b.to_multiset(),
    ensures
        a.map_values(f).to_multiset() == b.map_values(f).to_multiset(),
    decreases a.len(),
{
    to_multiset_len(a);
    to_multiset_len(b);
    if a.len() == 0 {
        assert(a.map_values(f) =~= b.map_values(f));
    } else {
        let x = a.last();
        to_multiset_contains(a, x);
        to_multiset_contains(b, x);
        assert(a.contains(x));
        let i = choose|i: int| 0 <= i < b.len() && b[i] == x;
        let a1 = a.drop_last();
        let b1 = b.remove(i);
        assert(a1 =~= a.remove(a.len() - 1));
        to_multiset_remove(a, a.len() - 1);
        to_multiset_remove(b, i);
        lemma_map_keeps_elements(a1, b1, f);
        assert(a.map_values(f) =~= a1.map_values(f).push(f(x)));
        assert(b.map_values(f) =~= b1.map_values(f).insert(i, f(x)));
        to_multiset_build(a1.map_values(f), f(x));
        to_multiset_insert(b1.map_values(f), i, f(x));
    }
}

/// What a partition of strings under path equality gives, read as texts.
proof fn lemma_dedup_texts(orig: Seq<String>, front: Seq<String>, back: Seq<String>)
    requires
        front == heads(orig, string_sameness()),
        back.to_multiset() == repeats(orig, string_sameness()).to_multiset(),
    ensures
        texts(front) == heads(texts(orig), sameness()),
        texts(back).to_multiset() == repeats(texts(orig), sameness()).to_multiset(),
{
    lemma_texts_of_runs(orig);
    lemma_map_keeps_elements(back, repeats(orig, string_sameness()), text_of());
}

/// Splits the given paths into the first path of every run of equal paths,
/// in the order given, and the paths that repeat the one before them.
pub fn dedup_paths(paths: Vec<String>) -> (out: (Vec<String>, Vec<String>))
    ensures
        texts(out.0@) == heads(texts(paths@), sameness()),
        texts(out.1@).to_multiset() == repeats(texts(paths@), sameness()).to_multiset(),
        out.0@.len() + out.1@.len() == paths@.len(),
{
    let mut paths = paths;
    let ghost orig = paths@;
    let same = |a: &String, b: &String| -> (r: bool)
        ensures
            r == paths_equal(a@, b@),
        { same_path(a.as_str(), b.as_str()) };
    assert(answers_as(same, string_sameness()));
    let (front, back) = partition_dedup_by(paths.as_mut_slice(), same);
    let kept = front.len();
    let ghost heads_now = front@;
    let ghost dups_now = back@;
    proof {
        lemma_dedup_texts(orig, heads_now, dups_now);
    }
    assert(paths@ =~= heads_now + dups_now);
    let dups = paths.split_off(kept);
    assert(paths@ =~= heads_now);
    assert(dups@ =~= dups_now);
    (paths, dups)
}

} // verus!
