use std::cell::Cell;

use pathwalk::partition::{partition_dedup_by, partition_dedup_counting};
use pathwalk::tally::Tally;

fn sorted(items: &[&'static str]) -> Vec<&'static str> {
    let mut out = items.to_vec();
    out.sort();
    out
}

#[test]
fn case_insensitive_runs_are_split_off() {
    let mut items = ["a", "A", "b", "B", "b"];
    let (kept, dups) = partition_dedup_by(&mut items, |a, b| a.eq_ignore_ascii_case(b));
    assert_eq!(kept, ["a", "b"]);
    assert_eq!(kept.len(), 2);
    assert_eq!(sorted(dups), vec!["A", "B", "b"]);
}

#[test]
fn only_neighbours_in_scan_order_are_compared() {
    let mut items = ["foo", "Foo", "BAZ", "Bar", "bar", "baz", "BAZ"];
    let (kept, dups) = partition_dedup_by(&mut items, |a, b| a.eq_ignore_ascii_case(b));
    assert_eq!(kept, ["foo", "BAZ", "Bar", "baz"]);
    assert_eq!(dups, ["bar", "Foo", "BAZ"]);
}

#[test]
fn separated_equal_elements_are_both_kept() {
    let mut items = [1, 2, 1, 2];
    let (kept, dups) = partition_dedup_by(&mut items, |a, b| a == b);
    assert_eq!(kept, [1, 2, 1, 2]);
    assert!(dups.is_empty());
}

#[test]
fn empty_slice_is_left_alone() {
    let mut items: [u32; 0] = [];
    let asked = Cell::new(0u32);
    let (kept, dups) = partition_dedup_by(&mut items, |a, b| {
        asked.set(asked.get() + 1);
        a == b
    });
    assert!(kept.is_empty());
    assert!(dups.is_empty());
    assert_eq!(asked.get(), 0);
}

#[test]
fn single_element_is_kept_without_a_question() {
    let mut items = [7u32];
    let asked = Cell::new(0u32);
    let (kept, dups) = partition_dedup_by(&mut items, |a, b| {
        asked.set(asked.get() + 1);
        a == b
    });
    assert_eq!(kept, [7]);
    assert!(dups.is_empty());
    assert_eq!(asked.get(), 0);
}

#[test]
fn predicate_is_asked_once_per_later_element() {
    let mut items = [3u32, 3, 4, 4, 4, 5, 3, 3];
    let asked = Cell::new(0usize);
    let (kept, dups, calls) = partition_dedup_counting(&mut items, |a, b| {
        asked.set(asked.get() + 1);
        a == b
    });
    assert_eq!(kept, [3, 4, 5, 3]);
    assert_eq!(dups.len(), 4);
    assert_eq!(calls, 7);
    assert_eq!(asked.get(), 7);
}

#[test]
fn counting_an_empty_slice_gives_zero() {
    let mut items: [u8; 0] = [];
    let (kept, dups, calls) = partition_dedup_counting(&mut items, |a, b| a == b);
    assert!(kept.is_empty());
    assert!(dups.is_empty());
    assert_eq!(calls, 0);
}

#[test]
fn counting_a_single_element_gives_zero() {
    let mut items = [1u8];
    let (kept, dups, calls) = partition_dedup_counting(&mut items, |a, b| a == b);
    assert_eq!(kept, [1]);
    assert!(dups.is_empty());
    assert_eq!(calls, 0);
}

#[test]
fn the_candidate_comes_first_and_the_last_kept_second() {
    let mut items = [10u32, 11, 12, 20, 21];
    let seen = Cell::new((0u32, 0u32));
    let (kept, dups) = partition_dedup_by(&mut items, |a, b| {
        seen.set((*a, *b));
        a / 10 == b / 10
    });
    assert_eq!(kept, [10, 20]);
    assert_eq!(dups.len(), 3);
    assert_eq!(seen.get(), (21, 20));
}

#[test]
fn elements_are_permuted_not_copied() {
    let mut items = [5u8, 5, 1, 1, 1, 9, 5, 5, 2];
    let mut before = items.to_vec();
    before.sort();
    let (kept, dups) = partition_dedup_by(&mut items, |a, b| a == b);
    assert_eq!(kept, [5, 1, 9, 5, 2]);
    assert_eq!(kept.len() + dups.len(), 9);
    let mut after = items.to_vec();
    after.sort();
    assert_eq!(after, before);
}

#[test]
fn parts_are_the_two_ends_of_the_slice() {
    let mut items = [1u8, 1, 2, 2, 3];
    {
        let (kept, dups) = partition_dedup_by(&mut items, |a, b| a == b);
        assert_eq!(kept, [1, 2, 3]);
        dups[0] = 0;
        dups[1] = 0;
    }
    assert_eq!(items, [1, 2, 3, 0, 0]);
}

#[test]
fn run_free_input_comes_back_unchanged() {
    let mut items = ["x", "y", "x", "z"];
    let (kept, dups) = partition_dedup_by(&mut items, |a, b| a == b);
    assert_eq!(kept, ["x", "y", "x", "z"]);
    assert!(dups.is_empty());
    assert_eq!(items, ["x", "y", "x", "z"]);
}

#[test]
fn partitioning_the_kept_part_again_changes_nothing() {
    let mut items = [4u8, 4, 6, 6, 4];
    let (kept, _) = partition_dedup_by(&mut items, |a, b| a == b);
    assert_eq!(kept, [4, 6, 4]);
    let (again, dups) = partition_dedup_by(kept, |a, b| a == b);
    assert_eq!(again, [4, 6, 4]);
    assert!(dups.is_empty());
}

#[test]
fn all_equal_elements_leave_one() {
    let mut items = [8u8; 6];
    let (kept, dups, calls) = partition_dedup_counting(&mut items, |a, b| a == b);
    assert_eq!(kept, [8]);
    assert_eq!(dups, [8, 8, 8, 8, 8]);
    assert_eq!(calls, 5);
}

#[test]
fn tally_counts_every_question() {
    let mut tally = Tally::new(|a: &u8, b: &u8| a < b);
    assert_eq!(tally.calls(), 0);
    assert!(tally.ask(&1, &2));
    assert!(!tally.ask(&2, &1));
    assert!(!tally.ask(&3, &3));
    assert_eq!(tally.calls(), 3);
}
