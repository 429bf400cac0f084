//! In-place partition of a slice into a run-free prefix and the duplicates.
//!
//! The scan walks the slice once from left to right. The first element is
//! always kept. Every later element is compared with the element that was
//! kept most recently; if the predicate calls them the same bucket, the
//! element is a duplicate and ends up behind the kept ones. The slice is only
//! ever changed by exchanging two of its elements, so it holds the same
//! elements at every moment.

use vstd::prelude::*;
use vstd::multiset::Multiset;
use vstd::seq_lib::*;
use crate::tally::Tally;

verus! {

/// `<[T]>::swap`: exchanges the elements at `a` and `b` and leaves every
/// other position alone. Both indices have to be in bounds.
pub assume_specification<T>[ <[T]>::swap ](slice: &mut [T], a: usize, b: usize)
    requires
        a < old(slice)@.len(),
        b < old(slice)@.len(),
    ensures
        final(slice)@ == old(slice)@.update(a as int, old(slice)@[b as int]).update(
            b as int,
            old(slice)@[a as int],
        ),
;

/// The elements of `s` whose flag in `kept` equals `want`, in their order.
pub open spec fn chosen<E>(s: Seq<E>, kept: Seq<bool>, want: bool) -> Seq<E>
    recommends
        kept.len() == s.len(),
    decreases s.len(),
{
    if s.len() == 0 {
        Seq::empty()
    } else {
        let before = chosen(s.drop_last(), kept.drop_last(), want);
        if kept.last() == want {
            before.push(s.last())
        } else {
            before
        }
    }
}

/// `kept` records a left-to-right scan of `s` under `same_bucket`: the first
/// element is kept, and every later element is kept exactly when the
/// predicate, asked about it and the last element kept before it, said no.
pub open spec fn is_scan<E, F: Fn(&E, &E) -> bool>(s: Seq<E>, same_bucket: F, kept: Seq<bool>) -> bool {
    &&& kept.len() == s.len()
    &&& s.len() > 0 ==> kept[0]
    &&& forall|r: int|
        1 <= r < s.len() ==> call_ensures(
            same_bucket,
            (&s[r], &chosen(s.take(r), kept.take(r), true).last()),
            !#[trigger] kept[r],
        )
}

/// The scan recorded in `kept` leaves `front` as the kept elements in their
/// order and `back` as the duplicates in some order.
pub open spec fn scan_gives<E, F: Fn(&E, &E) -> bool>(
    orig: Seq<E>,
    same_bucket: F,
    kept: Seq<bool>,
    front: Seq<E>,
    back: Seq<E>,
) -> bool {
    &&& is_scan(orig, same_bucket, kept)
    &&& front == chosen(orig, kept, true)
    &&& back.to_multiset() == chosen(orig, kept, false).to_multiset()
}

/// Some scan of `orig` under `same_bucket` leaves `front` and `back`.
pub open spec fn partitions<E, F: Fn(&E, &E) -> bool>(
    orig: Seq<E>,
    same_bucket: F,
    front: Seq<E>,
    back: Seq<E>,
) -> bool {
    exists|kept: Seq<bool>| #[trigger] scan_gives(orig, same_bucket, kept, front, back)
}

/// The predicate can be asked about every pair of elements of `s`.
pub open spec fn askable<E, F: Fn(&E, &E) -> bool>(s: Seq<E>, same_bucket: F) -> bool {
    forall|i: int, j: int|
        0 <= i < s.len() && 0 <= j < s.len() ==> call_requires(same_bucket, (&s[i], &s[j]))
}

/// No element of `s` can be called a duplicate of its left neighbour.
pub open spec fn run_free<E, F: Fn(&E, &E) -> bool>(s: Seq<E>, same_bucket: F) -> bool {
    forall|i: int, j: int, answer: bool|
        0 <= i && j == i + 1 && j < s.len() && #[trigger] call_ensures(
            same_bucket,
            (&s[j], &s[i]),
            answer,
        ) ==> !answer
}

/// The predicate said no about every element of `s` and its left neighbour.
pub open spec fn told_apart<E, F: Fn(&E, &E) -> bool>(s: Seq<E>, same_bucket: F) -> bool {
    forall|i: int, j: int|
        #![trigger s[i], s[j]]
        0 <= i && j == i + 1 && j < s.len() ==> call_ensures(same_bucket, (&s[j], &s[i]), false)
}

/// The number of questions a scan of `n` elements asks.
pub open spec fn questions(n: nat) -> nat {
    if n == 0 {
        0
    } else {
        (n - 1) as nat
    }
}

/// Every answer of the predicate is the value of `same` on the two elements.
pub open spec fn answers_as<E, F: Fn(&E, &E) -> bool>(
    same_bucket: F,
    same: spec_fn(E, E) -> bool,
) -> bool {
    forall|a: E, b: E, answer: bool|
        #[trigger] call_ensures(same_bucket, (&a, &b), answer) ==> answer == same(a, b)
}

/// The first element of every run of `s`: an element belongs to the run of
/// the head before it when `same` holds of it and that head.
pub open spec fn heads<E>(s: Seq<E>, same: spec_fn(E, E) -> bool) -> Seq<E>
    decreases s.len(),
{
    if s.len() == 0 {
        Seq::empty()
    } else {
        let before = heads(s.drop_last(), same);
        if before.len() > 0 && same(s.last(), before.last()) {
            before
        } else {
            before.push(s.last())
        }
    }
}

/// The elements of `s` that are not the head of their run, in their order.
pub open spec fn repeats<E>(s: Seq<E>, same: spec_fn(E, E) -> bool) -> Seq<E>
    decreases s.len(),
{
    if s.len() == 0 {
        Seq::empty()
    } else {
        let before = heads(s.drop_last(), same);
        if before.len() > 0 && same(s.last(), before.last()) {
            repeats(s.drop_last(), same).push(s.last())
        } else {
            repeats(s.drop_last(), same)
        }
    }
}

/// Under a predicate that answers as `same` does, a scan keeps the heads of
/// the runs and rejects the rest.
pub proof fn lemma_scan_of_function<E, F: Fn(&E, &E) -> bool>(
    s: Seq<E>,
    same_bucket: F,
    same: spec_fn(E, E) -> bool,
    kept: Seq<bool>,
)
    requires
        is_scan(s, same_bucket, kept),
        answers_as(same_bucket, same),
    ensures
        chosen(s, kept, true) == heads(s, same),
        chosen(s, kept, false) == repeats(s, same),
    decreases s.len(),
{
    if s.len() > 0 {
        let head = s.drop_last();
        let flags = kept.drop_last();
        let n = s.len() - 1;
        assert forall|r: int| 1 <= r < head.len() implies call_ensures(
            same_bucket,
            (&head[r], &chosen(head.take(r), flags.take(r), true).last()),
            !#[trigger] flags[r],
        ) by {
            assert(head.take(r) =~= s.take(r));
            assert(flags.take(r) =~= kept.take(r));
            assert(flags[r] == kept[r]);
        }
        lemma_scan_of_function(head, same_bucket, same, flags);
        if n > 0 {
            assert(s.take(n) =~= head);
            assert(kept.take(n) =~= flags);
            lemma_chosen_first(head, flags);
            assert(call_ensures(
                same_bucket,
                (&s[n], &chosen(head, flags, true).last()),
                !kept[n],
            ));
        } else {
            assert(head =~= Seq::<E>::empty());
        }
    }
}

/// No element of `s` is in the same bucket as its left neighbour.
pub open spec fn no_runs<E>(s: Seq<E>, same: spec_fn(E, E) -> bool) -> bool {
    forall|i: int, j: int|
        #![trigger s[i], s[j]]
        0 <= i && j == i + 1 && j < s.len() ==> !same(s[j], s[i])
}

/// The heads of the runs of `s` begin with the first element of `s` and have
/// no two neighbours in the same bucket.
pub proof fn lemma_heads_have_no_runs<E>(s: Seq<E>, same: spec_fn(E, E) -> bool)
    ensures
        no_runs(heads(s, same), same),
        heads(s, same).len() <= s.len(),
        s.len() > 0 ==> heads(s, same).len() > 0 && heads(s, same)[0] == s[0],
    decreases s.len(),
{
    if s.len() > 0 {
        lemma_heads_have_no_runs(s.drop_last(), same);
    }
}

/// A sequence without runs is its own sequence of heads and has no repeats.
pub proof fn lemma_no_runs_all_heads<E>(s: Seq<E>, same: spec_fn(E, E) -> bool)
    requires
        no_runs(s, same),
    ensures
        heads(s, same) == s,
        repeats(s, same).len() == 0,
    decreases s.len(),
{
    if s.len() > 0 {
        let before = s.drop_last();
        assert forall|i: int, j: int|
            #![trigger before[i], before[j]]
            0 <= i && j == i + 1 && j < before.len() implies !same(before[j], before[i]) by {
            assert(before[j] == s[j]);
            assert(before[i] == s[i]);
        }
        lemma_no_runs_all_heads(before, same);
        if before.len() > 0 {
            assert(before.last() == s[s.len() - 2]);
            assert(s.last() == s[s.len() - 1]);
        }
        assert(heads(s, same) =~= s);
    }
}

/// Taking the heads of runs twice is the same as taking them once: what a
/// partition has kept, a second partition keeps whole.
pub proof fn lemma_heads_idempotent<E>(s: Seq<E>, same: spec_fn(E, E) -> bool)
    ensures
        heads(heads(s, same), same) == heads(s, same),
        repeats(heads(s, same), same).len() == 0,
{
    lemma_heads_have_no_runs(s, same);
    lemma_no_runs_all_heads(heads(s, same), same);
}

/// The heads and the repeats of the runs of `s` make up `s`.
pub proof fn lemma_heads_and_repeats_split<E>(s: Seq<E>, same: spec_fn(E, E) -> bool)
    ensures
        heads(s, same).to_multiset().add(repeats(s, same).to_multiset()) == s.to_multiset(),
        heads(s, same).len() + repeats(s, same).len() == s.len(),
    decreases s.len(),
{
    broadcast use group_to_multiset_ensures;

    if s.len() == 0 {
        assert(s.to_multiset() =~= Multiset::<E>::empty());
        assert(heads(s, same).to_multiset().add(repeats(s, same).to_multiset())
            =~= s.to_multiset());
    } else {
        lemma_heads_and_repeats_split(s.drop_last(), same);
        assert(s =~= s.drop_last().push(s.last()));
        to_multiset_build(s.drop_last(), s.last());
        to_multiset_build(heads(s.drop_last(), same), s.last());
        to_multiset_build(repeats(s.drop_last(), same), s.last());
        assert(heads(s, same).to_multiset().add(repeats(s, same).to_multiset())
            =~= s.to_multiset());
    }
}

/// Exchanging two elements of a sequence keeps its multiset of elements.
pub proof fn lemma_exchange_keeps_elements<E>(s: Seq<E>, i: int, j: int)
    requires
        0 <= i < s.len(),
        0 <= j < s.len(),
    ensures
        s.update(i, s[j]).update(j, s[i]).to_multiset() == s.to_multiset(),
{
    broadcast use group_to_multiset_ensures;

    let mid = s.update(i, s[j]);
    let end = mid.update(j, s[i]);
    assert(mid =~= s.remove(i).insert(i, s[j]));
    assert(end =~= mid.remove(j).insert(j, s[i]));
    to_multiset_remove(s, i);
    to_multiset_insert(s.remove(i), i, s[j]);
    to_multiset_remove(mid, j);
    to_multiset_insert(mid.remove(j), j, s[i]);
    assert(s.contains(s[i]));
    assert(s.contains(s[j]));
    assert(end.to_multiset() =~= s.to_multiset());
}

/// Moving the first element of a sequence to its end keeps its multiset.
proof fn lemma_rotate_keeps_elements<E>(s: Seq<E>)
    requires
        s.len() > 0,
    ensures
        s.drop_first().push(s[0]).to_multiset() == s.to_multiset(),
{
    broadcast use group_to_multiset_ensures;

    assert(s.drop_first() =~= s.remove(0));
    to_multiset_remove(s, 0);
    to_multiset_build(s.drop_first(), s[0]);
    assert(s.contains(s[0]));
    assert(s.drop_first().push(s[0]).to_multiset() =~= s.to_multiset());
}

/// The elements chosen from `s` and those not chosen make up `s`.
pub proof fn lemma_chosen_splits<E>(s: Seq<E>, kept: Seq<bool>)
    requires
        kept.len() == s.len(),
    ensures
        chosen(s, kept, true).to_multiset().add(chosen(s, kept, false).to_multiset())
            == s.to_multiset(),
        chosen(s, kept, true).len() + chosen(s, kept, false).len() == s.len(),
    decreases s.len(),
{
    broadcast use group_to_multiset_ensures;

    if s.len() == 0 {
        assert(s.to_multiset() =~= Multiset::<E>::empty());
        assert(chosen(s, kept, true).to_multiset().add(chosen(s, kept, false).to_multiset())
            =~= s.to_multiset());
    } else {
        lemma_chosen_splits(s.drop_last(), kept.drop_last());
        assert(s =~= s.drop_last().push(s.last()));
        to_multiset_build(s.drop_last(), s.last());
        to_multiset_build(chosen(s.drop_last(), kept.drop_last(), true), s.last());
        to_multiset_build(chosen(s.drop_last(), kept.drop_last(), false), s.last());
        assert(chosen(s, kept, true).to_multiset().add(chosen(s, kept, false).to_multiset())
            =~= s.to_multiset());
    }
}

/// A scan of a run-free sequence keeps every element.
pub proof fn lemma_run_free_keeps_all<E, F: Fn(&E, &E) -> bool>(
    s: Seq<E>,
    same_bucket: F,
    kept: Seq<bool>,
)
    requires
        is_scan(s, same_bucket, kept),
        run_free(s, same_bucket),
    ensures
        chosen(s, kept, true) == s,
        chosen(s, kept, false).len() == 0,
        forall|r: int| 0 <= r < s.len() ==> kept[r],
    decreases s.len(),
{
    if s.len() > 0 {
        let head = s.drop_last();
        let flags = kept.drop_last();
        assert forall|r: int| 1 <= r < head.len() implies call_ensures(
            same_bucket,
            (&head[r], &chosen(head.take(r), flags.take(r), true).last()),
            !#[trigger] flags[r],
        ) by {
            assert(head.take(r) =~= s.take(r));
            assert(flags.take(r) =~= kept.take(r));
            assert(flags[r] == kept[r]);
        }
        assert forall|i: int, j: int, answer: bool|
            0 <= i && j == i + 1 && j < head.len() && #[trigger] call_ensures(
                same_bucket,
                (&head[j], &head[i]),
                answer,
            ) implies !answer by {
            assert(head[j] == s[j]);
            assert(head[i] == s[i]);
        }
        lemma_run_free_keeps_all(head, same_bucket, flags);
        let n = s.len() - 1;
        if n > 0 {
            assert(s.take(n) =~= head);
            assert(kept.take(n) =~= flags);
            assert(chosen(head, flags, true).last() == s[n - 1]);
            assert(call_ensures(same_bucket, (&s[n], &s[n - 1]), !kept[n]));
            assert(kept[n]);
        }
        assert(kept.last());
        assert(chosen(s, kept, true) =~= s);
    }
}

/// One more element and its flag extend the chosen elements by that element
/// or not at all.
proof fn lemma_chosen_push<E>(s: Seq<E>, kept: Seq<bool>, x: E, flag: bool, want: bool)
    requires
        kept.len() == s.len(),
    ensures
        chosen(s.push(x), kept.push(flag), want) == if flag == want {
            chosen(s, kept, want).push(x)
        } else {
            chosen(s, kept, want)
        },
{
    assert(s.push(x).drop_last() =~= s);
    assert(kept.push(flag).drop_last() =~= kept);
}

/// A scan of `s` goes on to a scan of `s.push(x)` with the answer that the
/// predicate gave about `x` and the last element kept so far.
proof fn lemma_scan_push<E, F: Fn(&E, &E) -> bool>(
    s: Seq<E>,
    same_bucket: F,
    kept: Seq<bool>,
    x: E,
    dup: bool,
)
    requires
        s.len() >= 1,
        is_scan(s, same_bucket, kept),
        call_ensures(same_bucket, (&x, &chosen(s, kept, true).last()), dup),
    ensures
        is_scan(s.push(x), same_bucket, kept.push(!dup)),
{
    let wide = s.push(x);
    let flags = kept.push(!dup);
    assert forall|r: int| 1 <= r < wide.len() implies call_ensures(
        same_bucket,
        (&wide[r], &chosen(wide.take(r), flags.take(r), true).last()),
        !#[trigger] flags[r],
    ) by {
        if r < s.len() {
            assert(wide.take(r) =~= s.take(r));
            assert(flags.take(r) =~= kept.take(r));
            assert(flags[r] == kept[r]);
        } else {
            assert(wide.take(r) =~= s);
            assert(flags.take(r) =~= kept);
        }
    }
}

/// What holds between the slice as it was (`orig`) and as it is (`cur`) once
/// the first `r` elements have been read and `w` of them kept.
#[verifier::opaque]
spec fn scanned<E, F: Fn(&E, &E) -> bool>(
    orig: Seq<E>,
    same_bucket: F,
    kept: Seq<bool>,
    cur: Seq<E>,
    w: int,
    r: int,
) -> bool {
    &&& 1 <= w <= r <= orig.len()
    &&& cur.len() == orig.len()
    &&& cur.to_multiset() == orig.to_multiset()
    &&& is_scan(orig.take(r), same_bucket, kept)
    &&& cur.subrange(0, w) == chosen(orig.take(r), kept, true)
    &&& cur.subrange(w, r).to_multiset() == chosen(orig.take(r), kept, false).to_multiset()
    &&& cur.subrange(r, cur.len() as int) == orig.subrange(r, orig.len() as int)
    &&& told_apart(cur.subrange(0, w), same_bucket)
}

/// Two sequences with equal tails from `r` on agree at every index from `r`.
proof fn lemma_tails_agree<E>(a: Seq<E>, b: Seq<E>, r: int)
    requires
        0 <= r <= a.len(),
        a.len() == b.len(),
        a.subrange(r, a.len() as int) == b.subrange(r, b.len() as int),
    ensures
        forall|i: int| r <= i < a.len() ==> a[i] == b[i],
{
    assert forall|i: int| r <= i < a.len() implies a[i] == b[i] by {
        assert(a[i] == a.subrange(r, a.len() as int)[i - r]);
        assert(b[i] == b.subrange(r, b.len() as int)[i - r]);
    }
}

/// Before the loop: one element read, one kept.
proof fn lemma_scan_starts<E, F: Fn(&E, &E) -> bool>(orig: Seq<E>, same_bucket: F)
    requires
        orig.len() >= 1,
    ensures
        scanned(orig, same_bucket, seq![true], orig, 1, 1),
{
    reveal(scanned);
    let kept = seq![true];
    lemma_chosen_push(Seq::<E>::empty(), Seq::<bool>::empty(), orig[0], true, true);
    lemma_chosen_push(Seq::<E>::empty(), Seq::<bool>::empty(), orig[0], true, false);
    assert(Seq::<E>::empty().push(orig[0]) =~= orig.take(1));
    assert(Seq::<bool>::empty().push(true) =~= kept);
    assert(orig.subrange(0, 1) =~= orig.take(1));
    assert(orig.subrange(1, 1) =~= Seq::<E>::empty());
    assert(chosen(orig.take(1), kept, false) =~= Seq::<E>::empty());
}

/// The element at `r` is a duplicate: it stays where it is.
proof fn lemma_scan_skips<E, F: Fn(&E, &E) -> bool>(
    orig: Seq<E>,
    same_bucket: F,
    kept: Seq<bool>,
    cur: Seq<E>,
    w: int,
    r: int,
)
    requires
        scanned(orig, same_bucket, kept, cur, w, r),
        r < orig.len(),
        call_ensures(same_bucket, (&cur[r], &cur[w - 1]), true),
    ensures
        scanned(orig, same_bucket, kept.push(false), cur, w, r + 1),
{
    reveal(scanned);
    let seen = orig.take(r);
    let x = orig[r];
    assert(cur[r] == cur.subrange(r, cur.len() as int)[0]);
    assert(x == orig.subrange(r, orig.len() as int)[0]);
    assert(cur.subrange(0, w).last() == cur[w - 1]);
    assert(orig.take(r + 1) =~= seen.push(x));
    lemma_scan_push(seen, same_bucket, kept, x, true);
    lemma_chosen_push(seen, kept, x, false, true);
    lemma_chosen_push(seen, kept, x, false, false);
    assert(cur.subrange(w, r + 1) =~= cur.subrange(w, r).push(x));
    to_multiset_build(cur.subrange(w, r), x);
    to_multiset_build(chosen(seen, kept, false), x);
    lemma_tails_agree(cur, orig, r);
    assert(cur.subrange(r + 1, cur.len() as int) =~= orig.subrange(r + 1, orig.len() as int));
}

/// The element at `r` is kept: it changes places with the first duplicate.
proof fn lemma_scan_keeps<E, F: Fn(&E, &E) -> bool>(
    orig: Seq<E>,
    same_bucket: F,
    kept: Seq<bool>,
    cur: Seq<E>,
    w: int,
    r: int,
)
    requires
        scanned(orig, same_bucket, kept, cur, w, r),
        r < orig.len(),
        call_ensures(same_bucket, (&cur[r], &cur[w - 1]), false),
    ensures
        scanned(
            orig,
            same_bucket,
            kept.push(true),
            cur.update(r, cur[w]).update(w, cur[r]),
            w + 1,
            r + 1,
        ),
{
    reveal(scanned);
    let seen = orig.take(r);
    let x = orig[r];
    let front = cur.subrange(0, w);
    let back = cur.subrange(w, r);
    let next = cur.update(r, cur[w]).update(w, cur[r]);
    assert(cur[r] == cur.subrange(r, cur.len() as int)[0]);
    assert(x == orig.subrange(r, orig.len() as int)[0]);
    assert(front.last() == cur[w - 1]);
    assert(orig.take(r + 1) =~= seen.push(x));
    lemma_scan_push(seen, same_bucket, kept, x, false);
    lemma_chosen_push(seen, kept, x, true, true);
    lemma_chosen_push(seen, kept, x, true, false);
    lemma_exchange_keeps_elements(cur, r, w);
    assert(next.subrange(0, w + 1) =~= front.push(x));
    if w < r {
        lemma_rotate_keeps_elements(back);
        assert(next.subrange(w + 1, r + 1) =~= back.drop_first().push(back[0]));
    } else {
        assert(next.subrange(w + 1, r + 1) =~= back);
    }
    lemma_tails_agree(cur, orig, r);
    assert(next.subrange(r + 1, next.len() as int) =~= orig.subrange(r + 1, orig.len() as int));
    let grown = next.subrange(0, w + 1);
    assert forall|i: int, j: int|
        #![trigger grown[i], grown[j]]
        0 <= i && j == i + 1 && j < grown.len() implies call_ensures(
        same_bucket,
        (&grown[j], &grown[i]),
        false,
    ) by {
        if j < w {
            assert(grown[j] == front[j]);
            assert(grown[i] == front[i]);
        }
    }
}

/// While the scan runs, the predicate can be asked about any two elements
/// of the slice as it is.
proof fn lemma_askable_rearranged<E, F: Fn(&E, &E) -> bool>(
    orig: Seq<E>,
    same_bucket: F,
    kept: Seq<bool>,
    cur: Seq<E>,
    w: int,
    r: int,
)
    requires
        askable(orig, same_bucket),
        scanned(orig, same_bucket, kept, cur, w, r),
        r < orig.len(),
    ensures
        1 <= w <= r,
        cur.len() == orig.len(),
        call_requires(same_bucket, (&cur[r], &cur[w - 1])),
{
    reveal(scanned);
    to_multiset_contains(cur, cur[r]);
    to_multiset_contains(cur, cur[w - 1]);
    to_multiset_contains(orig, cur[r]);
    to_multiset_contains(orig, cur[w - 1]);
    assert(cur.contains(cur[r]));
    assert(cur.contains(cur[w - 1]));
    let a = choose|a: int| 0 <= a < orig.len() && orig[a] == cur[r];
    let b = choose|b: int| 0 <= b < orig.len() && orig[b] == cur[w - 1];
    assert(call_requires(same_bucket, (&orig[a], &orig[b])));
}

/// After the loop: what the scan leaves is what the contract promises.
proof fn lemma_scan_ends<E, F: Fn(&E, &E) -> bool>(
    orig: Seq<E>,
    same_bucket: F,
    kept: Seq<bool>,
    cur: Seq<E>,
    w: int,
)
    requires
        scanned(orig, same_bucket, kept, cur, w, orig.len() as int),
    ensures
        1 <= w <= orig.len(),
        cur.len() == orig.len(),
        scan_gives(orig, same_bucket, kept, cur.subrange(0, w), cur.subrange(w, cur.len() as int)),
        (cur.subrange(0, w) + cur.subrange(w, cur.len() as int)).to_multiset()
            == orig.to_multiset(),
        cur.subrange(0, w)[0] == orig[0],
        told_apart(cur.subrange(0, w), same_bucket),
        run_free(orig, same_bucket) ==> cur.subrange(0, w) == orig && w == orig.len(),
{
    reveal(scanned);
    assert(orig.take(orig.len() as int) =~= orig);
    assert(cur.subrange(0, w) + cur.subrange(w, cur.len() as int) =~= cur);
    lemma_chosen_first(orig, kept);
    if run_free(orig, same_bucket) {
        lemma_run_free_keeps_all(orig, same_bucket, kept);
    }
}

/// A slice of at most one element is its own partition.
proof fn lemma_short_scan<E, F: Fn(&E, &E) -> bool>(orig: Seq<E>, same_bucket: F)
    requires
        orig.len() <= 1,
    ensures
        scan_gives(
            orig,
            same_bucket,
            Seq::new(orig.len(), |i: int| true),
            orig,
            Seq::<E>::empty(),
        ),
        told_apart(orig, same_bucket),
        (orig + Seq::<E>::empty()).to_multiset() == orig.to_multiset(),
{
    let kept = Seq::new(orig.len(), |i: int| true);
    assert(orig + Seq::<E>::empty() =~= orig);
    if orig.len() == 1 {
        lemma_chosen_push(Seq::<E>::empty(), Seq::<bool>::empty(), orig[0], true, true);
        lemma_chosen_push(Seq::<E>::empty(), Seq::<bool>::empty(), orig[0], true, false);
        assert(Seq::<E>::empty().push(orig[0]) =~= orig);
        assert(Seq::<bool>::empty().push(true) =~= kept);
    }
    assert(chosen(orig, kept, true) =~= orig);
    assert(chosen(orig, kept, false) =~= Seq::<E>::empty());
}

/// The first element, when kept, is the first of the chosen elements.
proof fn lemma_chosen_first<E>(s: Seq<E>, kept: Seq<bool>)
    requires
        kept.len() == s.len(),
        s.len() >= 1,
        kept[0],
    ensures
        chosen(s, kept, true).len() >= 1,
        chosen(s, kept, true)[0] == s[0],
    decreases s.len(),
{
    if s.len() == 1 {
        assert(chosen(s.drop_last(), kept.drop_last(), true) =~= Seq::<E>::empty());
    } else {
        lemma_chosen_first(s.drop_last(), kept.drop_last());
    }
}

/// Partitions `sl` in place and counts the questions put to `same_bucket`.
///
/// Returns the kept elements, the duplicates, and the number of times the
/// predicate was invoked: one fewer than the slice has elements, and zero
/// for an empty slice.
pub fn partition_dedup_counting<E, F>(sl: &mut [E], same_bucket: F) -> (out: (
    &mut [E],
    &mut [E],
    usize,
)) where F: Fn(&E, &E) -> bool
    requires
        askable(old(sl)@, same_bucket),
    ensures
        out.2 == questions(old(sl)@.len()),
        partitions(old(sl)@, same_bucket, out.0@, out.1@),
        (out.0@ + out.1@).to_multiset() == old(sl)@.to_multiset(),
        out.0@.len() + out.1@.len() == old(sl)@.len(),
        old(sl)@.len() <= 1 ==> out.0@ == old(sl)@ && out.1@.len() == 0,
        old(sl)@.len() >= 1 ==> out.0@.len() >= 1 && out.0@[0] == old(sl)@[0],
        told_apart(out.0@, same_bucket),
        run_free(old(sl)@, same_bucket) ==> out.0@ == old(sl)@ && out.1@.len() == 0,
        forall|same: spec_fn(E, E) -> bool| #[trigger]
            answers_as(same_bucket, same) ==> out.0@ == heads(old(sl)@, same)
                && out.1@.to_multiset() == repeats(old(sl)@, same).to_multiset(),
        final(sl)@ == final(out.0)@ + final(out.1)@,
{
    let ghost orig = sl@;
    let len = sl.len();
    let mut tally = Tally::new(same_bucket);
    if len <= 1 {
        proof {
            lemma_short_scan(orig, same_bucket);
            assert(orig.subrange(0, len as int) =~= orig);
            assert(orig.subrange(len as int, len as int) =~= Seq::<E>::empty());
            let kept = Seq::new(orig.len(), |i: int| true);
            assert forall|same: spec_fn(E, E) -> bool| #[trigger]
                answers_as(same_bucket, same) implies orig == heads(orig, same)
                && Seq::<E>::empty().to_multiset() == repeats(orig, same).to_multiset() by {
                lemma_scan_of_function(orig, same_bucket, same, kept);
            }
        }
        let (front, back) = sl.split_at_mut(len);
        return (front, back, tally.calls());
    }
    let mut next_read: usize = 1;
    let mut next_write: usize = 1;
    let ghost mut kept: Seq<bool> = seq![true];
    proof {
        lemma_scan_starts(orig, same_bucket);
    }
    while next_read < len
        invariant
            len == orig.len(),
            sl@.len() == len,
            1 <= next_write <= next_read <= len,
            askable(orig, same_bucket),
            tally.pred() == same_bucket,
            tally.count() == next_read - 1,
            scanned(orig, same_bucket, kept, sl@, next_write as int, next_read as int),
        decreases len - next_read,
    {
        let ghost cur = sl@;
        proof {
            lemma_askable_rearranged(
                orig,
                same_bucket,
                kept,
                cur,
                next_write as int,
                next_read as int,
            );
        }
        let dup = tally.ask(&sl[next_read], &sl[next_write - 1]);
        if !dup {
            proof {
                lemma_scan_keeps(orig, same_bucket, kept, cur, next_write as int, next_read as int);
                kept = kept.push(true);
            }
            if next_read != next_write {
                sl.swap(next_read, next_write);
            } else {
                assert(cur.update(next_read as int, cur[next_write as int]).update(
                    next_write as int,
                    cur[next_read as int],
                ) =~= cur);
            }
            next_write += 1;
        } else {
            proof {
                lemma_scan_skips(orig, same_bucket, kept, cur, next_write as int, next_read as int);
                kept = kept.push(false);
            }
        }
        next_read += 1;
    }
    proof {
        lemma_scan_ends(orig, same_bucket, kept, sl@, next_write as int);
        lemma_chosen_splits(orig, kept);
        let front = sl@.subrange(0, next_write as int);
        let back = sl@.subrange(next_write as int, len as int);
        assert forall|same: spec_fn(E, E) -> bool| #[trigger]
            answers_as(same_bucket, same) implies front == heads(orig, same)
            && back.to_multiset() == repeats(orig, same).to_multiset() by {
            lemma_scan_of_function(orig, same_bucket, same, kept);
        }
    }
    let (front, back) = sl.split_at_mut(next_write);
    (front, back, tally.calls())
}

/// Moves all but the first of consecutive elements that `same_bucket` calls
/// equal to the end of the slice.
///
/// Returns two slices. The first holds the kept elements in the order they
/// had, with no two neighbours in the same bucket. The second holds the
/// duplicates in no specified order.
pub fn partition_dedup_by<E, F>(sl: &mut [E], same_bucket: F) -> (parts: (&mut [E], &mut [E])) where
    F: Fn(&E, &E) -> bool,

    requires
        askable(old(sl)@, same_bucket),
    ensures
        partitions(old(sl)@, same_bucket, parts.0@, parts.1@),
        (parts.0@ + parts.1@).to_multiset() == old(sl)@.to_multiset(),
        parts.0@.len() + parts.1@.len() == old(sl)@.len(),
        old(sl)@.len() <= 1 ==> parts.0@ == old(sl)@ && parts.1@.len() == 0,
        old(sl)@.len() >= 1 ==> parts.0@.len() >= 1 && parts.0@[0] == old(sl)@[0],
        told_apart(parts.0@, same_bucket),
        run_free(old(sl)@, same_bucket) ==> parts.0@ == old(sl)@ && parts.1@.len() == 0,
        forall|same: spec_fn(E, E) -> bool| #[trigger]
            answers_as(same_bucket, same) ==> parts.0@ == heads(old(sl)@, same)
                && parts.1@.to_multiset() == repeats(old(sl)@, same).to_multiset(),
        final(sl)@ == final(parts.0)@ + final(parts.1)@,
{
    let (front, back, _) = partition_dedup_counting(sl, same_bucket);
    (front, back)
}

} // verus!
