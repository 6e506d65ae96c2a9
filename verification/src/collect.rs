//! Lists made by keeping what a function makes of each item.

use vstd::prelude::*;

verus! {

/// What `f` makes of the items of a list, in order, where it makes something.
pub open spec fn collect<A, B>(s: Seq<A>, f: spec_fn(A) -> Option<B>) -> Seq<B>
    decreases s.len(),
{
    if s.len() == 0 {
        seq![]
    } else {
        match f(s.last()) {
            Some(b) => collect(s.drop_last(), f).push(b),
            None => collect(s.drop_last(), f),
        }
    }
}

/// One more item adds what `f` makes of it.
pub proof fn lemma_collect_step<A, B>(s: Seq<A>, i: int, f: spec_fn(A) -> Option<B>)
    requires
        0 <= i < s.len(),
    ensures
        collect(s.take(i + 1), f) == (match f(s[i]) {
            Some(b) => collect(s.take(i), f).push(b),
            None => collect(s.take(i), f),
        }),
{
    assert(s.take(i + 1).drop_last() =~= s.take(i));
    assert(s.take(i + 1).last() == s[i]);
}

/// What a list collects comes from its items, and nothing that `f` makes of an item is lost.
pub proof fn lemma_collect<A, B>(s: Seq<A>, f: spec_fn(A) -> Option<B>)
    ensures
        forall|j: int|
            0 <= j < collect(s, f).len() ==> exists|i: int|
                0 <= i < s.len() && f(#[trigger] s[i]) == Some(#[trigger] collect(s, f)[j]),
        forall|i: int|
            0 <= i < s.len() && f(#[trigger] s[i]) is Some ==> collect(s, f).contains(f(s[i])->0),
    decreases s.len(),
{
    if s.len() > 0 {
        let head = s.drop_last();
        lemma_collect(head, f);
        let all = collect(s, f);
        let before = collect(head, f);
        assert forall|j: int| 0 <= j < all.len() implies exists|i: int|
            0 <= i < s.len() && f(#[trigger] s[i]) == Some(#[trigger] all[j]) by {
            if j < before.len() {
                let i = choose|i: int|
                    0 <= i < head.len() && f(#[trigger] head[i]) == Some(before[j]);
                assert(s[i] == head[i]);
                assert(all[j] == before[j]);
            } else {
                assert(f(s[s.len() - 1]) == Some(all[j]));
            }
        }
        assert forall|i: int| 0 <= i < s.len() && f(#[trigger] s[i]) is Some implies all.contains(
            f(s[i])->0,
        ) by {
            if i < head.len() {
                assert(head[i] == s[i]);
                assert(before.contains(f(head[i])->0));
                let j = choose|j: int| 0 <= j < before.len() && before[j] == f(head[i])->0;
                assert(all[j] == before[j]);
            } else {
                assert(all[all.len() - 1] == f(s[i])->0);
            }
        }
    }
}

/// The items of a list without those that occurred before.
pub open spec fn first_occurrences<A>(all: Seq<A>) -> Seq<A>
    decreases all.len(),
{
    if all.len() == 0 {
        seq![]
    } else {
        let before = first_occurrences(all.drop_last());
        if before.contains(all.last()) {
            before
        } else {
            before.push(all.last())
        }
    }
}

/// One more item is added unless it occurred before.
pub proof fn lemma_first_occurrences_push<A>(all: Seq<A>, x: A)
    ensures
        first_occurrences(all.push(x)) == (if first_occurrences(all).contains(x) {
            first_occurrences(all)
        } else {
            first_occurrences(all).push(x)
        }),
{
    assert(all.push(x).drop_last() =~= all);
}

/// Taking each item once loses none and adds none.
pub proof fn lemma_first_occurrences_within<A>(all: Seq<A>, x: A)
    ensures
        first_occurrences(all).contains(x) == all.contains(x),
    decreases all.len(),
{
    if all.len() > 0 {
        let head = all.drop_last();
        lemma_first_occurrences_within(head, x);
        lemma_first_occurrences_within(head, all.last());
        if all.contains(x) {
            let i = choose|i: int| 0 <= i < all.len() && all[i] == x;
            if i < head.len() {
                assert(head[i] == x);
                let j = choose|j: int|
                    0 <= j < first_occurrences(head).len() && first_occurrences(head)[j] == x;
                assert(first_occurrences(all)[j] == x);
            } else if !first_occurrences(head).contains(all.last()) {
                assert(first_occurrences(all).last() == x);
            }
        }
        if first_occurrences(all).contains(x) {
            let j = choose|j: int|
                0 <= j < first_occurrences(all).len() && first_occurrences(all)[j] == x;
            if j < first_occurrences(head).len() {
                assert(first_occurrences(head)[j] == x);
                let i = choose|i: int| 0 <= i < head.len() && head[i] == x;
                assert(all[i] == x);
            } else {
                assert(all[all.len() - 1] == x);
            }
        }
    }
}

} // verus!
