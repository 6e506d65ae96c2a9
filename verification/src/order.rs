//! Orders on texts and sorting.

use crate::text::lemma_encoding_is_injective;
use vstd::prelude::*;
use vstd::utf8::encode_utf8;

verus! {

/// Whether one byte sequence comes before another or equals it, in dictionary order.
pub open spec fn bytes_at_most(a: Seq<u8>, b: Seq<u8>) -> bool
    decreases a.len(),
{
    if a.len() == 0 {
        true
    } else if b.len() == 0 {
        false
    } else if a[0] != b[0] {
        a[0] < b[0]
    } else {
        bytes_at_most(a.skip(1), b.skip(1))
    }
}

/// Whether one text comes before another or equals it: by the bytes of their encoding, in
/// dictionary order.
pub open spec fn text_at_most(a: Seq<char>, b: Seq<char>) -> bool {
    bytes_at_most(encode_utf8(a), encode_utf8(b))
}

proof fn lemma_bytes_reflexive(a: Seq<u8>)
    ensures
        bytes_at_most(a, a),
    decreases a.len(),
{
    if a.len() > 0 {
        lemma_bytes_reflexive(a.skip(1));
    }
}

proof fn lemma_bytes_total(a: Seq<u8>, b: Seq<u8>)
    ensures
        bytes_at_most(a, b) || bytes_at_most(b, a),
    decreases a.len(),
{
    if a.len() > 0 && b.len() > 0 && a[0] == b[0] {
        lemma_bytes_total(a.skip(1), b.skip(1));
    }
}

proof fn lemma_bytes_transitive(a: Seq<u8>, b: Seq<u8>, c: Seq<u8>)
    requires
        bytes_at_most(a, b),
        bytes_at_most(b, c),
    ensures
        bytes_at_most(a, c),
    decreases a.len(),
{
    if a.len() > 0 && b.len() > 0 && c.len() > 0 && a[0] == b[0] && b[0] == c[0] {
        lemma_bytes_transitive(a.skip(1), b.skip(1), c.skip(1));
    }
}

proof fn lemma_bytes_antisymmetric(a: Seq<u8>, b: Seq<u8>)
    requires
        bytes_at_most(a, b),
        bytes_at_most(b, a),
    ensures
        a == b,
    decreases a.len(),
{
    if a.len() == 0 {
        assert(a =~= b);
    } else {
        lemma_bytes_antisymmetric(a.skip(1), b.skip(1));
        assert forall|i: int| 0 <= i < a.len() implies a[i] == b[i] by {
            if i > 0 {
                assert(a.skip(1)[i - 1] == b.skip(1)[i - 1]);
            }
        }
        assert(a.skip(1).len() == b.skip(1).len());
        assert(a =~= b);
    }
}

/// The order on texts is a linear order.
pub proof fn law_text_order_is_linear()
    ensures
        forall|a: Seq<char>| #[trigger] text_at_most(a, a),
        forall|a: Seq<char>, b: Seq<char>| #[trigger] text_at_most(a, b) || text_at_most(b, a),
        forall|a: Seq<char>, b: Seq<char>, c: Seq<char>|
            #[trigger] text_at_most(a, b) && #[trigger] text_at_most(b, c) ==> text_at_most(a, c),
        forall|a: Seq<char>, b: Seq<char>|
            #[trigger] text_at_most(a, b) && text_at_most(b, a) ==> a == b,
{
    assert forall|a: Seq<char>| #[trigger] text_at_most(a, a) by {
        lemma_bytes_reflexive(encode_utf8(a));
    }
    assert forall|a: Seq<char>, b: Seq<char>| #[trigger] text_at_most(a, b) || text_at_most(b, a) by {
        lemma_bytes_total(encode_utf8(a), encode_utf8(b));
    }
    assert forall|a: Seq<char>, b: Seq<char>, c: Seq<char>|
        #[trigger] text_at_most(a, b) && #[trigger] text_at_most(b, c) implies text_at_most(
        a,
        c,
    ) by {
        lemma_bytes_transitive(encode_utf8(a), encode_utf8(b), encode_utf8(c));
    }
    assert forall|a: Seq<char>, b: Seq<char>|
        #[trigger] text_at_most(a, b) && text_at_most(b, a) implies a == b by {
        lemma_bytes_antisymmetric(encode_utf8(a), encode_utf8(b));
        lemma_encoding_is_injective(a, b);
    }
}

/// Whether one text comes before another or equals it.
pub fn at_most(a: &str, b: &str) -> (r: bool)
    ensures
        r == text_at_most(a@, b@),
{
    let x = a.as_bytes();
    let y = b.as_bytes();
    let n: usize = x.len();
    let m: usize = y.len();
    let mut i: usize = 0;
    proof {
        assert(x@.skip(0) =~= x@);
        assert(y@.skip(0) =~= y@);
    }
    while i < n && i < m && x[i] == y[i]
        invariant
            i <= n,
            i <= m,
            n == x@.len(),
            m == y@.len(),
            bytes_at_most(x@, y@) == bytes_at_most(x@.skip(i as int), y@.skip(i as int)),
        decreases n - i,
    {
        proof {
            assert(x@.skip(i as int).skip(1) =~= x@.skip(i + 1));
            assert(y@.skip(i as int).skip(1) =~= y@.skip(i + 1));
        }
        i = i + 1;
    }
    i >= n || (i < m && x[i] < y[i])
}

/// Values that have a place in an order.
pub trait Ranked: Sized + DeepView {
    /// Whether a value may stand before another.
    spec fn ranked(a: Self::V, b: Self::V) -> bool;

    /// Of two values one may stand before the other.
    proof fn ranked_total(a: Self::V, b: Self::V)
        ensures
            Self::ranked(a, b) || Self::ranked(b, a),
    ;

    /// What may stand before a second may stand before what the second may stand before.
    proof fn ranked_transitive(a: Self::V, b: Self::V, c: Self::V)
        requires
            Self::ranked(a, b),
            Self::ranked(b, c),
        ensures
            Self::ranked(a, c),
    ;

    /// Whether `self` may stand before `other`.
    fn may_precede(&self, other: &Self) -> (r: bool)
        ensures
            r == Self::ranked(self.deep_view(), other.deep_view()),
    ;
}

/// Whether a list is in order.
pub open spec fn in_order<T: Ranked>(s: Seq<T::V>) -> bool {
    forall|i: int, j: int| 0 <= i < j < s.len() ==> T::ranked(#[trigger] s[i], #[trigger] s[j])
}

/// Whether `after` is a list in order that holds the same values as `before`.
pub open spec fn is_sorting<T: Ranked>(before: Seq<T::V>, after: Seq<T::V>) -> bool {
    &&& after.to_multiset() == before.to_multiset()
    &&& in_order::<T>(after)
}

/// The list the other way round.
fn reversed<T: Ranked>(v: Vec<T>) -> (r: Vec<T>)
    ensures
        r.deep_view() == v.deep_view().reverse(),
{
    let mut v = v;
    let ghost all = v.deep_view();
    let mut r: Vec<T> = Vec::new();
    let n: usize = v.len();
    let mut i: usize = 0;
    while i < n
        invariant
            i <= n,
            n == all.len(),
            v.deep_view() == all.take(n - i),
            r.deep_view() == all.reverse().take(i as int),
        decreases n - i,
    {
        let ghost v0 = v.deep_view();
        let ghost r0 = r.deep_view();
        proof {
            assert(v@.len() == v.deep_view().len());
        }
        let last = v.pop();
        if let Some(x) = last {
            proof {
                assert(x.deep_view() == v0.last());
            }
            r.push(x);
            proof {
                assert(r.deep_view() =~= r0.push(x.deep_view()));
                assert(v.deep_view() =~= v0.drop_last());
                assert(v0.drop_last() =~= all.take(n - (i + 1)));
                assert(r.deep_view() =~= all.reverse().take(i + 1));
            }
        }
        i = i + 1;
    }
    proof {
        assert(r.deep_view() =~= all.reverse());
    }
    r
}

proof fn lemma_multiset_push<A>(s: Seq<A>, x: A)
    ensures
        s.push(x).to_multiset() == s.to_multiset().insert(x),
{
    broadcast use vstd::seq_lib::group_to_multiset_ensures;

}

proof fn lemma_multiset_pop<A>(s: Seq<A>)
    requires
        s.len() > 0,
    ensures
        s.to_multiset() == s.drop_last().to_multiset().insert(s.last()),
{
    lemma_multiset_push(s.drop_last(), s.last());
    assert(s.drop_last().push(s.last()) =~= s);
}

proof fn lemma_multiset_reverse<A>(s: Seq<A>)
    ensures
        s.reverse().to_multiset() == s.to_multiset(),
    decreases s.len(),
{
    if s.len() > 0 {
        let rest = s.drop_last();
        lemma_multiset_reverse(rest);
        lemma_multiset_pop(s);
        assert(s.reverse() =~= seq![s.last()] + rest.reverse());
        vstd::seq_lib::lemma_multiset_commutative(seq![s.last()], rest.reverse());
        lemma_multiset_push(Seq::<A>::empty(), s.last());
        assert(Seq::<A>::empty().push(s.last()) =~= seq![s.last()]);
        assert(Seq::<A>::empty().to_multiset() =~= vstd::multiset::Multiset::empty()) by {
            broadcast use vstd::seq_lib::group_to_multiset_ensures;

        }
        assert(s.reverse().to_multiset() =~= s.to_multiset());
    } else {
        assert(s.reverse() =~= s);
    }
}

/// Merges two lists in order, taking from the back.
fn merged<T: Ranked>(a: Vec<T>, b: Vec<T>) -> (r: Vec<T>)
    requires
        in_order::<T>(a.deep_view()),
        in_order::<T>(b.deep_view()),
    ensures
        r.deep_view().to_multiset() == a.deep_view().to_multiset().add(
            b.deep_view().to_multiset(),
        ),
        in_order::<T>(r.deep_view()),
{
    let mut a = a;
    let mut b = b;
    let ghost a0 = a.deep_view();
    let ghost b0 = b.deep_view();
    let mut back: Vec<T> = Vec::new();
    proof {
        assert(back.deep_view() =~= seq![]);
        assert(back.deep_view().to_multiset() =~= vstd::multiset::Multiset::empty()) by {
            broadcast use vstd::seq_lib::group_to_multiset_ensures;

        }
        assert(a0.to_multiset().add(b0.to_multiset()).add(back.deep_view().to_multiset())
            =~= a0.to_multiset().add(b0.to_multiset()));
    }
    while a.len() > 0 || b.len() > 0
        invariant
            in_order::<T>(a.deep_view()),
            in_order::<T>(b.deep_view()),
            in_order::<T>(back.deep_view().reverse()),
            forall|i: int, j: int|
                0 <= i < a.deep_view().len() && 0 <= j < back.deep_view().len() ==> T::ranked(
                    #[trigger] a.deep_view()[i],
                    #[trigger] back.deep_view()[j],
                ),
            forall|i: int, j: int|
                0 <= i < b.deep_view().len() && 0 <= j < back.deep_view().len() ==> T::ranked(
                    #[trigger] b.deep_view()[i],
                    #[trigger] back.deep_view()[j],
                ),
            a.deep_view().to_multiset().add(b.deep_view().to_multiset()).add(
                back.deep_view().to_multiset(),
            ) == a0.to_multiset().add(b0.to_multiset()),
        decreases a@.len() + b@.len(),
    {
        let from_a = if b.len() == 0 {
            true
        } else if a.len() == 0 {
            false
        } else {
            !a[a.len() - 1].may_precede(&b[b.len() - 1])
        };
        let ghost av = a.deep_view();
        let ghost bv = b.deep_view();
        let ghost kv = back.deep_view();
        proof {
            assert(a@.len() == av.len());
            assert(b@.len() == bv.len());
            if av.len() > 0 && bv.len() > 0 {
                T::ranked_total(av.last(), bv.last());
            }
        }
        let taken = if from_a {
            a.pop()
        } else {
            b.pop()
        };
        if let Some(x) = taken {
            let ghost xv = x.deep_view();
            proof {
                assert(xv == (if from_a {
                    av.last()
                } else {
                    bv.last()
                }));
            }
            back.push(x);
            proof {
                let a1 = a.deep_view();
                let b1 = b.deep_view();
                let k1 = back.deep_view();
                assert(k1 =~= kv.push(xv));
                if from_a {
                    assert(a1 =~= av.drop_last());
                    assert(b1 =~= bv);
                    lemma_multiset_pop(av);
                } else {
                    assert(b1 =~= bv.drop_last());
                    assert(a1 =~= av);
                    lemma_multiset_pop(bv);
                }
                lemma_multiset_push(kv, xv);
                assert(a1.to_multiset().add(b1.to_multiset()).add(k1.to_multiset())
                    =~= av.to_multiset().add(bv.to_multiset()).add(kv.to_multiset()));
                assert forall|i: int| 0 <= i < a1.len() implies T::ranked(#[trigger] a1[i], xv) by {
                    assert(a1[i] == av[i]);
                    if from_a {
                        assert(T::ranked(av[i], av[av.len() - 1]));
                    } else {
                        if i < av.len() - 1 {
                            assert(T::ranked(av[i], av[av.len() - 1]));
                            T::ranked_transitive(av[i], av.last(), bv.last());
                        }
                    }
                }
                assert forall|i: int| 0 <= i < b1.len() implies T::ranked(#[trigger] b1[i], xv) by {
                    assert(b1[i] == bv[i]);
                    if !from_a {
                        assert(T::ranked(bv[i], bv[bv.len() - 1]));
                    } else {
                        if i < bv.len() - 1 {
                            assert(T::ranked(bv[i], bv[bv.len() - 1]));
                            T::ranked_transitive(bv[i], bv.last(), av.last());
                        }
                    }
                }
                assert forall|j: int| 0 <= j < kv.len() implies T::ranked(xv, #[trigger] kv[j]) by {
                    if from_a {
                        assert(T::ranked(av[av.len() - 1], kv[j]));
                    } else {
                        assert(T::ranked(bv[bv.len() - 1], kv[j]));
                    }
                }
                let rev = k1.reverse();
                assert forall|i: int, j: int| 0 <= i < j < rev.len() implies T::ranked(
                    #[trigger] rev[i],
                    #[trigger] rev[j],
                ) by {
                    if i == 0 {
                        assert(rev[0] == xv);
                        assert(rev[j] == kv[kv.len() - j]);
                    } else {
                        assert(rev[i] == kv.reverse()[i - 1]);
                        assert(rev[j] == kv.reverse()[j - 1]);
                    }
                }
                assert forall|i: int, j: int|
                    0 <= i < a1.len() && 0 <= j < k1.len() implies T::ranked(
                    #[trigger] a1[i],
                    #[trigger] k1[j],
                ) by {
                    if j < kv.len() {
                        assert(k1[j] == kv[j]);
                        assert(a1[i] == av[i]);
                    }
                }
                assert forall|i: int, j: int|
                    0 <= i < b1.len() && 0 <= j < k1.len() implies T::ranked(
                    #[trigger] b1[i],
                    #[trigger] k1[j],
                ) by {
                    if j < kv.len() {
                        assert(k1[j] == kv[j]);
                        assert(b1[i] == bv[i]);
                    }
                }
            }
        }
    }
    proof {
        assert(a.deep_view() =~= seq![]);
        assert(b.deep_view() =~= seq![]);
        assert(a.deep_view().to_multiset() =~= vstd::multiset::Multiset::empty()) by {
            broadcast use vstd::seq_lib::group_to_multiset_ensures;

        }
        lemma_multiset_reverse(back.deep_view());
        assert(back.deep_view().to_multiset() =~= a0.to_multiset().add(b0.to_multiset()));
    }
    reversed(back)
}

/// Sorts a list.
pub fn sort<T: Ranked>(v: Vec<T>) -> (r: Vec<T>)
    ensures
        is_sorting::<T>(v.deep_view(), r.deep_view()),
    decreases v@.len(),
{
    let n: usize = v.len();
    if n <= 1 {
        return v;
    }
    let mut v = v;
    let ghost all = v.deep_view();
    let half: usize = n / 2;
    let tail = v.split_off(half);
    proof {
        assert(v.deep_view() =~= all.take(half as int));
        assert(tail.deep_view() =~= all.skip(half as int));
        vstd::seq_lib::lemma_multiset_commutative(v.deep_view(), tail.deep_view());
        assert(v.deep_view() + tail.deep_view() =~= all);
    }
    let a = sort(v);
    let b = sort(tail);
    merged(a, b)
}

impl Ranked for String {
    open spec fn ranked(a: Seq<char>, b: Seq<char>) -> bool {
        text_at_most(a, b)
    }

    proof fn ranked_total(a: Seq<char>, b: Seq<char>) {
        law_text_order_is_linear();
        assert(text_at_most(a, b) || text_at_most(b, a));
    }

    proof fn ranked_transitive(a: Seq<char>, b: Seq<char>, c: Seq<char>) {
        law_text_order_is_linear();
        assert(text_at_most(a, b) && text_at_most(b, c));
    }

    fn may_precede(&self, other: &Self) -> (r: bool) {
        at_most(self.as_str(), other.as_str())
    }
}

/// The texts of a list in order.
pub open spec fn sorted_texts(s: Seq<Seq<char>>) -> Seq<Seq<char>> {
    choose|t: Seq<Seq<char>>| #[trigger] is_sorting::<String>(s, t)
}

/// There is one way only to put texts in order.
pub proof fn law_one_order_of_texts(s: Seq<Seq<char>>, t: Seq<Seq<char>>)
    requires
        is_sorting::<String>(s, t),
    ensures
        sorted_texts(s) == t,
{
    let u = sorted_texts(s);
    assert(is_sorting::<String>(s, u));
    law_text_order_is_linear();
    let leq = |a: Seq<char>, b: Seq<char>| text_at_most(a, b);
    assert(vstd::relations::total_ordering(leq));
    assert(vstd::relations::sorted_by(t, leq)) by {
        assert forall|i: int, j: int| 0 <= i < j < t.len() implies #[trigger] leq(t[i], t[j]) by {
            assert(<String as Ranked>::ranked(t[i], t[j]));
        }
    }
    assert(vstd::relations::sorted_by(u, leq)) by {
        assert forall|i: int, j: int| 0 <= i < j < u.len() implies #[trigger] leq(u[i], u[j]) by {
            assert(<String as Ranked>::ranked(u[i], u[j]));
        }
    }
    vstd::seq_lib::lemma_sorted_unique(t, u, leq);
}

} // verus!
