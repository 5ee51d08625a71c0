//! Searching sequences and gathering what their elements give.
use vstd::prelude::*;

verus! {

broadcast use vstd::seq::group_seq_axioms;

/// Whether `i` is the first place of `s` whose element meets `p`.
pub open spec fn is_first<A>(s: Seq<A>, p: spec_fn(A) -> bool, i: int) -> bool {
    &&& 0 <= i < s.len()
    &&& p(s[i])
    &&& forall|j: int| 0 <= j < i ==> !p(#[trigger] s[j])
}

/// The first element of `s` that meets `p`.
pub open spec fn first<A>(s: Seq<A>, p: spec_fn(A) -> bool) -> Option<A> {
    if exists|i: int| #[trigger] is_first(s, p, i) {
        Some(s[choose|i: int| #[trigger] is_first(s, p, i)])
    } else {
        None
    }
}

/// The one element if the condition holds, none if it does not.
pub open spec fn one_if<E>(c: bool, e: E) -> Seq<E> {
    if c {
        seq![e]
    } else {
        seq![]
    }
}

/// What `f` gives for each element of `s`, in order, in one sequence.
pub open spec fn gather<A, E>(s: Seq<A>, f: spec_fn(A) -> Seq<E>) -> Seq<E>
    decreases s.len(),
{
    if s.len() == 0 {
        seq![]
    } else {
        gather(s.drop_last(), f) + f(s.last())
    }
}

/// The first place decides which element is the first.
pub proof fn lemma_first<A>(s: Seq<A>, p: spec_fn(A) -> bool, i: int)
    requires
        is_first(s, p, i),
    ensures
        first(s, p) == Some(s[i]),
{
    let j = choose|j: int| #[trigger] is_first(s, p, j);
    assert(is_first(s, p, j));
    if j < i {
        assert(!p(s[j]));
    } else if i < j {
        assert(!p(s[i]));
    }
}

/// Without an element that meets `p` there is no first one.
pub proof fn lemma_no_first<A>(s: Seq<A>, p: spec_fn(A) -> bool)
    requires
        forall|i: int| 0 <= i < s.len() ==> !p(#[trigger] s[i]),
    ensures
        first(s, p) is None,
{
    if exists|i: int| #[trigger] is_first(s, p, i) {
        let i = choose|i: int| #[trigger] is_first(s, p, i);
        assert(!p(s[i]));
    }
}

/// Where an element meets `p` there is a first one.
pub proof fn lemma_has_first<A>(s: Seq<A>, p: spec_fn(A) -> bool, i: int)
    requires
        0 <= i < s.len(),
        p(s[i]),
    ensures
        exists|j: int| #[trigger] is_first(s, p, j) && j <= i,
    decreases i,
{
    if exists|j: int| 0 <= j < i && p(#[trigger] s[j]) {
        let j = choose|j: int| 0 <= j < i && p(#[trigger] s[j]);
        lemma_has_first(s, p, j);
    } else {
        assert(is_first(s, p, i));
    }
}

/// A first element is one of the elements, and meets `p`.
pub proof fn lemma_first_is_element<A>(s: Seq<A>, p: spec_fn(A) -> bool)
    requires
        first(s, p) is Some,
    ensures
        p(first(s, p)->0),
        exists|i: int| #[trigger] is_first(s, p, i) && s[i] == first(s, p)->0,
{
}

/// Functions that agree on the elements gather the same.
pub proof fn lemma_gather_same<A, E>(s: Seq<A>, f: spec_fn(A) -> Seq<E>, g: spec_fn(A) -> Seq<E>)
    requires
        forall|i: int| 0 <= i < s.len() ==> f(#[trigger] s[i]) == g(s[i]),
    ensures
        gather(s, f) == gather(s, g),
    decreases s.len(),
{
    if s.len() > 0 {
        let init = s.drop_last();
        assert forall|i: int| 0 <= i < init.len() implies f(#[trigger] init[i]) == g(init[i]) by {
            assert(init[i] == s[i]);
        }
        lemma_gather_same(init, f, g);
        assert(f(s[s.len() - 1]) == g(s[s.len() - 1]));
    }
}

/// One element more gathers what that element gives more.
pub proof fn lemma_gather_step<A, E>(s: Seq<A>, f: spec_fn(A) -> Seq<E>, i: int)
    requires
        0 <= i < s.len(),
    ensures
        gather(s.take(i + 1), f) == gather(s.take(i), f) + f(s[i]),
{
    assert(s.take(i + 1).drop_last() =~= s.take(i));
}

/// Nothing is gathered exactly where no element gives anything.
pub proof fn lemma_gather_empty<A, E>(s: Seq<A>, f: spec_fn(A) -> Seq<E>)
    ensures
        gather(s, f).len() == 0 <==> (forall|i: int|
            0 <= i < s.len() ==> f(#[trigger] s[i]).len() == 0),
    decreases s.len(),
{
    if s.len() > 0 {
        let init = s.drop_last();
        lemma_gather_empty(init, f);
        if gather(s, f).len() == 0 {
            assert forall|i: int| 0 <= i < s.len() implies f(#[trigger] s[i]).len() == 0 by {
                if i < init.len() {
                    assert(init[i] == s[i]);
                    assert(f(init[i]).len() == 0);
                }
            }
        }
        if forall|i: int| 0 <= i < s.len() ==> f(#[trigger] s[i]).len() == 0 {
            assert forall|i: int| 0 <= i < init.len() implies f(#[trigger] init[i]).len() == 0 by {
                assert(f(s[i]).len() == 0);
            }
            assert(f(s[s.len() - 1]).len() == 0);
        }
    }
}

/// Each thing that is gathered comes from an element.
pub proof fn lemma_gather_source<A, E>(s: Seq<A>, f: spec_fn(A) -> Seq<E>, k: int) -> (i: int)
    requires
        0 <= k < gather(s, f).len(),
    ensures
        0 <= i < s.len(),
        f(s[i]).contains(gather(s, f)[k]),
    decreases s.len(),
{
    let init = s.drop_last();
    let before = gather(init, f);
    if k < before.len() {
        let i = lemma_gather_source(init, f, k);
        i
    } else {
        assert(f(s.last())[k - before.len()] == gather(s, f)[k]);
        s.len() - 1
    }
}

/// What `f` gives for each element of `s`, in order, up to the first element for
/// which it fails.
pub open spec fn collect<A, B, E>(s: Seq<A>, f: spec_fn(A) -> Result<B, E>) -> Result<Seq<B>, E>
    decreases s.len(),
{
    if s.len() == 0 {
        Ok(seq![])
    } else {
        match collect(s.drop_last(), f) {
            Ok(done) => match f(s.last()) {
                Ok(b) => Ok(done.push(b)),
                Err(e) => Err(e),
            },
            Err(e) => Err(e),
        }
    }
}

/// One element more adds what that element gives, or fails as it does.
pub proof fn lemma_collect_step<A, B, E>(s: Seq<A>, f: spec_fn(A) -> Result<B, E>, i: int)
    requires
        0 <= i < s.len(),
        collect(s.take(i), f) is Ok,
    ensures
        match f(s[i]) {
            Ok(b) => collect(s.take(i + 1), f) == Ok::<Seq<B>, E>(
                (collect(s.take(i), f)->Ok_0).push(b),
            ),
            Err(e) => collect(s, f) == Err::<Seq<B>, E>(e),
        },
{
    assert(s.take(i + 1).drop_last() =~= s.take(i));
    if let Err(e) = f(s[i]) {
        lemma_collect_fails(s, f, i + 1, e);
    }
}

/// What has failed stays failed.
pub proof fn lemma_collect_fails<A, B, E>(s: Seq<A>, f: spec_fn(A) -> Result<B, E>, n: int, e: E)
    requires
        0 <= n <= s.len(),
        collect(s.take(n), f) == Err::<Seq<B>, E>(e),
    ensures
        collect(s, f) == Err::<Seq<B>, E>(e),
    decreases s.len() - n,
{
    if n == s.len() {
        assert(s.take(n) =~= s);
    } else {
        assert(s.take(n + 1).drop_last() =~= s.take(n));
        lemma_collect_fails(s, f, n + 1, e);
    }
}

/// What the first elements give stands first.
pub proof fn lemma_gather_prefix<A, E>(s: Seq<A>, f: spec_fn(A) -> Seq<E>, n: int)
    requires
        0 <= n <= s.len(),
    ensures
        gather(s.take(n), f).len() <= gather(s, f).len(),
        gather(s, f).take(gather(s.take(n), f).len() as int) == gather(s.take(n), f),
    decreases s.len() - n,
{
    if n == s.len() {
        assert(s.take(n) =~= s);
        assert(gather(s, f).take(gather(s, f).len() as int) =~= gather(s, f));
    } else {
        lemma_gather_prefix(s, f, n + 1);
        lemma_gather_step(s, f, n);
        let shorter = gather(s.take(n), f);
        let longer = gather(s.take(n + 1), f);
        assert(longer.take(shorter.len() as int) =~= shorter);
        assert(gather(s, f).take(shorter.len() as int) =~= gather(s, f).take(
            longer.len() as int,
        ).take(shorter.len() as int));
    }
}

/// The sum of what `w` gives for each element.
pub open spec fn total<A>(s: Seq<A>, w: spec_fn(A) -> nat) -> nat
    decreases s.len(),
{
    if s.len() == 0 {
        0
    } else {
        total(s.drop_last(), w) + w(s.last())
    }
}

/// As many things are gathered as the elements give together.
pub proof fn lemma_gather_len<A, E>(s: Seq<A>, f: spec_fn(A) -> Seq<E>)
    ensures
        gather(s, f).len() == total(s, |a: A| f(a).len()),
    decreases s.len(),
{
    if s.len() > 0 {
        lemma_gather_len(s.drop_last(), f);
    }
}

/// Weights that agree on the elements have the same sum.
pub proof fn lemma_total_same<A>(s: Seq<A>, v: spec_fn(A) -> nat, w: spec_fn(A) -> nat)
    requires
        forall|i: int| 0 <= i < s.len() ==> v(#[trigger] s[i]) == w(s[i]),
    ensures
        total(s, v) == total(s, w),
    decreases s.len(),
{
    if s.len() > 0 {
        let init = s.drop_last();
        assert forall|i: int| 0 <= i < init.len() implies v(#[trigger] init[i]) == w(init[i]) by {
            assert(init[i] == s[i]);
        }
        lemma_total_same(init, v, w);
        assert(v(s[s.len() - 1]) == w(s[s.len() - 1]));
    }
}

/// Where each element gives nothing, so do all.
pub proof fn lemma_total_zero<A>(s: Seq<A>, w: spec_fn(A) -> nat)
    requires
        forall|i: int| 0 <= i < s.len() ==> w(#[trigger] s[i]) == 0,
    ensures
        total(s, w) == 0,
    decreases s.len(),
{
    if s.len() > 0 {
        let init = s.drop_last();
        assert forall|i: int| 0 <= i < init.len() implies w(#[trigger] init[i]) == 0 by {
            assert(init[i] == s[i]);
        }
        lemma_total_zero(init, w);
        assert(w(s[s.len() - 1]) == 0);
    }
}

/// Where one element at most gives something, that is the sum.
pub proof fn lemma_total_single<A>(s: Seq<A>, w: spec_fn(A) -> nat, k: int)
    requires
        0 <= k < s.len(),
        forall|i: int| 0 <= i < s.len() && i != k ==> w(#[trigger] s[i]) == 0,
    ensures
        total(s, w) == w(s[k]),
    decreases s.len(),
{
    let init = s.drop_last();
    assert forall|i: int| 0 <= i < init.len() && i != k implies w(#[trigger] init[i]) == 0 by {
        assert(init[i] == s[i]);
    }
    if k < init.len() {
        lemma_total_single(init, w, k);
        assert(w(s[s.len() - 1]) == 0);
    } else {
        lemma_total_zero(init, w);
    }
}

/// Sums can be taken apart.
pub proof fn lemma_total_sum<A>(s: Seq<A>, v: spec_fn(A) -> nat, w: spec_fn(A) -> nat)
    ensures
        total(s, |a: A| v(a) + w(a)) == total(s, v) + total(s, w),
    decreases s.len(),
{
    if s.len() > 0 {
        lemma_total_sum(s.drop_last(), v, w);
    }
}

/// It does not matter over which of two lists is summed first.
pub proof fn lemma_total_swapped<A, B>(s: Seq<A>, t: Seq<B>, w: spec_fn(A, B) -> nat)
    ensures
        total(s, |a: A| total(t, |b: B| w(a, b))) == total(t, |b: B| total(s, |a: A| w(a, b))),
    decreases s.len(),
{
    let inner = |b: B| total(s, |a: A| w(a, b));
    if s.len() == 0 {
        lemma_total_zero(t, inner);
    } else {
        let init = s.drop_last();
        let last = s.last();
        let before = |b: B| total(init, |a: A| w(a, b));
        let now = |b: B| w(last, b);
        lemma_total_swapped(init, t, w);
        lemma_total_sum(t, before, now);
        lemma_total_same(t, inner, |b: B| before(b) + now(b));
    }
}

/// Two lists behind one another gather what they gather one by one.
pub proof fn lemma_gather_append<A, E>(s: Seq<A>, t: Seq<A>, f: spec_fn(A) -> Seq<E>)
    ensures
        gather(s + t, f) == gather(s, f) + gather(t, f),
    decreases t.len(),
{
    if t.len() == 0 {
        assert(s + t =~= s);
        assert(gather(s, f) + gather(t, f) =~= gather(s, f));
    } else {
        assert((s + t).drop_last() =~= s + t.drop_last());
        lemma_gather_append(s, t.drop_last(), f);
        assert(gather(s + t, f) =~= gather(s, f) + gather(t, f));
    }
}

/// What is gathered from what is gathered can be gathered at once.
pub proof fn lemma_gather_nested<A, B, E>(
    s: Seq<A>,
    f: spec_fn(A) -> Seq<B>,
    g: spec_fn(B) -> Seq<E>,
)
    ensures
        gather(gather(s, f), g) == gather(s, |a: A| gather(f(a), g)),
    decreases s.len(),
{
    if s.len() > 0 {
        lemma_gather_nested(s.drop_last(), f, g);
        lemma_gather_append(gather(s.drop_last(), f), f(s.last()), g);
    }
}

/// The elements in another order gather the same things, in some order.
pub proof fn lemma_gather_permuted<A, E>(s: Seq<A>, t: Seq<A>, f: spec_fn(A) -> Seq<E>)
    requires
        s.to_multiset() == t.to_multiset(),
    ensures
        gather(s, f).to_multiset() == gather(t, f).to_multiset(),
    decreases s.len(),
{
    broadcast use vstd::multiset::group_multiset_axioms;

    s.to_multiset_ensures();
    t.to_multiset_ensures();
    if s.len() == 0 {
        assert(s =~= t);
    } else {
        let last = s.last();
        let init = s.drop_last();
        assert(s.contains(last));
        assert(t.to_multiset().count(last) > 0);
        let j = choose|j: int| 0 <= j < t.len() && t[j] == last;
        let (before, after) = (t.take(j), t.skip(j + 1));
        let rest = before + after;
        assert(t.remove(j) =~= rest);
        assert(s.remove(s.len() - 1) =~= init);
        lemma_gather_permuted(init, rest, f);
        let one = seq![last];
        assert(t =~= before + one + after);
        lemma_gather_append(before + one, after, f);
        lemma_gather_append(before, one, f);
        lemma_gather_append(before, after, f);
        assert(one.drop_last() =~= Seq::<A>::empty());
        assert(gather(one.drop_last(), f) =~= Seq::<E>::empty());
        assert(gather(one, f) =~= f(last));
        let (a, b, c) = (gather(before, f), gather(after, f), f(last));
        vstd::seq_lib::lemma_multiset_commutative(a, b);
        vstd::seq_lib::lemma_multiset_commutative(a + c, b);
        vstd::seq_lib::lemma_multiset_commutative(a, c);
        vstd::seq_lib::lemma_multiset_commutative(gather(init, f), c);
        assert(gather(s, f).to_multiset() =~= gather(t, f).to_multiset());
    }
}

/// What an element gives stands behind what the elements before it give.
pub proof fn lemma_gather_at<A, E>(s: Seq<A>, f: spec_fn(A) -> Seq<E>, i: int, k: int)
    requires
        0 <= i < s.len(),
        0 <= k < f(s[i]).len(),
    ensures
        0 <= total(s.take(i), |a: A| f(a).len()) + k < gather(s, f).len(),
        gather(s, f)[total(s.take(i), |a: A| f(a).len()) + k] == f(s[i])[k],
{
    lemma_gather_len(s.take(i), f);
    lemma_gather_step(s, f, i);
    lemma_gather_prefix(s, f, i + 1);
    let before = gather(s.take(i), f);
    let now = gather(s.take(i + 1), f);
    assert(now[before.len() + k] == f(s[i])[k]);
    assert(gather(s, f).take(now.len() as int)[before.len() + k] == now[before.len() + k]);
}

/// The sum up to an element does not go down.
pub proof fn lemma_total_prefix<A>(s: Seq<A>, w: spec_fn(A) -> nat, i: int, j: int)
    requires
        0 <= i < j <= s.len(),
    ensures
        total(s.take(i), w) + w(s[i]) <= total(s.take(j), w),
    decreases j - i,
{
    let t = s.take(j);
    assert(t.drop_last() =~= s.take(j - 1));
    if i + 1 < j {
        lemma_total_prefix(s, w, i, j - 1);
    }
}

/// Each thing that is gathered is one that an element gives, behind what the
/// elements before it give.
pub proof fn lemma_gather_locate<A, E>(s: Seq<A>, f: spec_fn(A) -> Seq<E>, k: int) -> (r: (int, int))
    requires
        0 <= k < gather(s, f).len(),
    ensures
        0 <= r.0 < s.len(),
        0 <= r.1 < f(s[r.0]).len(),
        k == total(s.take(r.0), |a: A| f(a).len()) + r.1,
        gather(s, f)[k] == f(s[r.0])[r.1],
    decreases s.len(),
{
    let init = s.drop_last();
    let before = gather(init, f);
    if k < before.len() {
        let r = lemma_gather_locate(init, f, k);
        assert(init.take(r.0) =~= s.take(r.0));
        r
    } else {
        lemma_gather_len(init, f);
        assert(s.take(s.len() - 1) =~= init);
        (s.len() - 1, k - before.len())
    }
}

/// Where each element counts as one or none, each number below the sum is that of an
/// element that counts.
pub proof fn lemma_total_locate<A>(s: Seq<A>, w: spec_fn(A) -> nat, k: int) -> (i: int)
    requires
        forall|i: int| 0 <= i < s.len() ==> w(#[trigger] s[i]) <= 1,
        0 <= k < total(s, w),
    ensures
        0 <= i < s.len(),
        w(s[i]) == 1,
        total(s.take(i), w) == k,
    decreases s.len(),
{
    let init = s.drop_last();
    assert forall|i: int| 0 <= i < init.len() implies w(#[trigger] init[i]) <= 1 by {
        assert(init[i] == s[i]);
    }
    assert(w(s[s.len() - 1]) <= 1);
    if k < total(init, w) {
        let i = lemma_total_locate(init, w, k);
        assert(init.take(i) =~= s.take(i));
        i
    } else {
        assert(s.take(s.len() - 1) =~= init);
        s.len() - 1
    }
}

/// What an element gives, as a piece of what is gathered.
pub proof fn lemma_gather_slice<A, E>(s: Seq<A>, f: spec_fn(A) -> Seq<E>, i: int)
    requires
        0 <= i < s.len(),
    ensures
        total(s.take(i), |a: A| f(a).len()) + f(s[i]).len() <= gather(s, f).len(),
        gather(s, f).subrange(
            total(s.take(i), |a: A| f(a).len()) as int,
            (total(s.take(i), |a: A| f(a).len()) + f(s[i]).len()) as int,
        ) == f(s[i]),
{
    let at = total(s.take(i), |a: A| f(a).len()) as int;
    let own = f(s[i]);
    lemma_gather_len(s, f);
    lemma_total_prefix(s, |a: A| f(a).len(), i, s.len() as int);
    assert(s.take(s.len() as int) =~= s);
    assert forall|k: int| 0 <= k < own.len() implies gather(s, f)[at + k] == own[k] by {
        lemma_gather_at(s, f, i, k);
    }
    assert(gather(s, f).subrange(at, at + own.len()) =~= own);
}

} // verus!
