//! A stable sort, stated as the function it computes.
use vstd::prelude::*;

verus! {

/// A type whose values can be put in order. Values that stand level with each
/// other keep the order they came in.
pub trait Ranked: Sized {
    /// `self` may stand before `other`.
    spec fn le(&self, other: &Self) -> bool;

    /// Of two values one may stand before the other.
    proof fn le_total(a: &Self, b: &Self)
        ensures
            a.le(b) || b.le(a),
    ;

    /// The order is transitive.
    proof fn le_transitive(a: &Self, b: &Self, c: &Self)
        requires
            a.le(b),
            b.le(c),
        ensures
            a.le(c),
    ;

    /// Whether `self` may stand before `other`.
    fn leq(&self, other: &Self) -> (r: bool)
        ensures
            r == self.le(other),
    ;
}

/// `s` with `x` put in behind everything at its end that may stand before it.
pub open spec fn inserted<T: Ranked>(s: Seq<T>, x: T) -> Seq<T>
    decreases s.len(),
{
    if s.len() == 0 || s.last().le(&x) {
        s.push(x)
    } else {
        inserted(s.drop_last(), x).push(s.last())
    }
}

/// `s` in order, with what stands level in the order it came in.
pub open spec fn sorted<T: Ranked>(s: Seq<T>) -> Seq<T>
    decreases s.len(),
{
    if s.len() == 0 {
        Seq::empty()
    } else {
        inserted(sorted(s.drop_last()), s.last())
    }
}

proof fn lemma_inserted_at<T: Ranked>(s: Seq<T>, x: T, at: int)
    requires
        0 <= at <= s.len(),
        at > 0 ==> s[at - 1].le(&x),
        forall|k: int| at <= k < s.len() ==> !(#[trigger] s[k]).le(&x),
    ensures
        inserted(s, x) == s.insert(at, x),
    decreases s.len(),
{
    if at == s.len() {
        assert(s.insert(at, x) =~= s.push(x));
    } else {
        assert(!s[s.len() - 1].le(&x));
        assert forall|k: int| at <= k < s.drop_last().len() implies !(
        #[trigger] s.drop_last()[k]).le(&x) by {
            assert(!s[k].le(&x));
        }
        lemma_inserted_at(s.drop_last(), x, at);
        assert(s.drop_last().insert(at, x).push(s.last()) =~= s.insert(at, x));
    }
}

/// Sorts a list, keeping what stands level in the order it came in.
pub fn sort<T: Ranked>(v: Vec<T>) -> (r: Vec<T>)
    ensures
        r@ == sorted(v@),
{
    let ghost all = v@;
    let mut out: Vec<T> = Vec::new();
    assert(out@ =~= sorted(all.take(0)));
    for x in it: v
        invariant
            it.seq() == all,
            out@ == sorted(all.take(it.index() as int)),
    {
        let ghost n = it.index() as int;
        assert(all.take(n + 1).drop_last() =~= all.take(n));
        let mut at: usize = out.len();
        while at > 0 && !out[at - 1].leq(&x)
            invariant
                at <= out@.len(),
                forall|k: int| at <= k < out@.len() ==> !(#[trigger] out@[k]).le(&x),
            ensures
                at <= out@.len(),
                at > 0 ==> out@[at - 1].le(&x),
                forall|k: int| at <= k < out@.len() ==> !(#[trigger] out@[k]).le(&x),
            decreases at,
        {
            at = at - 1;
        }
        proof {
            lemma_inserted_at(out@, x, at as int);
        }
        out.insert(at, x);
    }
    assert(all.take(all.len() as int) =~= all);
    out
}

proof fn lemma_inserted_ordered<T: Ranked>(s: Seq<T>, x: T)
    requires
        forall|i: int, j: int| 0 <= i < j < s.len() ==> (#[trigger] s[i]).le(#[trigger] &s[j]),
    ensures
        forall|i: int, j: int|
            0 <= i < j < inserted(s, x).len() ==> (#[trigger] inserted(s, x)[i]).le(
                #[trigger] &inserted(s, x)[j],
            ),
        inserted(s, x).len() == s.len() + 1,
        forall|i: int|
            0 <= i < inserted(s, x).len() ==> (#[trigger] inserted(s, x)[i]) == x || s.contains(
                inserted(s, x)[i],
            ),
    decreases s.len(),
{
    let r = inserted(s, x);
    if s.len() == 0 {
    } else if s.last().le(&x) {
        assert forall|i: int, j: int| 0 <= i < j < r.len() implies (#[trigger] r[i]).le(
            #[trigger] &r[j],
        ) by {
            if j == s.len() {
                if i < s.len() - 1 {
                    assert(s[i].le(&s[s.len() - 1]));
                    T::le_transitive(&s[i], &s.last(), &x);
                }
            }
        }
        assert forall|i: int| 0 <= i < r.len() implies (#[trigger] r[i]) == x || s.contains(
            r[i],
        ) by {
            if i < s.len() {
                assert(s.contains(s[i]));
            }
        }
    } else {
        T::le_total(&s.last(), &x);
        let t = s.drop_last();
        assert forall|i: int, j: int| 0 <= i < j < t.len() implies (#[trigger] t[i]).le(
            #[trigger] &t[j],
        ) by {
            assert(s[i].le(&s[j]));
        }
        lemma_inserted_ordered(t, x);
        let q = inserted(t, x);
        assert forall|i: int, j: int| 0 <= i < j < r.len() implies (#[trigger] r[i]).le(
            #[trigger] &r[j],
        ) by {
            if j == r.len() - 1 {
                assert(q[i] == x || t.contains(q[i]));
                if q[i] != x {
                    let k = choose|k: int| 0 <= k < t.len() && t[k] == q[i];
                    assert(s[k].le(&s[s.len() - 1]));
                }
            } else {
                assert(q[i].le(&q[j]));
            }
        }
        assert forall|i: int| 0 <= i < r.len() implies (#[trigger] r[i]) == x || s.contains(
            r[i],
        ) by {
            if i < q.len() {
                assert(q[i] == x || t.contains(q[i]));
                if q[i] != x {
                    let k = choose|k: int| 0 <= k < t.len() && t[k] == q[i];
                    assert(s[k] == r[i]);
                }
            } else {
                assert(s[s.len() - 1] == r[i]);
            }
        }
    }
}

/// What a sort gives is in order.
pub proof fn lemma_sorted_ordered<T: Ranked>(s: Seq<T>)
    ensures
        forall|i: int, j: int|
            0 <= i < j < sorted(s).len() ==> (#[trigger] sorted(s)[i]).le(#[trigger] &sorted(s)[j]),
        sorted(s).len() == s.len(),
    decreases s.len(),
{
    if s.len() > 0 {
        lemma_sorted_ordered(s.drop_last());
        lemma_inserted_ordered(sorted(s.drop_last()), s.last());
    }
}

proof fn lemma_inserted_multiset<T: Ranked>(s: Seq<T>, x: T)
    ensures
        inserted(s, x).to_multiset() == s.to_multiset().insert(x),
    decreases s.len(),
{
    broadcast use vstd::seq_lib::group_to_multiset_ensures;

    if s.len() == 0 || s.last().le(&x) {
    } else {
        lemma_inserted_multiset(s.drop_last(), x);
        assert(s =~= s.drop_last().push(s.last()));
        assert(inserted(s, x).to_multiset() =~= s.to_multiset().insert(x));
    }
}

/// A sort keeps every element, as often as it came.
pub proof fn lemma_sorted_multiset<T: Ranked>(s: Seq<T>)
    ensures
        sorted(s).to_multiset() == s.to_multiset(),
    decreases s.len(),
{
    broadcast use vstd::seq_lib::group_to_multiset_ensures;

    if s.len() > 0 {
        lemma_sorted_multiset(s.drop_last());
        lemma_inserted_multiset(sorted(s.drop_last()), s.last());
        assert(s =~= s.drop_last().push(s.last()));
    }
}

/// The values that stand level with `z`.
pub open spec fn level<T: Ranked>(z: T) -> spec_fn(T) -> bool {
    |y: T| y.le(&z) && z.le(&y)
}

proof fn lemma_inserted_level<T: Ranked>(s: Seq<T>, x: T, z: T)
    ensures
        inserted(s, x).filter(level(z)) == s.push(x).filter(level(z)),
    decreases s.len(),
{
    if s.len() == 0 || s.last().le(&x) {
    } else {
        let t = s.drop_last();
        let p = level(z);
        lemma_inserted_level(t, x, z);
        assert(s =~= t.push(s.last()));
        t.lemma_filter_push(x, p);
        t.lemma_filter_push(s.last(), p);
        s.lemma_filter_push(x, p);
        inserted(t, x).lemma_filter_push(s.last(), p);
        if p(x) && p(s.last()) {
            T::le_transitive(&s.last(), &z, &x);
        }
    }
}

/// A sort keeps what stands level in the order it came in.
pub proof fn law_a_sort_is_stable<T: Ranked>(s: Seq<T>, z: T)
    ensures
        sorted(s).filter(level(z)) == s.filter(level(z)),
    decreases s.len(),
{
    if s.len() > 0 {
        let t = s.drop_last();
        let p = level(z);
        law_a_sort_is_stable(t, z);
        lemma_inserted_level(sorted(t), s.last(), z);
        assert(s =~= t.push(s.last()));
        t.lemma_filter_push(s.last(), p);
        sorted(t).lemma_filter_push(s.last(), p);
    }
}

/// The sum of `f` over a list.
pub open spec fn sum_of<T>(s: Seq<T>, f: spec_fn(T) -> int) -> int
    decreases s.len(),
{
    if s.len() == 0 {
        0
    } else {
        sum_of(s.drop_last(), f) + f(s.last())
    }
}

proof fn lemma_inserted_sum<T: Ranked>(s: Seq<T>, x: T, f: spec_fn(T) -> int)
    ensures
        sum_of(inserted(s, x), f) == sum_of(s, f) + f(x),
    decreases s.len(),
{
    if s.len() == 0 || s.last().le(&x) {
        assert(s.push(x).drop_last() =~= s);
    } else {
        lemma_inserted_sum(s.drop_last(), x, f);
        let q = inserted(s.drop_last(), x);
        assert(q.push(s.last()).drop_last() =~= q);
    }
}

/// A sort changes no sum.
pub proof fn lemma_sorted_sum<T: Ranked>(s: Seq<T>, f: spec_fn(T) -> int)
    ensures
        sum_of(sorted(s), f) == sum_of(s, f),
    decreases s.len(),
{
    if s.len() > 0 {
        lemma_sorted_sum(s.drop_last(), f);
        lemma_inserted_sum(sorted(s.drop_last()), s.last(), f);
    }
}

/// One more element adds its value to the sum.
pub proof fn lemma_sum_push<T>(s: Seq<T>, x: T, f: spec_fn(T) -> int)
    ensures
        sum_of(s.push(x), f) == sum_of(s, f) + f(x),
{
    assert(s.push(x).drop_last() =~= s);
}

/// The sum over a prefix is no larger than the sum over the whole, where no
/// element counts below zero.
pub proof fn lemma_sum_prefix<T>(s: Seq<T>, f: spec_fn(T) -> int, n: int)
    requires
        0 <= n <= s.len(),
        forall|i: int| 0 <= i < s.len() ==> f(#[trigger] s[i]) >= 0,
    ensures
        0 <= sum_of(s.take(n), f) <= sum_of(s, f),
    decreases s.len(),
{
    if s.len() == 0 {
        assert(s.take(n) =~= s);
    } else if n == s.len() {
        assert(s.take(n) =~= s);
        lemma_sum_prefix(s.drop_last(), f, n - 1);
        assert(f(s[s.len() - 1]) >= 0);
    } else {
        lemma_sum_prefix(s.drop_last(), f, n);
        assert(s.drop_last().take(n) =~= s.take(n));
        assert(f(s[s.len() - 1]) >= 0);
    }
}

/// `a` stands before `b` in the order of their characters, or is equal to it.
pub open spec fn text_le(a: Seq<char>, b: Seq<char>) -> bool
    decreases a.len(),
{
    if a.len() == 0 {
        true
    } else if b.len() == 0 {
        false
    } else if a[0] != b[0] {
        a[0] < b[0]
    } else {
        text_le(a.drop_first(), b.drop_first())
    }
}

/// The order of texts is total, and two texts level with each other are equal.
pub proof fn lemma_text_le_total(a: Seq<char>, b: Seq<char>)
    ensures
        text_le(a, b) || text_le(b, a),
        text_le(a, b) && text_le(b, a) ==> a == b,
    decreases a.len(),
{
    if a.len() > 0 && b.len() > 0 && a[0] == b[0] {
        lemma_text_le_total(a.drop_first(), b.drop_first());
        if text_le(a, b) && text_le(b, a) {
            assert(a =~= seq![a[0]] + a.drop_first());
            assert(b =~= seq![b[0]] + b.drop_first());
        }
    } else if a.len() == 0 && b.len() == 0 {
        assert(a =~= b);
    }
}

/// The order of texts is transitive.
pub proof fn lemma_text_le_transitive(a: Seq<char>, b: Seq<char>, c: Seq<char>)
    requires
        text_le(a, b),
        text_le(b, c),
    ensures
        text_le(a, c),
    decreases a.len(),
{
    if a.len() > 0 && b.len() > 0 && c.len() > 0 && a[0] == b[0] && b[0] == c[0] {
        lemma_text_le_transitive(a.drop_first(), b.drop_first(), c.drop_first());
    }
}

/// Whether `a` stands before `b` or is equal to it.
pub fn text_leq(a: &str, b: &str) -> (r: bool)
    ensures
        r == text_le(a@, b@),
{
    let x = crate::text::chars_of(a);
    let y = crate::text::chars_of(b);
    let mut i: usize = 0;
    assert(x@.skip(0) =~= a@);
    assert(y@.skip(0) =~= b@);
    while i < x.len()
        invariant
            i <= x@.len(),
            i <= y@.len(),
            x@ == a@,
            y@ == b@,
            text_le(a@, b@) == text_le(x@.skip(i as int), y@.skip(i as int)),
        decreases x@.len() - i,
    {
        assert(x@.skip(i as int).drop_first() =~= x@.skip(i + 1));
        if i >= y.len() {
            return false;
        }
        assert(y@.skip(i as int).drop_first() =~= y@.skip(i + 1));
        if x[i] != y[i] {
            return x[i] < y[i];
        }
        i = i + 1;
    }
    true
}

/// `s` with `x` put in behind everything at its end that may stand before it, by
/// a given order.
pub open spec fn placed<V>(s: Seq<V>, x: V, le: spec_fn(V, V) -> bool) -> Seq<V>
    decreases s.len(),
{
    if s.len() == 0 || le(s.last(), x) {
        s.push(x)
    } else {
        placed(s.drop_last(), x, le).push(s.last())
    }
}

/// `s` in a given order, with what stands level in the order it came in.
pub open spec fn arranged<V>(s: Seq<V>, le: spec_fn(V, V) -> bool) -> Seq<V>
    decreases s.len(),
{
    if s.len() == 0 {
        Seq::empty()
    } else {
        placed(arranged(s.drop_last(), le), s.last(), le)
    }
}

proof fn lemma_placed<T: Ranked, V>(s: Seq<T>, x: T, f: spec_fn(T) -> V, le: spec_fn(V, V) -> bool)
    requires
        forall|a: T, b: T| #[trigger] a.le(&b) == le(f(a), f(b)),
    ensures
        placed(s.map_values(f), f(x), le) == inserted(s, x).map_values(f),
    decreases s.len(),
{
    let m = s.map_values(f);
    if s.len() == 0 || s.last().le(&x) {
        assert(m.len() > 0 ==> m.last() == f(s.last()));
        assert(s.push(x).map_values(f) =~= m.push(f(x)));
    } else {
        assert(m.last() == f(s.last()));
        lemma_placed(s.drop_last(), x, f, le);
        assert(m.drop_last() =~= s.drop_last().map_values(f));
        assert(inserted(s, x).map_values(f) =~= inserted(s.drop_last(), x).map_values(f).push(
            f(s.last()),
        ));
    }
}

/// Sorting values sorts what they stand for.
pub proof fn lemma_arranged<T: Ranked, V>(
    s: Seq<T>,
    f: spec_fn(T) -> V,
    le: spec_fn(V, V) -> bool,
)
    requires
        forall|a: T, b: T| #[trigger] a.le(&b) == le(f(a), f(b)),
    ensures
        arranged(s.map_values(f), le) == sorted(s).map_values(f),
    decreases s.len(),
{
    let m = s.map_values(f);
    if s.len() == 0 {
        assert(m =~= Seq::<V>::empty());
        assert(sorted(s).map_values(f) =~= Seq::<V>::empty());
    } else {
        lemma_arranged(s.drop_last(), f, le);
        assert(m.drop_last() =~= s.drop_last().map_values(f));
        lemma_placed(sorted(s.drop_last()), s.last(), f, le);
    }
}

/// No two elements of a list have the same key.
pub open spec fn apart<V, K>(s: Seq<V>, key: spec_fn(V) -> K) -> bool {
    forall|i: int, j: int|
        0 <= i < j < s.len() ==> key(#[trigger] s[i]) != key(#[trigger] s[j])
}

/// What stands apart stands apart in any order.
pub proof fn lemma_shuffled_apart<V, K>(a: Seq<V>, b: Seq<V>, key: spec_fn(V) -> K)
    requires
        a.to_multiset() == b.to_multiset(),
        apart(a, key),
    ensures
        apart(b, key),
{
    broadcast use vstd::seq_lib::group_to_multiset_ensures;

    assert(a.no_duplicates()) by {
        assert forall|i: int, j: int|
            0 <= i < a.len() && 0 <= j < a.len() && i != j implies a[i] != a[j] by {
            if i < j {
                assert(key(a[i]) != key(a[j]));
            } else {
                assert(key(a[j]) != key(a[i]));
            }
        }
    }
    a.lemma_multiset_has_no_duplicates();
    b.lemma_multiset_has_no_duplicates_conv();
    assert forall|i: int, j: int| 0 <= i < j < b.len() implies key(#[trigger] b[i]) != key(
        #[trigger] b[j],
    ) by {
        assert(b.to_multiset().count(b[i]) > 0 && b.to_multiset().count(b[j]) > 0);
        assert(a.contains(b[i]) && a.contains(b[j]));
        let p = choose|p: int| 0 <= p < a.len() && a[p] == b[i];
        let q = choose|q: int| 0 <= q < a.len() && a[q] == b[j];
        assert(b[i] != b[j]);
        if p < q {
            assert(key(a[p]) != key(a[q]));
        } else {
            assert(key(a[q]) != key(a[p]));
        }
    }
}

/// What stands apart still does when some of it is left out.
pub proof fn lemma_filtered_apart<V, K>(s: Seq<V>, keep: spec_fn(V) -> bool, key: spec_fn(V) -> K)
    requires
        apart(s, key),
    ensures
        apart(s.filter(keep), key),
    decreases s.len(),
{
    reveal(Seq::filter);
    if s.len() > 0 {
        let t = s.drop_last();
        assert(apart(t, key)) by {
            assert forall|i: int, j: int| 0 <= i < j < t.len() implies key(#[trigger] t[i]) != key(
                #[trigger] t[j],
            ) by {
                assert(key(s[i]) != key(s[j]));
            }
        }
        lemma_filtered_apart(t, keep, key);
        let f = t.filter(keep);
        if keep(s.last()) {
            assert(s.filter(keep) == f.push(s.last()));
            assert forall|i: int, j: int| 0 <= i < j < s.filter(keep).len() implies key(
                #[trigger] s.filter(keep)[i],
            ) != key(#[trigger] s.filter(keep)[j]) by {
                if j < f.len() {
                    assert(key(f[i]) != key(f[j]));
                } else {
                    assert(f.contains(f[i]));
                    t.lemma_filter_contains_rev(keep, f[i]);
                    let p = choose|p: int| 0 <= p < t.len() && t[p] == f[i];
                    assert(key(s[p]) != key(s[s.len() - 1]));
                }
            }
        }
    }
}

proof fn lemma_placed_multiset<V>(s: Seq<V>, x: V, le: spec_fn(V, V) -> bool)
    ensures
        placed(s, x, le).to_multiset() == s.to_multiset().insert(x),
    decreases s.len(),
{
    broadcast use vstd::seq_lib::group_to_multiset_ensures;

    if s.len() == 0 || le(s.last(), x) {
    } else {
        lemma_placed_multiset(s.drop_last(), x, le);
        assert(s =~= s.drop_last().push(s.last()));
        assert(placed(s, x, le).to_multiset() =~= s.to_multiset().insert(x));
    }
}

/// Putting values in order keeps every one, as often as it came.
pub proof fn lemma_arranged_multiset<V>(s: Seq<V>, le: spec_fn(V, V) -> bool)
    ensures
        arranged(s, le).to_multiset() == s.to_multiset(),
    decreases s.len(),
{
    broadcast use vstd::seq_lib::group_to_multiset_ensures;

    if s.len() > 0 {
        lemma_arranged_multiset(s.drop_last(), le);
        lemma_placed_multiset(arranged(s.drop_last(), le), s.last(), le);
        assert(s =~= s.drop_last().push(s.last()));
    }
}

/// An order in which any two values can be compared.
pub open spec fn is_order<V>(le: spec_fn(V, V) -> bool) -> bool {
    &&& forall|a: V, b: V| #[trigger] le(a, b) || le(b, a)
    &&& forall|a: V, b: V, c: V| #[trigger] le(a, b) && #[trigger] le(b, c) ==> le(a, c)
}

/// No value of a list comes before one that may not follow it.
pub open spec fn is_ordered<V>(s: Seq<V>, le: spec_fn(V, V) -> bool) -> bool {
    forall|i: int, j: int| 0 <= i < j < s.len() ==> le(#[trigger] s[i], #[trigger] s[j])
}

proof fn lemma_placed_ordered<V>(s: Seq<V>, x: V, le: spec_fn(V, V) -> bool)
    requires
        is_order(le),
        is_ordered(s, le),
    ensures
        is_ordered(placed(s, x, le), le),
        forall|i: int|
            0 <= i < placed(s, x, le).len() ==> s.contains(#[trigger] placed(s, x, le)[i])
                || placed(s, x, le)[i] == x,
    decreases s.len(),
{
    let now = placed(s, x, le);
    if s.len() == 0 {
    } else if le(s.last(), x) {
        assert forall|i: int, j: int| 0 <= i < j < now.len() implies le(
            #[trigger] now[i],
            #[trigger] now[j],
        ) by {
            if j == s.len() && i < s.len() - 1 {
                assert(le(s[i], s[s.len() - 1]));
            }
        }
        assert forall|i: int| 0 <= i < now.len() implies s.contains(#[trigger] now[i]) || now[i]
            == x by {
            if i < s.len() {
                assert(now[i] == s[i]);
            }
        }
    } else {
        let t = s.drop_last();
        assert(is_ordered(t, le)) by {
            assert forall|i: int, j: int| 0 <= i < j < t.len() implies le(
                #[trigger] t[i],
                #[trigger] t[j],
            ) by {
                assert(le(s[i], s[j]));
            }
        }
        lemma_placed_ordered(t, x, le);
        let before = placed(t, x, le);
        assert(le(x, s.last()));
        assert forall|i: int| 0 <= i < before.len() implies le(#[trigger] before[i], s.last())
            && (s.contains(before[i]) || before[i] == x) by {
            if before[i] != x {
                assert(t.contains(before[i]));
                let k = choose|k: int| 0 <= k < t.len() && t[k] == before[i];
                assert(s[k] == before[i]);
                assert(le(s[k], s[s.len() - 1]));
            }
        }
        assert forall|i: int| 0 <= i < now.len() implies s.contains(#[trigger] now[i]) || now[i]
            == x by {
            if i == before.len() {
                assert(now[i] == s[s.len() - 1]);
            } else {
                assert(now[i] == before[i]);
            }
        }
    }
}

/// What is put in order is in order.
pub proof fn lemma_arranged_ordered<V>(s: Seq<V>, le: spec_fn(V, V) -> bool)
    requires
        is_order(le),
    ensures
        is_ordered(arranged(s, le), le),
    decreases s.len(),
{
    if s.len() > 0 {
        lemma_arranged_ordered(s.drop_last(), le);
        lemma_placed_ordered(arranged(s.drop_last(), le), s.last(), le);
    }
}

/// What is put in order was there before.
pub proof fn lemma_arranged_members<V>(s: Seq<V>, le: spec_fn(V, V) -> bool)
    ensures
        forall|i: int|
            0 <= i < arranged(s, le).len() ==> s.contains(#[trigger] arranged(s, le)[i]),
{
    broadcast use vstd::seq_lib::group_to_multiset_ensures;

    lemma_arranged_multiset(s, le);
    let now = arranged(s, le);
    assert forall|i: int| 0 <= i < now.len() implies s.contains(#[trigger] now[i]) by {
        assert(now.to_multiset().count(now[i]) > 0);
    }
}

proof fn lemma_placed_sum<V>(s: Seq<V>, x: V, le: spec_fn(V, V) -> bool, f: spec_fn(V) -> int)
    ensures
        sum_of(placed(s, x, le), f) == sum_of(s, f) + f(x),
    decreases s.len(),
{
    if s.len() == 0 || le(s.last(), x) {
        lemma_sum_push(s, x, f);
    } else {
        lemma_placed_sum(s.drop_last(), x, le, f);
        lemma_sum_push(placed(s.drop_last(), x, le), s.last(), f);
    }
}

/// Putting values in order leaves their sum as it was.
pub proof fn lemma_arranged_sum<V>(s: Seq<V>, le: spec_fn(V, V) -> bool, f: spec_fn(V) -> int)
    ensures
        sum_of(arranged(s, le), f) == sum_of(s, f),
    decreases s.len(),
{
    if s.len() > 0 {
        lemma_arranged_sum(s.drop_last(), le, f);
        lemma_placed_sum(arranged(s.drop_last(), le), s.last(), le, f);
    }
}

/// Whatever is arranged is still there.
pub proof fn lemma_arranged_keeps<V>(s: Seq<V>, le: spec_fn(V, V) -> bool, x: V)
    requires
        s.contains(x),
    ensures
        arranged(s, le).contains(x),
{
    broadcast use vstd::seq_lib::group_to_multiset_ensures;

    lemma_arranged_multiset(s, le);
    assert(s.to_multiset().count(x) > 0);
    assert(arranged(s, le).to_multiset().count(x) > 0);
}

/// Texts are ordered as in a dictionary: the first character in which they differ decides, and
/// where there is none the shorter stands first.
pub proof fn law_texts_are_ordered_as_in_a_dictionary(
    front: Seq<char>,
    x: char,
    a: Seq<char>,
    y: char,
    b: Seq<char>,
)
    requires
        x != y,
    ensures
        text_le(front + (seq![x] + a), front + (seq![y] + b)) <==> x < y,
        text_le(front, front + a),
        text_le(front + a, front) <==> a.len() == 0,
    decreases front.len(),
{
    let s = front + (seq![x] + a);
    let t = front + (seq![y] + b);
    let longer = front + a;
    if front.len() == 0 {
        assert(s[0] == x && t[0] == y);
        assert(longer =~= a);
        if a.len() == 0 {
            assert(a =~= front);
        }
    } else {
        let rest = front.drop_first();
        law_texts_are_ordered_as_in_a_dictionary(rest, x, a, y, b);
        assert(s.drop_first() =~= rest + (seq![x] + a));
        assert(t.drop_first() =~= rest + (seq![y] + b));
        assert(longer.drop_first() =~= rest + a);
        assert(s[0] == front[0] && t[0] == front[0] && longer[0] == front[0]);
    }
}

} // verus!
