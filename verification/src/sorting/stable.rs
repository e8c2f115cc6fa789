//! What it means for one sequence to be a stable sort of another by an
//! integer key, and the facts about filtering that the sorts rest on.

use vstd::prelude::*;

verus! {

broadcast use vstd::seq_lib::group_seq_properties;

/// The predicate "the key of `x` is `v`".
pub open spec fn key_is<T>(k: spec_fn(T) -> int, v: int) -> spec_fn(T) -> bool {
    |x: T| k(x) == v
}

/// The elements of `s` whose key is `v`, in their order in `s`.
pub open spec fn class_of<T>(s: Seq<T>, k: spec_fn(T) -> int, v: int) -> Seq<T> {
    s.filter(key_is(k, v))
}

/// `s` is in nondecreasing order of its keys.
pub open spec fn sorted_by<T>(s: Seq<T>, k: spec_fn(T) -> int) -> bool {
    forall|i: int, j: int| 0 <= i < j < s.len() ==> k(s[i]) <= k(s[j])
}

/// `out` is `inp` sorted by the key `k`, where elements of equal key keep the
/// order they had in `inp`. This determines `out` completely.
pub open spec fn stable_sorted_by<T>(out: Seq<T>, inp: Seq<T>, k: spec_fn(T) -> int) -> bool {
    &&& sorted_by(out, k)
    &&& forall|v: int| #[trigger] class_of(out, k, v) == class_of(inp, k, v)
}

/// The elements of `s` of key 0, then those of key 1, ..., up to key `r - 1`.
pub open spec fn buckets<T>(s: Seq<T>, k: spec_fn(T) -> int, r: nat) -> Seq<T>
    decreases r,
{
    if r == 0 {
        Seq::empty()
    } else {
        buckets(s, k, (r - 1) as nat) + class_of(s, k, r - 1)
    }
}

/// How many elements before position `i` satisfy `p`.
pub open spec fn rank<T>(s: Seq<T>, p: spec_fn(T) -> bool, i: int) -> int {
    s.take(i).filter(p).len() as int
}

/// Filters by predicates that agree on every element are equal.
pub proof fn lemma_filter_congruent<T>(s: Seq<T>, p: spec_fn(T) -> bool, q: spec_fn(T) -> bool)
    requires
        forall|i: int| 0 <= i < s.len() ==> p(#[trigger] s[i]) == q(s[i]),
    ensures
        s.filter(p) == s.filter(q),
    decreases s.len(),
{
    reveal(Seq::filter);
    if s.len() > 0 {
        let d = s.drop_last();
        assert forall|i: int| 0 <= i < d.len() implies p(#[trigger] d[i]) == q(d[i]) by {
            assert(d[i] == s[i]);
        }
        lemma_filter_congruent(d, p, q);
        assert(p(s.last()) == q(s[s.len() - 1]));
    }
}

/// A filter whose predicate holds of every element keeps the whole sequence.
pub proof fn lemma_filter_all<T>(s: Seq<T>, p: spec_fn(T) -> bool)
    requires
        forall|i: int| 0 <= i < s.len() ==> p(#[trigger] s[i]),
    ensures
        s.filter(p) == s,
    decreases s.len(),
{
    reveal(Seq::filter);
    if s.len() > 0 {
        let d = s.drop_last();
        assert forall|i: int| 0 <= i < d.len() implies p(#[trigger] d[i]) by {
            assert(d[i] == s[i]);
        }
        lemma_filter_all(d, p);
        assert(p(s[s.len() - 1]));
        assert(d.push(s.last()) =~= s);
    }
}

/// A filter whose predicate holds of no element keeps nothing.
pub proof fn lemma_filter_none<T>(s: Seq<T>, p: spec_fn(T) -> bool)
    requires
        forall|i: int| 0 <= i < s.len() ==> !p(#[trigger] s[i]),
    ensures
        s.filter(p) == Seq::<T>::empty(),
    decreases s.len(),
{
    reveal(Seq::filter);
    if s.len() > 0 {
        let d = s.drop_last();
        assert forall|i: int| 0 <= i < d.len() implies !p(#[trigger] d[i]) by {
            assert(d[i] == s[i]);
        }
        lemma_filter_none(d, p);
        assert(!p(s[s.len() - 1]));
    }
}

/// Filtering twice is filtering once by both predicates.
pub proof fn lemma_filter_filter<T>(s: Seq<T>, p: spec_fn(T) -> bool, q: spec_fn(T) -> bool)
    ensures
        s.filter(p).filter(q) == s.filter(|x: T| p(x) && q(x)),
    decreases s.len(),
{
    reveal(Seq::filter);
    let pq = |x: T| p(x) && q(x);
    if s.len() > 0 {
        let d = s.drop_last();
        lemma_filter_filter(d, p, q);
        if p(s.last()) {
            d.filter(p).lemma_filter_push(s.last(), q);
        }
    }
}

/// Every element of a filter is an element of the sequence and satisfies the predicate.
pub proof fn lemma_filter_elem<T>(s: Seq<T>, p: spec_fn(T) -> bool, j: int)
    requires
        0 <= j < s.filter(p).len(),
    ensures
        s.contains(s.filter(p)[j]),
        p(s.filter(p)[j]),
{
    s.lemma_filter_pred(p, j);
    assert(s.filter(p).contains(s.filter(p)[j]));
    s.lemma_filter_contains_rev(p, s.filter(p)[j]);
}

/// The rank grows by one exactly at the elements that satisfy the predicate.
pub proof fn lemma_rank_step<T>(s: Seq<T>, p: spec_fn(T) -> bool, i: int)
    requires
        0 <= i < s.len(),
    ensures
        rank(s, p, i + 1) == rank(s, p, i) + (if p(s[i]) { 1int } else { 0int }),
{
    assert(s.take(i + 1) =~= s.take(i).push(s[i]));
    s.take(i).lemma_filter_push(s[i], p);
}

/// The rank never decreases.
pub proof fn lemma_rank_monotone<T>(s: Seq<T>, p: spec_fn(T) -> bool, i: int, j: int)
    requires
        0 <= i <= j <= s.len(),
    ensures
        rank(s, p, i) <= rank(s, p, j),
    decreases j - i,
{
    if i < j {
        lemma_rank_monotone(s, p, i, j - 1);
        lemma_rank_step(s, p, j - 1);
    }
}

/// An element that satisfies the predicate stands in the filter at its rank.
pub proof fn lemma_rank_index<T>(s: Seq<T>, p: spec_fn(T) -> bool, i: int)
    requires
        0 <= i < s.len(),
        p(s[i]),
    ensures
        0 <= rank(s, p, i) < s.filter(p).len(),
        s.filter(p)[rank(s, p, i)] == s[i],
{
    let a = s.take(i + 1);
    let b = s.skip(i + 1);
    assert(s =~= a + b);
    Seq::filter_distributes_over_add(a, b, p);
    assert(a =~= s.take(i).push(s[i]));
    s.take(i).lemma_filter_push(s[i], p);
}

/// Every position of the filter holds an element of the sequence at that rank.
pub proof fn lemma_rank_onto<T>(s: Seq<T>, p: spec_fn(T) -> bool, j: int)
    requires
        0 <= j < s.filter(p).len(),
    ensures
        exists|i: int| 0 <= i < s.len() && p(s[i]) && rank(s, p, i) == j && s.filter(p)[j] == s[i],
    decreases s.len(),
{
    reveal(Seq::filter);
    let n = s.len();
    let d = s.drop_last();
    if j < d.filter(p).len() {
        lemma_rank_onto(d, p, j);
        let i = choose|i: int| 0 <= i < d.len() && p(d[i]) && rank(d, p, i) == j && d.filter(p)[j] == d[i];
        assert(s.take(i) =~= d.take(i));
        assert(s[i] == d[i]);
        assert(s.filter(p)[j] == d.filter(p)[j]);
    } else {
        assert(p(s.last()));
        assert(s.take(n - 1) =~= d);
        assert(rank(s, p, n - 1) == j);
    }
}

/// Positions of elements that satisfy the predicate keep their order in the filter.
pub proof fn lemma_rank_order<T>(s: Seq<T>, p: spec_fn(T) -> bool, i: int, j: int)
    requires
        0 <= i < j < s.len(),
        p(s[i]),
    ensures
        rank(s, p, i) < rank(s, p, j),
{
    lemma_rank_step(s, p, i);
    lemma_rank_monotone(s, p, i + 1, j);
}

/// A filter of a sorted sequence is sorted.
pub proof fn lemma_filter_sorted<T>(s: Seq<T>, p: spec_fn(T) -> bool, k: spec_fn(T) -> int)
    requires
        sorted_by(s, k),
    ensures
        sorted_by(s.filter(p), k),
{
    let f = s.filter(p);
    assert forall|a: int, b: int| 0 <= a < b < f.len() implies k(f[a]) <= k(f[b]) by {
        lemma_rank_onto(s, p, a);
        lemma_rank_onto(s, p, b);
        let i = choose|i: int| 0 <= i < s.len() && p(s[i]) && rank(s, p, i) == a && f[a] == s[i];
        let j = choose|j: int| 0 <= j < s.len() && p(s[j]) && rank(s, p, j) == b && f[b] == s[j];
        if j < i {
            lemma_rank_order(s, p, j, i);
        } else if i == j {
        }
        assert(i < j);
    }
}

/// The number of elements of `s` whose key lies below `r`.
pub open spec fn below<T>(s: Seq<T>, k: spec_fn(T) -> int, r: int) -> Seq<T> {
    s.filter(|x: T| k(x) < r)
}

/// Splitting "key below `r + 1`" into "key below `r`" and "key is `r`".
pub proof fn lemma_below_step<T>(s: Seq<T>, k: spec_fn(T) -> int, r: int)
    ensures
        below(s, k, r + 1).len() == below(s, k, r).len() + class_of(s, k, r).len(),
    decreases s.len(),
{
    reveal(Seq::filter);
    if s.len() > 0 {
        lemma_below_step(s.drop_last(), k, r);
    }
}

/// The buckets hold as many elements as have a key in `[0, r)`.
pub proof fn lemma_buckets_len<T>(s: Seq<T>, k: spec_fn(T) -> int, r: nat)
    requires
        forall|i: int| 0 <= i < s.len() ==> 0 <= k(#[trigger] s[i]),
    ensures
        buckets(s, k, r).len() == below(s, k, r as int).len(),
    decreases r,
{
    if r == 0 {
        lemma_filter_none(s, |x: T| k(x) < 0);
    } else {
        lemma_buckets_len(s, k, (r - 1) as nat);
        lemma_below_step(s, k, r - 1);
    }
}

/// Once every key lies in `[0, r)`, the buckets hold every element.
pub proof fn lemma_buckets_total<T>(s: Seq<T>, k: spec_fn(T) -> int, r: nat)
    requires
        forall|i: int| 0 <= i < s.len() ==> 0 <= k(#[trigger] s[i]) < r,
    ensures
        buckets(s, k, r).len() == s.len(),
{
    lemma_buckets_len(s, k, r);
    lemma_filter_all(s, |x: T| k(x) < r as int);
}

/// The buckets grow with `r`.
pub proof fn lemma_buckets_monotone<T>(s: Seq<T>, k: spec_fn(T) -> int, a: nat, b: nat)
    requires
        a <= b,
    ensures
        buckets(s, k, a).len() <= buckets(s, k, b).len(),
        buckets(s, k, b).take(buckets(s, k, a).len() as int) == buckets(s, k, a),
    decreases b - a,
{
    if a < b {
        lemma_buckets_monotone(s, k, a, (b - 1) as nat);
        let p = buckets(s, k, (b - 1) as nat);
        let q = class_of(s, k, b - 1);
        assert((p + q).take(buckets(s, k, a).len() as int) =~= p.take(
            buckets(s, k, a).len() as int,
        ));
    } else {
        assert(buckets(s, k, b).take(buckets(s, k, a).len() as int) =~= buckets(s, k, a));
    }
}

/// A sequence whose consecutive segments are the classes of `s` starts with the buckets.
pub proof fn lemma_segments_are_buckets<T>(
    out: Seq<T>,
    s: Seq<T>,
    k: spec_fn(T) -> int,
    r: nat,
)
    requires
        buckets(s, k, r).len() <= out.len(),
        forall|d: int|
            0 <= d < r ==> out.subrange(
                buckets(s, k, d as nat).len() as int,
                buckets(s, k, (d + 1) as nat).len() as int,
            ) == #[trigger] class_of(s, k, d),
    ensures
        out.take(buckets(s, k, r).len() as int) == buckets(s, k, r),
    decreases r,
{
    if r > 0 {
        let r1 = (r - 1) as nat;
        lemma_buckets_monotone(s, k, r1, r);
        lemma_segments_are_buckets(out, s, k, r1);
        let lo = buckets(s, k, r1).len() as int;
        let hi = buckets(s, k, r).len() as int;
        assert(out.subrange(lo, hi) == class_of(s, k, r1 as int));
        assert(out.take(hi) =~= out.take(lo) + out.subrange(lo, hi));
    }
}

/// The buckets are sorted by key, and their keys lie in `[0, r)`.
pub proof fn lemma_buckets_sorted<T>(s: Seq<T>, k: spec_fn(T) -> int, r: nat)
    ensures
        sorted_by(buckets(s, k, r), k),
        forall|i: int|
            0 <= i < buckets(s, k, r).len() ==> 0 <= k(#[trigger] buckets(s, k, r)[i]) < r,
    decreases r,
{
    if r > 0 {
        let r1 = (r - 1) as nat;
        lemma_buckets_sorted(s, k, r1);
        let a = buckets(s, k, r1);
        let c = class_of(s, k, r1 as int);
        let t = buckets(s, k, r);
        assert(t == a + c);
        assert forall|j: int| 0 <= j < c.len() implies k(#[trigger] c[j]) == r1 by {
            s.lemma_filter_pred(key_is(k, r1 as int), j);
        }
        assert forall|i: int| 0 <= i < t.len() implies 0 <= k(#[trigger] t[i]) < r by {
            if i >= a.len() {
                assert(t[i] == c[i - a.len()]);
            } else {
                assert(t[i] == a[i]);
            }
        }
        assert forall|i: int, j: int| 0 <= i < j < t.len() implies k(t[i]) <= k(t[j]) by {
            if j < a.len() {
                assert(t[i] == a[i] && t[j] == a[j]);
            } else if i >= a.len() {
                assert(t[i] == c[i - a.len()] && t[j] == c[j - a.len()]);
            } else {
                assert(t[i] == a[i] && t[j] == c[j - a.len()]);
            }
        }
    }
}

/// The class of key `v` among the buckets is the class of `v` in `s`, when `v < r`.
pub proof fn lemma_buckets_class<T>(s: Seq<T>, k: spec_fn(T) -> int, r: nat, v: int)
    ensures
        class_of(buckets(s, k, r), k, v) == (if 0 <= v < r {
            class_of(s, k, v)
        } else {
            Seq::<T>::empty()
        }),
    decreases r,
{
    if r == 0 {
        reveal(Seq::filter);
    } else {
        let r1 = (r - 1) as nat;
        lemma_buckets_class(s, k, r1, v);
        let a = buckets(s, k, r1);
        let c = class_of(s, k, r1 as int);
        Seq::filter_distributes_over_add(a, c, key_is(k, v));
        lemma_filter_filter(s, key_is(k, r1 as int), key_is(k, v));
        let both = |x: T| key_is(k, r1 as int)(x) && key_is(k, v)(x);
        if v == r1 {
            lemma_filter_congruent(s, both, key_is(k, v));
            assert(c.filter(key_is(k, v)) == c);
            assert(class_of(a, k, v) + c.filter(key_is(k, v)) =~= c);
        } else {
            lemma_filter_none(s, both);
            assert(class_of(a, k, v) + c.filter(key_is(k, v)) =~= class_of(a, k, v));
        }
    }
}

/// When every key of `s` lies in `[0, r)`, the buckets are the stable sort of `s`.
pub proof fn lemma_buckets_stable<T>(s: Seq<T>, k: spec_fn(T) -> int, r: nat)
    requires
        forall|i: int| 0 <= i < s.len() ==> 0 <= k(#[trigger] s[i]) < r,
    ensures
        stable_sorted_by(buckets(s, k, r), s, k),
{
    lemma_buckets_sorted(s, k, r);
    assert forall|v: int| #[trigger] class_of(buckets(s, k, r), k, v) == class_of(s, k, v) by {
        lemma_buckets_class(s, k, r, v);
        if !(0 <= v < r) {
            lemma_filter_none(s, key_is(k, v));
        }
    }
}

/// Every element of a stable sort comes from the input.
pub proof fn lemma_stable_elems<T>(out: Seq<T>, inp: Seq<T>, k: spec_fn(T) -> int, i: int)
    requires
        stable_sorted_by(out, inp, k),
        0 <= i < out.len(),
    ensures
        inp.contains(out[i]),
{
    let p = key_is(k, k(out[i]));
    lemma_rank_index(out, p, i);
    assert(class_of(out, k, k(out[i])) == class_of(inp, k, k(out[i])));
    lemma_filter_elem(inp, p, rank(out, p, i));
}

/// A stable sort by one key is a stable sort by any key that agrees with it on the input.
pub proof fn lemma_stable_congruent<T>(
    out: Seq<T>,
    inp: Seq<T>,
    k1: spec_fn(T) -> int,
    k2: spec_fn(T) -> int,
)
    requires
        stable_sorted_by(out, inp, k1),
        forall|x: T| inp.contains(x) ==> k1(x) == k2(x),
    ensures
        stable_sorted_by(out, inp, k2),
{
    assert forall|i: int| 0 <= i < out.len() implies k1(#[trigger] out[i]) == k2(out[i]) by {
        lemma_stable_elems(out, inp, k1, i);
    }
    assert forall|i: int, j: int| 0 <= i < j < out.len() implies k2(out[i]) <= k2(out[j]) by {
        assert(k1(out[i]) == k2(out[i]));
        assert(k1(out[j]) == k2(out[j]));
    }
    assert forall|v: int| #[trigger] class_of(out, k2, v) == class_of(inp, k2, v) by {
        assert forall|i: int| 0 <= i < out.len() implies key_is(k1, v)(#[trigger] out[i])
            == key_is(k2, v)(out[i]) by {
            assert(k1(out[i]) == k2(out[i]));
        }
        assert forall|i: int| 0 <= i < inp.len() implies key_is(k1, v)(#[trigger] inp[i])
            == key_is(k2, v)(inp[i]) by {
            assert(inp.contains(inp[i]));
        }
        lemma_filter_congruent(out, key_is(k1, v), key_is(k2, v));
        lemma_filter_congruent(inp, key_is(k1, v), key_is(k2, v));
        assert(class_of(out, k1, v) == class_of(inp, k1, v));
    }
}

/// A key that combines a high digit `g` and a low part `f` as `g * e + f` is
/// `v` exactly when the digit is `v / e` and the low part is `v % e`.
pub proof fn lemma_combined_key(hx: int, gx: int, fx: int, e: int, v: int)
    requires
        e > 0,
        0 <= fx < e,
        hx == gx * e + fx,
    ensures
        (hx == v) == (gx == v / e && fx == v % e),
{
    if hx == v {
        vstd::arithmetic::div_mod::lemma_fundamental_div_mod_converse(v, e, gx, fx);
    }
    if gx == v / e && fx == v % e {
        vstd::arithmetic::div_mod::lemma_fundamental_div_mod(v, e);
        assert(gx * e == e * (v / e)) by (nonlinear_arith)
            requires
                gx == v / e,
        ;
    }
}

/// One step of a least-significant-digit radix sort: stably sorting, by a
/// higher digit `g`, a sequence that is already a stable sort of `orig` by the
/// lower part `f` gives the stable sort of `orig` by the combined key `g * e + f`.
pub proof fn lemma_lsd_step<T>(
    orig: Seq<T>,
    s: Seq<T>,
    t: Seq<T>,
    f: spec_fn(T) -> int,
    g: spec_fn(T) -> int,
    h: spec_fn(T) -> int,
    e: int,
)
    requires
        e > 0,
        stable_sorted_by(s, orig, f),
        stable_sorted_by(t, s, g),
        forall|x: T| 0 <= #[trigger] f(x) < e && 0 <= g(x) && h(x) == g(x) * e + f(x),
    ensures
        stable_sorted_by(t, orig, h),
{
    assert forall|i: int, j: int| 0 <= i < j < t.len() implies h(t[i]) <= h(t[j]) by {
        let (x, y) = (t[i], t[j]);
        assert(0 <= f(x) < e && 0 <= f(y) < e);
        if g(x) < g(y) {
            assert(g(x) * e + f(x) <= g(y) * e + f(y)) by (nonlinear_arith)
                requires
                    g(x) < g(y),
                    0 <= f(x) < e,
                    0 <= f(y),
            ;
        } else {
            let p = key_is(g, g(x));
            lemma_rank_order(t, p, i, j);
            lemma_rank_index(t, p, i);
            lemma_rank_index(t, p, j);
            assert(class_of(t, g, g(x)) == class_of(s, g, g(x)));
            lemma_filter_sorted(s, p, f);
        }
    }
    assert forall|v: int| #[trigger] class_of(t, h, v) == class_of(orig, h, v) by {
        let kg = key_is(g, v / e);
        let kf = key_is(f, v % e);
        let gf = |x: T| kg(x) && kf(x);
        let fg = |x: T| kf(x) && kg(x);
        assert forall|x: T| #[trigger] key_is(h, v)(x) == gf(x) by {
            lemma_combined_key(h(x), g(x), f(x), e, v);
        }
        assert forall|x: T| #[trigger] gf(x) == fg(x) by {}
        assert(key_is(h, v) =~= gf);
        assert(gf =~= fg);
        lemma_filter_filter(t, kg, kf);
        lemma_filter_filter(s, kg, kf);
        lemma_filter_filter(s, kf, kg);
        lemma_filter_filter(orig, kf, kg);
        assert(class_of(t, g, v / e) == class_of(s, g, v / e));
        assert(class_of(s, f, v % e) == class_of(orig, f, v % e));
    }
}

/// Removing the last element removes it from its class and from no other.
proof fn lemma_class_drop_last<T>(s: Seq<T>, k: spec_fn(T) -> int, v: int)
    requires
        s.len() > 0,
    ensures
        class_of(s, k, v) == (if k(s.last()) == v {
            class_of(s.drop_last(), k, v).push(s.last())
        } else {
            class_of(s.drop_last(), k, v)
        }),
{
    assert(s =~= s.drop_last().push(s.last()));
    s.drop_last().lemma_filter_push(s.last(), key_is(k, v));
}

/// A sequence that is not empty has a nonempty class: that of its first element.
proof fn lemma_class_nonempty<T>(s: Seq<T>, k: spec_fn(T) -> int)
    requires
        s.len() > 0,
    ensures
        class_of(s, k, k(s[0])).len() > 0,
{
    lemma_rank_index(s, key_is(k, k(s[0])), 0);
}

/// Two sequences sorted by a key, with the same elements in each class, are equal.
proof fn lemma_sorted_same_classes<T>(a: Seq<T>, b: Seq<T>, k: spec_fn(T) -> int)
    requires
        sorted_by(a, k),
        sorted_by(b, k),
        forall|v: int| #[trigger] class_of(a, k, v) == class_of(b, k, v),
    ensures
        a == b,
    decreases a.len(),
{
    reveal(Seq::filter);
    if a.len() == 0 || b.len() == 0 {
        if a.len() > 0 {
            lemma_class_nonempty(a, k);
            assert(class_of(b, k, k(a[0])) == class_of(a, k, k(a[0])));
        } else if b.len() > 0 {
            lemma_class_nonempty(b, k);
            assert(class_of(a, k, k(b[0])) == class_of(b, k, k(b[0])));
        }
        assert(a =~= b);
    } else {
        let (x, y) = (a.last(), b.last());
        let m = k(x);
        let n = k(y);
        lemma_class_drop_last(a, k, m);
        lemma_class_drop_last(b, k, n);
        // Each side holds an element of the other's largest key, so both largest keys agree.
        let ca = class_of(a, k, n);
        let cb = class_of(b, k, m);
        assert(class_of(a, k, m) == cb);
        assert(class_of(b, k, n) == ca);
        lemma_rank_onto(b, key_is(k, m), cb.len() - 1);
        lemma_rank_onto(a, key_is(k, n), ca.len() - 1);
        let ib = choose|i: int|
            0 <= i < b.len() && key_is(k, m)(b[i]) && rank(b, key_is(k, m), i) == cb.len() - 1
                && cb[cb.len() - 1] == b[i];
        let ia = choose|i: int|
            0 <= i < a.len() && key_is(k, n)(a[i]) && rank(a, key_is(k, n), i) == ca.len() - 1
                && ca[ca.len() - 1] == a[i];
        if ib < b.len() - 1 {
            assert(k(b[ib]) <= k(b[b.len() - 1]));
        }
        if ia < a.len() - 1 {
            assert(k(a[ia]) <= k(a[a.len() - 1]));
        }
        assert(m == n);
        assert(x == y);
        let a1 = a.drop_last();
        let b1 = b.drop_last();
        assert forall|v: int| #[trigger] class_of(a1, k, v) == class_of(b1, k, v) by {
            lemma_class_drop_last(a, k, v);
            lemma_class_drop_last(b, k, v);
            assert(class_of(a, k, v) == class_of(b, k, v));
            if v == m {
                assert(class_of(a1, k, v) =~= class_of(a, k, v).drop_last());
                assert(class_of(b1, k, v) =~= class_of(b, k, v).drop_last());
            }
        }
        lemma_sorted_same_classes(a1, b1, k);
        assert(a =~= a1.push(x));
        assert(b =~= b1.push(y));
    }
}

/// A stable sort by a key is unique: any two stable sorts of the same input
/// by the same key are the same sequence. So every sort in this library that
/// meets `stable_sorted_by` for the `id` orders the rows in exactly the same way.
pub proof fn lemma_stable_sort_unique<T>(a: Seq<T>, b: Seq<T>, inp: Seq<T>, k: spec_fn(T) -> int)
    requires
        stable_sorted_by(a, inp, k),
        stable_sorted_by(b, inp, k),
    ensures
        a == b,
{
    assert forall|v: int| #[trigger] class_of(a, k, v) == class_of(b, k, v) by {
        assert(class_of(a, k, v) == class_of(inp, k, v));
        assert(class_of(b, k, v) == class_of(inp, k, v));
    }
    lemma_sorted_same_classes(a, b, k);
}

/// Sorting what is already sorted changes nothing: a stable sort of a
/// sequence that is in order by the key is that sequence itself.
pub proof fn lemma_sort_of_sorted_is_identity<T>(out: Seq<T>, s: Seq<T>, k: spec_fn(T) -> int)
    requires
        sorted_by(s, k),
        stable_sorted_by(out, s, k),
    ensures
        out == s,
{
    lemma_stable_sort_unique(out, s, s, k);
}

/// One more than the largest key of `s`, and never below 0.
spec fn key_bound<T>(s: Seq<T>, k: spec_fn(T) -> int) -> nat
    decreases s.len(),
{
    if s.len() == 0 {
        0
    } else {
        let b = key_bound(s.drop_last(), k);
        if k(s.last()) + 1 > b {
            (k(s.last()) + 1) as nat
        } else {
            b
        }
    }
}

/// Every key of `s` lies below `key_bound`.
proof fn lemma_key_bound<T>(s: Seq<T>, k: spec_fn(T) -> int)
    ensures
        forall|i: int| 0 <= i < s.len() ==> k(#[trigger] s[i]) < key_bound(s, k),
    decreases s.len(),
{
    if s.len() > 0 {
        let d = s.drop_last();
        lemma_key_bound(d, k);
        assert forall|i: int| 0 <= i < s.len() implies k(#[trigger] s[i]) < key_bound(s, k) by {
            if i < s.len() - 1 {
                assert(s[i] == d[i]);
            }
        }
    }
}

/// A stable sort by a key that is never negative neither drops nor adds
/// elements: it is as long as its input.
pub proof fn lemma_stable_sort_len<T>(out: Seq<T>, inp: Seq<T>, k: spec_fn(T) -> int)
    requires
        stable_sorted_by(out, inp, k),
        forall|i: int| 0 <= i < inp.len() ==> 0 <= k(#[trigger] inp[i]),
    ensures
        out.len() == inp.len(),
{
    let r = key_bound(inp, k);
    lemma_key_bound(inp, k);
    lemma_buckets_stable(inp, k, r);
    lemma_stable_sort_unique(out, buckets(inp, k, r), inp, k);
    lemma_buckets_total(inp, k, r);
}

} // verus!
