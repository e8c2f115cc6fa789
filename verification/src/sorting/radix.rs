//! Counting-sort passes and the least-significant-digit radix sorts built on them.

use vstd::prelude::*;
use vstd::std_specs::ops::DivSpec;

use super::stable::{
    buckets, class_of, key_is, lemma_buckets_monotone, lemma_buckets_stable, lemma_buckets_total,
    lemma_lsd_step, lemma_rank_step, lemma_segments_are_buckets, lemma_stable_congruent,
    lemma_stable_elems, rank, sorted_by, stable_sorted_by,
};
use crate::extract::ExtractedData;

verus! {

broadcast use vstd::seq_lib::group_seq_properties;

/// The first position of the bucket of key `d`.
pub open spec fn bucket_start<T>(s: Seq<T>, k: spec_fn(T) -> int, d: int) -> int {
    buckets(s, k, d as nat).len() as int
}

/// Facts about the bucket boundaries that the placement loop relies on.
proof fn lemma_bucket_bounds<T>(s: Seq<T>, k: spec_fn(T) -> int, radix: nat)
    requires
        forall|i: int| 0 <= i < s.len() ==> 0 <= k(#[trigger] s[i]) < radix,
    ensures
        bucket_start(s, k, radix as int) == s.len(),
        forall|d: int|
            0 <= d < radix ==> #[trigger] bucket_start(s, k, d + 1) == bucket_start(s, k, d)
                + class_of(s, k, d).len(),
        forall|d: int, e: int|
            0 <= d <= e <= radix ==> #[trigger] bucket_start(s, k, d) <= #[trigger] bucket_start(
                s,
                k,
                e,
            ),
{
    lemma_buckets_total(s, k, radix);
    assert forall|d: int| 0 <= d < radix implies #[trigger] bucket_start(s, k, d + 1)
        == bucket_start(s, k, d) + class_of(s, k, d).len() by {
        assert(buckets(s, k, (d + 1) as nat) == buckets(s, k, d as nat) + class_of(s, k, d));
    }
    assert forall|d: int, e: int| 0 <= d <= e <= radix implies #[trigger] bucket_start(s, k, d)
        <= #[trigger] bucket_start(s, k, e) by {
        lemma_buckets_monotone(s, k, d as nat, e as nat);
    }
}

/// One counting-sort pass: stably reorders `arr` by the precomputed digit
/// `keys[i]` of each row, which lies below `radix`.
fn counting_pass(
    arr: &mut [ExtractedData],
    keys: &Vec<usize>,
    radix: usize,
    Ghost(k): Ghost<spec_fn(ExtractedData) -> int>,
)
    requires
        radix > 0,
        keys@.len() == old(arr)@.len(),
        forall|i: int|
            0 <= i < keys@.len() ==> #[trigger] keys@[i] < radix && keys@[i] == k(old(arr)@[i]),
    ensures
        final(arr)@ == buckets(old(arr)@, k, radix as nat),
        stable_sorted_by(final(arr)@, old(arr)@, k),
{
    let ghost s = arr@;
    let n = arr.len();
    proof {
        assert forall|i: int| 0 <= i < s.len() implies 0 <= k(#[trigger] s[i]) < radix by {
            assert(keys@[i] == k(s[i]));
        }
        lemma_bucket_bounds(s, k, radix as nat);
        lemma_buckets_stable(s, k, radix as nat);
    }
    let mut count: Vec<usize> = Vec::new();
    let mut d: usize = 0;
    while d < radix
        invariant
            d <= radix,
            count@.len() == d,
            forall|e: int| 0 <= e < d ==> #[trigger] count@[e] == 0,
        decreases radix - d,
    {
        count.push(0);
        d = d + 1;
    }
    // Tally how many rows have each digit.
    let mut i: usize = 0;
    while i < n
        invariant
            n == s.len(),
            arr@ == s,
            keys@.len() == n,
            forall|j: int| 0 <= j < n ==> #[trigger] keys@[j] < radix && keys@[j] == k(s[j]),
            count@.len() == radix,
            i <= n,
            forall|e: int| 0 <= e < radix ==> #[trigger] count@[e] == rank(s, key_is(k, e), i as int),
        decreases n - i,
    {
        let dg = keys[i];
        proof {
            assert forall|e: int| 0 <= e < radix implies rank(s, key_is(k, e), i + 1) == rank(
                s,
                key_is(k, e),
                i as int,
            ) + (if e == dg { 1int } else { 0int }) by {
                lemma_rank_step(s, key_is(k, e), i as int);
            }
            s.take(i + 1).lemma_filter_len(key_is(k, dg as int));
        }
        count[dg] = count[dg] + 1;
        i = i + 1;
    }
    proof {
        assert(s.take(n as int) =~= s);
    }
    // Turn the tallies into the end of each bucket.
    let mut j: usize = 1;
    while j < radix
        invariant
            n == s.len(),
            arr@ == s,
            count@.len() == radix,
            1 <= j <= radix,
            bucket_start(s, k, radix as int) == n,
            forall|e: int|
                0 <= e < radix ==> #[trigger] bucket_start(s, k, e + 1) == bucket_start(s, k, e)
                    + class_of(s, k, e).len(),
            forall|d: int, e: int|
                0 <= d <= e <= radix ==> #[trigger] bucket_start(s, k, d) <= #[trigger] bucket_start(
                    s,
                    k,
                    e,
                ),
            forall|e: int| 0 <= e < j ==> #[trigger] count@[e] == bucket_start(s, k, e + 1),
            forall|e: int| j <= e < radix ==> #[trigger] count@[e] == class_of(s, k, e).len(),
        decreases radix - j,
    {
        proof {
            assert(bucket_start(s, k, 0) == 0);
            assert(bucket_start(s, k, j + 1) <= bucket_start(s, k, radix as int));
        }
        count[j] = count[j] + count[j - 1];
        j = j + 1;
    }
    proof {
        if radix == 1 {
            assert(bucket_start(s, k, 0) == 0);
        }
    }
    // Place the rows from the last to the first, each at the end of its bucket.
    let mut output: Vec<ExtractedData> = Vec::new();
    let mut m: usize = 0;
    while m < n
        invariant
            m <= n,
            output@.len() == m,
        decreases n - m,
    {
        output.push(ExtractedData::default());
        m = m + 1;
    }
    let mut i: usize = n;
    while i > 0
        invariant
            n == s.len(),
            arr@ == s,
            keys@.len() == n,
            forall|j: int| 0 <= j < n ==> #[trigger] keys@[j] < radix && keys@[j] == k(s[j]),
            count@.len() == radix,
            output@.len() == n,
            i <= n,
            bucket_start(s, k, radix as int) == n,
            forall|e: int|
                0 <= e < radix ==> #[trigger] bucket_start(s, k, e + 1) == bucket_start(s, k, e)
                    + class_of(s, k, e).len(),
            forall|d: int, e: int|
                0 <= d <= e <= radix ==> #[trigger] bucket_start(s, k, d) <= #[trigger] bucket_start(
                    s,
                    k,
                    e,
                ),
            forall|e: int|
                0 <= e < radix ==> #[trigger] count@[e] == bucket_start(s, k, e) + rank(
                    s,
                    key_is(k, e),
                    i as int,
                ),
            forall|e: int|
                0 <= e < radix ==> bucket_start(s, k, e) <= #[trigger] count@[e] <= bucket_start(
                    s,
                    k,
                    e + 1,
                ),
            forall|e: int|
                0 <= e < radix ==> output@.subrange(
                    #[trigger] count@[e] as int,
                    bucket_start(s, k, e + 1),
                ) == class_of(s.skip(i as int), k, e),
        decreases i,
    {
        let ghost old_out = output@;
        let ghost old_count = count@;
        i = i - 1;
        let dg = keys[i];
        let ghost d0 = dg as int;
        proof {
            assert forall|e: int| 0 <= e < radix implies rank(s, key_is(k, e), i + 1) == rank(
                s,
                key_is(k, e),
                i as int,
            ) + (if e == d0 { 1int } else { 0int }) by {
                lemma_rank_step(s, key_is(k, e), i as int);
            }
            assert forall|e: int| 0 <= e < radix implies rank(s, key_is(k, e), i as int) <= class_of(
                s,
                k,
                e,
            ).len() by {
                s.lemma_filter_take_len(key_is(k, e), i as int);
            }
            assert(s.take(n as int) =~= s);
            assert(bucket_start(s, k, d0 + 1) <= bucket_start(s, k, radix as int));
        }
        count[dg] = count[dg] - 1;
        let c = count[dg];
        output[c] = arr[i].clone();
        proof {
            let x = s[i as int];
            assert(s.skip(i as int) =~= seq![x] + s.skip(i + 1));
            assert forall|e: int| 0 <= e < radix implies output@.subrange(
                #[trigger] count@[e] as int,
                bucket_start(s, k, e + 1),
            ) == class_of(s.skip(i as int), k, e) by {
                s.skip(i + 1).lemma_filter_prepend(x, key_is(k, e));
                if e == d0 {
                    assert(output@.subrange(c as int, bucket_start(s, k, e + 1)) =~= seq![x]
                        + old_out.subrange(c + 1, bucket_start(s, k, e + 1)));
                } else if e < d0 {
                    assert(bucket_start(s, k, e + 1) <= bucket_start(s, k, d0));
                    assert(output@.subrange(count@[e] as int, bucket_start(s, k, e + 1))
                        =~= old_out.subrange(old_count[e] as int, bucket_start(s, k, e + 1)));
                } else {
                    assert(bucket_start(s, k, d0 + 1) <= bucket_start(s, k, e));
                    assert(output@.subrange(count@[e] as int, bucket_start(s, k, e + 1))
                        =~= old_out.subrange(old_count[e] as int, bucket_start(s, k, e + 1)));
                }
            }
        }
    }
    proof {
        assert forall|e: int| 0 <= e < radix implies output@.subrange(
            bucket_start(s, k, e),
            bucket_start(s, k, e + 1),
        ) == #[trigger] class_of(s, k, e) by {
            assert(s.skip(0) =~= s);
            assert(count@[e] == bucket_start(s, k, e));
        }
        lemma_segments_are_buckets(output@, s, k, radix as nat);
        assert(output@ =~= buckets(s, k, radix as nat));
    }
    let ghost b = output@;
    // Move the placed rows back into `arr`.
    let mut j: usize = n;
    while j > 0
        invariant
            j <= n,
            n == s.len(),
            b.len() == n,
            arr@.len() == n,
            output@ == b.take(j as int),
            arr@ == s.take(j as int) + b.skip(j as int),
        decreases j,
    {
        j = j - 1;
        let x = output.pop().unwrap();
        proof {
            assert(x == b[j as int]);
        }
        let ghost before = arr@;
        arr[j] = x;
        proof {
            assert(arr@ == before.update(j as int, b[j as int]));
            assert(before == s.take(j + 1) + b.skip(j + 1));
            assert(arr@ =~= s.take(j as int) + b.skip(j as int));
        }
    }
    proof {
        assert(arr@ =~= b);
    }
}

/// Division under the name `modulo`, for any copyable type with a division.
pub trait Modulo: Sized {
    /// When `modulo` may be called: the division's own precondition.
    spec fn modulo_ok(self, other: Self) -> bool;

    /// `self / other`.
    fn modulo(self, other: Self) -> Self
        requires
            self.modulo_ok(other),
    ;
}

impl<U: Copy + core::ops::Div<Output = U>> Modulo for U {
    open spec fn modulo_ok(self, other: U) -> bool {
        self.div_req(other)
    }

    fn modulo(self, other: U) -> (r: U)
        ensures
            U::obeys_div_spec() ==> r == self.div_spec(other),
    {
        self.div(other)
    }
}

/// The sort key of a row: its `id`.
pub open spec fn id_key() -> spec_fn(ExtractedData) -> int {
    |x: ExtractedData| x.id as int
}

/// The part of the `id` below `m`: `id % m`.
pub open spec fn low_key(m: int) -> spec_fn(ExtractedData) -> int {
    |x: ExtractedData| (x.id as int) % m
}

/// The digit of the `id` at place `exp` in base `radix`: `(id / exp) % radix`.
pub open spec fn digit_key(exp: int, radix: int) -> spec_fn(ExtractedData) -> int {
    |x: ExtractedData| ((x.id as int) / exp) % radix
}

/// The digit that `counting_sort` sorts by, computed on the low 32 bits of the
/// `id`: `((id as u32) / exp) % (radix as u32)`.
pub open spec fn u32_digit_key(exp: u32, radix: usize) -> spec_fn(ExtractedData) -> int {
    |x: ExtractedData| (((x.id as u32) / exp) % (radix as u32)) as int
}

/// Every row of `s` has an `id` of at most `max`.
pub open spec fn ids_at_most(s: Seq<ExtractedData>, max: int) -> bool {
    forall|i: int| 0 <= i < s.len() ==> (#[trigger] s[i]).id <= max
}

/// Stable counting sort by `((id as u32) / exp) % (radix as u32)`.
pub fn counting_sort(arr: &mut [ExtractedData], exp: u32, radix: usize)
    requires
        old(arr)@.len() > 0 ==> exp > 0 && (radix as u32) > 0,
    ensures
        stable_sorted_by(final(arr)@, old(arr)@, u32_digit_key(exp, radix)),
{
    let ghost k = u32_digit_key(exp, radix);
    if arr.len() == 0 {
        return;
    }
    let r32 = radix as u32;
    proof {
        assert((radix as u32) as usize <= radix) by (bit_vector);
    }
    let n = arr.len();
    let mut keys: Vec<usize> = Vec::new();
    let mut i: usize = 0;
    while i < n
        invariant
            n == arr@.len(),
            exp > 0,
            k == u32_digit_key(exp, radix),
            r32 == radix as u32,
            r32 as usize <= radix,
            r32 > 0,
            i <= n,
            keys@.len() == i,
            forall|j: int|
                0 <= j < i ==> #[trigger] keys@[j] < radix && keys@[j] == k(arr@[j]),
        decreases n - i,
    {
        let d = ((arr[i].id as u32) / exp) % r32;
        keys.push(d as usize);
        i = i + 1;
    }
    counting_pass(arr, &keys, radix, Ghost(k));
}

/// Stable counting sort by `(id / exp) % radix`.
pub fn counting_sort_simd(arr: &mut [ExtractedData], exp: u32, radix: usize)
    requires
        old(arr)@.len() > 0 ==> exp > 0 && radix > 0,
    ensures
        stable_sorted_by(final(arr)@, old(arr)@, digit_key(exp as int, radix as int)),
{
    let ghost k = digit_key(exp as int, radix as int);
    if arr.len() == 0 {
        return;
    }
    let n = arr.len();
    let e = exp as usize;
    let mut keys: Vec<usize> = Vec::new();
    let mut i: usize = 0;
    while i < n
        invariant
            n == arr@.len(),
            k == digit_key(exp as int, radix as int),
            e == exp,
            e > 0,
            radix > 0,
            i <= n,
            keys@.len() == i,
            forall|j: int|
                0 <= j < i ==> #[trigger] keys@[j] < radix && keys@[j] == k(arr@[j]),
        decreases n - i,
    {
        let d = (arr[i].id / e) % radix;
        keys.push(d);
        i = i + 1;
    }
    counting_pass(arr, &keys, radix, Ghost(k));
}

/// Stable counting sort by the byte `(id / exp) % 256`.
fn counting_sort_avx(arr: &mut [ExtractedData], exp: u128)
    requires
        exp > 0,
    ensures
        stable_sorted_by(final(arr)@, old(arr)@, digit_key(exp as int, 256)),
{
    let ghost k = digit_key(exp as int, 256);
    let n = arr.len();
    let mut keys: Vec<usize> = Vec::new();
    let mut i: usize = 0;
    while i < n
        invariant
            n == arr@.len(),
            exp > 0,
            k == digit_key(exp as int, 256),
            i <= n,
            keys@.len() == i,
            forall|j: int| 0 <= j < i ==> #[trigger] keys@[j] < 256 && keys@[j] == k(arr@[j]),
        decreases n - i,
    {
        let d = ((arr[i].id as u128) / exp) % 256;
        keys.push(d as usize);
        i = i + 1;
    }
    counting_pass(arr, &keys, 256, Ghost(k));
}

/// The largest `id` in `arr`, or 0 when `arr` is empty.
fn max_id(arr: &[ExtractedData]) -> (m: usize)
    ensures
        ids_at_most(arr@, m as int),
        arr@.len() == 0 ==> m == 0,
        arr@.len() > 0 ==> exists|i: int| 0 <= i < arr@.len() && arr@[i].id == m,
{
    let mut m: usize = 0;
    let mut i: usize = 0;
    while i < arr.len()
        invariant
            i <= arr@.len(),
            ids_at_most(arr@.take(i as int), m as int),
            i == 0 ==> m == 0,
            i > 0 ==> exists|j: int| 0 <= j < i && arr@[j].id == m,
        decreases arr@.len() - i,
    {
        if i == 0 || arr[i].id > m {
            m = arr[i].id;
        }
        proof {
            assert forall|j: int| 0 <= j < i + 1 implies (#[trigger] arr@.take(i + 1)[j]).id <= m by {
                if j < i {
                    assert(arr@.take(i as int)[j] == arr@.take(i + 1)[j]);
                }
            }
        }
        i = i + 1;
    }
    proof {
        assert(arr@.take(i as int) =~= arr@);
    }
    m
}

/// Before any pass, a sequence is its own stable sort by `id % 1`.
proof fn lemma_lsd_start(s: Seq<ExtractedData>)
    ensures
        stable_sorted_by(s, s, low_key(1)),
{
    assert(sorted_by(s, low_key(1)));
}

/// One pass of a least-significant-digit radix sort by the digit at place `exp`.
proof fn lemma_radix_pass(
    orig: Seq<ExtractedData>,
    s: Seq<ExtractedData>,
    t: Seq<ExtractedData>,
    exp: int,
)
    requires
        exp > 0,
        stable_sorted_by(s, orig, low_key(exp)),
        stable_sorted_by(t, s, digit_key(exp, 256)),
    ensures
        stable_sorted_by(t, orig, low_key(exp * 256)),
{
    assert forall|x: ExtractedData|
        0 <= #[trigger] low_key(exp)(x) < exp && 0 <= digit_key(exp, 256)(x) && low_key(exp * 256)(
            x,
        ) == digit_key(exp, 256)(x) * exp + low_key(exp)(x) by {
        let id = x.id as int;
        vstd::arithmetic::div_mod::lemma_breakdown(id, exp, 256);
        vstd::arithmetic::div_mod::lemma_mod_pos_bound(id, exp);
        assert(exp * ((id / exp) % 256) == ((id / exp) % 256) * exp) by (nonlinear_arith);
    }
    lemma_lsd_step(orig, s, t, low_key(exp), digit_key(exp, 256), low_key(exp * 256), exp);
}

/// Once `exp` exceeds every `id`, the stable sort by `id % exp` is the stable sort by `id`.
proof fn lemma_radix_done(t: Seq<ExtractedData>, orig: Seq<ExtractedData>, exp: int)
    requires
        stable_sorted_by(t, orig, low_key(exp)),
        ids_at_most(orig, exp - 1),
    ensures
        stable_sorted_by(t, orig, id_key()),
{
    assert forall|x: ExtractedData| orig.contains(x) implies low_key(exp)(x) == id_key()(x) by {
        let i = choose|i: int| 0 <= i < orig.len() && orig[i] == x;
        assert(orig[i].id <= exp - 1);
        vstd::arithmetic::div_mod::lemma_small_mod(x.id as nat, exp as nat);
    }
    lemma_stable_congruent(t, orig, low_key(exp), id_key());
}

/// Every row of a stable sort keeps the bound on `id` of its input.
proof fn lemma_bound_kept(
    t: Seq<ExtractedData>,
    s: Seq<ExtractedData>,
    k: spec_fn(ExtractedData) -> int,
    max: int,
)
    requires
        stable_sorted_by(t, s, k),
        ids_at_most(s, max),
    ensures
        ids_at_most(t, max),
{
    assert forall|i: int| 0 <= i < t.len() implies (#[trigger] t[i]).id <= max by {
        lemma_stable_elems(t, s, k, i);
    }
}

/// The state of a least-significant-digit radix sort of `orig` before the
/// pass at place value `exp`: every `id` is at most `max`, and `a` is the
/// stable sort of `orig` by the part of the `id` below `exp`.
spec fn lsd_state(a: Seq<ExtractedData>, orig: Seq<ExtractedData>, max: int, exp: int) -> bool {
    &&& 0 < exp <= max * 256 + 1
    &&& ids_at_most(orig, max)
    &&& ids_at_most(a, max)
    &&& stable_sorted_by(a, orig, low_key(exp))
}

/// A place value that still has a digit of `max` lies at most at `max`,
/// and the next one stays within the loop's bound.
proof fn lemma_place_in_range(max: int, exp: int)
    requires
        max >= 0,
        exp > 0,
        max / exp > 0,
    ensures
        exp <= max,
        exp * 256 <= max * 256 + 1,
{
    assert(exp <= max) by (nonlinear_arith)
        requires
            max / exp > 0,
            exp > 0,
    ;
}

/// Once no digit of `max` is left, the radix sort is done.
proof fn lemma_lsd_finished(a: Seq<ExtractedData>, orig: Seq<ExtractedData>, max: int, exp: int)
    requires
        lsd_state(a, orig, max, exp),
        max >= 0,
        max / exp == 0,
    ensures
        stable_sorted_by(a, orig, id_key()),
{
    assert(max < exp) by (nonlinear_arith)
        requires
            max / exp == 0,
            exp > 0,
            max >= 0,
    ;
    lemma_radix_done(a, orig, exp);
}

/// The counting pass that a radix sort uses for each byte of the `id`.
enum Pass {
    /// `counting_sort`, on the low 32 bits of the `id`.
    Low32,
    /// `counting_sort_simd`.
    Digit,
    /// `counting_sort_avx`.
    Byte,
}

/// Least-significant-digit radix sort (base 256) by `id`, one byte pass per
/// place value from 1 until the largest `id` has no digit left.
fn lsd_radix_sort(arr: &mut [ExtractedData], pass: Pass)
    requires
        pass is Byte || ids_at_most(old(arr)@, u32::MAX as int),
    ensures
        stable_sorted_by(final(arr)@, old(arr)@, id_key()),
{
    let ghost orig = arr@;
    let max_val = max_id(arr);
    let mut exp: u128 = 1;
    proof {
        lemma_lsd_start(orig);
        if orig.len() > 0 {
            let i = choose|i: int| 0 <= i < orig.len() && orig[i].id == max_val;
            assert(orig[i].id == max_val);
        }
    }
    while (max_val as u128) / exp > 0
        invariant
            lsd_state(arr@, orig, max_val as int, exp as int),
            !(pass is Byte) ==> max_val <= u32::MAX,
        decreases 256 * (max_val as int + 1) - exp,
    {
        let ghost s = arr@;
        proof {
            lemma_place_in_range(max_val as int, exp as int);
        }
        match pass {
            Pass::Low32 => {
                counting_sort(arr, exp as u32, 256);
                proof {
                    assert forall|x: ExtractedData| s.contains(x) implies u32_digit_key(
                        exp as u32,
                        256,
                    )(x) == digit_key(exp as int, 256)(x) by {
                        let i = choose|i: int| 0 <= i < s.len() && s[i] == x;
                        assert(s[i].id <= max_val);
                    }
                    lemma_stable_congruent(
                        arr@,
                        s,
                        u32_digit_key(exp as u32, 256),
                        digit_key(exp as int, 256),
                    );
                }
            },
            Pass::Digit => {
                counting_sort_simd(arr, exp as u32, 256);
            },
            Pass::Byte => {
                counting_sort_avx(arr, exp);
            },
        }
        proof {
            lemma_radix_pass(orig, s, arr@, exp as int);
            lemma_bound_kept(arr@, s, digit_key(exp as int, 256), max_val as int);
        }
        exp = exp * 256;
    }
    proof {
        lemma_lsd_finished(arr@, orig, max_val as int, exp as int);
    }
}

/// Least-significant-digit radix sort (base 256) of the rows by `id`, with
/// its passes done by `counting_sort`. The result is the rows in
/// nondecreasing order of `id`, rows of equal `id` in the order they had.
pub fn radix_sort(arr: &mut [ExtractedData])
    requires
        old(arr)@.len() > 0,
        ids_at_most(old(arr)@, u32::MAX as int),
    ensures
        stable_sorted_by(final(arr)@, old(arr)@, id_key()),
{
    lsd_radix_sort(arr, Pass::Low32);
}

/// The same least-significant-digit radix sort, with its passes done by
/// `counting_sort_simd`.
pub fn radix_sort_simd(arr: &mut [ExtractedData])
    requires
        ids_at_most(old(arr)@, u32::MAX as int),
    ensures
        stable_sorted_by(final(arr)@, old(arr)@, id_key()),
{
    lsd_radix_sort(arr, Pass::Digit);
}

/// The same least-significant-digit radix sort, with byte passes; its place
/// value is a `u64` that would overflow past 2^56, so every `id` must stay
/// below 2^56.
pub fn radix_sort_avx(arr: &mut [ExtractedData])
    requires
        ids_at_most(old(arr)@, 0x00ff_ffff_ffff_ffff),
    ensures
        stable_sorted_by(final(arr)@, old(arr)@, id_key()),
{
    lsd_radix_sort(arr, Pass::Byte);
}

/// Stable sort of the rows by `id`, for any `id`: byte passes with a place
/// value wide enough for every `id`.
pub fn sort_rows_by_id(arr: &mut [ExtractedData])
    ensures
        stable_sorted_by(final(arr)@, old(arr)@, id_key()),
{
    lsd_radix_sort(arr, Pass::Byte);
}

} // verus!
