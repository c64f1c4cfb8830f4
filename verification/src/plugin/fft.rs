//! The radix-2 transform of a block of samples: the block is extended with
//! zeros up to the next power of two, then run through the butterflies of a
//! recursive decimation in time.

use vstd::arithmetic::power::lemma_pow0;
use vstd::arithmetic::div_mod::{lemma_fundamental_div_mod_converse_mod, lemma_mod_mod};
use vstd::arithmetic::power2::{
    lemma_pow2, lemma_pow2_adds, lemma_pow2_pos, lemma_pow2_strictly_increases, lemma_pow2_unfold,
    pow2,
};
use vstd::prelude::*;

verus! {

/// Whether `n` is a power of two.
pub open spec fn is_power_of_two(n: int) -> bool {
    exists|k: nat| pow2(k) == n
}

/// Whether `p` is the smallest power of two that is at least `n` (for `n`
/// of zero or one that is one).
pub open spec fn is_next_power_of_two(p: int, n: int) -> bool {
    &&& is_power_of_two(p)
    &&& p >= n
    &&& (p == 1 || p / 2 < n)
}

/// The smallest power of two that is at least `n`, as
/// `usize::next_power_of_two` computes it. That function overflows past the
/// largest power of two a `usize` holds, which `requires` leaves out.
pub fn next_power_of_two(n: usize) -> (p: usize)
    requires
        n <= usize::MAX / 2 + 1,
    ensures
        is_next_power_of_two(p as int, n as int),
{
    let mut p: usize = 1;
    let ghost mut k: nat = 0;
    proof {
        lemma_pow2(0);
        lemma_pow0(2);
    }
    while p < n
        invariant
            n <= usize::MAX / 2 + 1,
            p == pow2(k),
            p >= 1,
            p == 1 || p / 2 < n,
        decreases usize::MAX - p,
    {
        proof {
            lemma_pow2_unfold(k + 1);
        }
        p = p * 2;
        proof {
            k = k + 1;
        }
    }
    p
}

/// `input` followed by as many copies of `zero` as it takes to reach the
/// smallest power of two that is at least its length (one, for an empty
/// input).
pub fn pad_to_power_of_two<T: Copy>(input: &Vec<T>, zero: T) -> (padded: Vec<T>)
    requires
        input.len() <= usize::MAX / 2 + 1,
    ensures
        is_next_power_of_two(padded.len() as int, input.len() as int),
        padded@ == input@ + Seq::new((padded.len() - input.len()) as nat, |_i: int| zero),
{
    let n_orig = input.len();
    let n = next_power_of_two(n_orig);
    let mut padded: Vec<T> = Vec::new();
    let mut i: usize = 0;
    while i < n
        invariant
            n_orig == input.len(),
            n >= n_orig,
            i <= n,
            padded@.len() == i,
            forall|j: int| 0 <= j < i && j < n_orig ==> padded@[j] == input@[j],
            forall|j: int| n_orig <= j < i ==> padded@[j] == zero,
        decreases n - i,
    {
        if i < n_orig {
            padded.push(input[i]);
        } else {
            padded.push(zero);
        }
        i = i + 1;
    }
    assert(padded@ =~= input@ + Seq::new((n - n_orig) as nat, |_i: int| zero));
    padded
}

/// The next power of two is unique: two values that both qualify for the
/// same `n` are equal.
pub proof fn lemma_next_power_of_two_unique(p: int, q: int, n: int)
    requires
        is_next_power_of_two(p, n),
        is_next_power_of_two(q, n),
    ensures
        p == q,
{
    let a = choose|k: nat| pow2(k) == p;
    let b = choose|k: nat| pow2(k) == q;
    if a < b {
        lemma_pow2_unfold(b);
        if a < (b - 1) as nat {
            lemma_pow2_strictly_increases(a, (b - 1) as nat);
        }
        lemma_pow2_strictly_increases(a, b);
    } else if b < a {
        lemma_pow2_unfold(a);
        if b < (a - 1) as nat {
            lemma_pow2_strictly_increases(b, (a - 1) as nat);
        }
        lemma_pow2_strictly_increases(b, a);
    }
}

/// A length that is already a power of two is its own next power of two, so
/// padding leaves such a block as it is.
pub proof fn lemma_power_of_two_is_fixed(n: int, p: int)
    requires
        is_power_of_two(n),
        is_next_power_of_two(p, n),
    ensures
        p == n,
{
    let k = choose|k: nat| pow2(k) == n;
    lemma_pow2_pos(k);
    lemma_next_power_of_two_unique(p, n, n);
}

/// The arithmetic the transform needs of its values. `twiddle(index, n)` is
/// the factor `exp(-i * pi * index / n)` by which the odd half is turned
/// before it is added to and taken from the even half.
pub trait Butterfly: Sized + Copy {
    /// The value the input is padded with.
    const ZERO: Self;

    /// The rotation `exp(-i * pi * index / n)`.
    fn twiddle(index: usize, n: usize) -> Self;

    /// The product of `self` and `other`.
    fn times(self, other: Self) -> Self;

    /// The sum of `self` and `other`.
    fn plus(self, other: Self) -> Self;

    /// The difference of `self` and `other`.
    fn minus(self, other: Self) -> Self;
}

/// The entries of `x` at `start`, `start + stride`, `start + 2 * stride`,
/// ..., `count` of them.
pub open spec fn strided<T>(x: Seq<T>, start: int, stride: int, count: nat) -> Seq<T> {
    Seq::new(count, |k: int| x[start + k * stride])
}

/// `x` followed by copies of `Butterfly::ZERO` up to length `n`.
pub open spec fn zero_padded<C: Butterfly>(x: Seq<C>, n: int) -> Seq<C> {
    x + Seq::new((n - x.len()) as nat, |_i: int| C::ZERO)
}

/// Whether `out` is what the butterflies make of the transformed halves
/// `even` and `odd` at the level of stride `step` in a transform of length
/// `n`: for each `k`, `twiddles[k]` is a result of `twiddle(2 * k * step, n)`,
/// `turned[k]` one of `twiddles[k].times(odd[k])`, and `out[k]` and
/// `out[k + half]` are results of `even[k].plus(turned[k])` and
/// `even[k].minus(turned[k])`.
pub open spec fn is_butterfly_stage<C: Butterfly>(
    even: Seq<C>,
    odd: Seq<C>,
    twiddles: Seq<C>,
    turned: Seq<C>,
    out: Seq<C>,
    n: int,
    step: int,
) -> bool {
    let half = even.len();
    &&& odd.len() == half
    &&& twiddles.len() == half
    &&& turned.len() == half
    &&& out.len() == 2 * half
    &&& forall|k: int|
        #![trigger twiddles[k]]
        0 <= k < half ==> {
            &&& call_ensures(C::twiddle, ((2 * k * step) as usize, n as usize), twiddles[k])
            &&& call_ensures(C::times, (twiddles[k], odd[k]), turned[k])
            &&& call_ensures(C::plus, (even[k], turned[k]), out[k])
            &&& call_ensures(C::minus, (even[k], turned[k]), out[k + half])
        }
}

/// Whether `out` is a radix-2 decimation-in-time transform of `x`, taken at
/// the level of stride `step` in a transform of length `n`, with the
/// arithmetic of `C`: a block of at most one value is its own transform;
/// a longer one is the butterfly stage over the transforms of its even and
/// its odd entries (at twice the stride).
pub open spec fn is_transform<C: Butterfly>(x: Seq<C>, out: Seq<C>, n: int, step: int) -> bool
    decreases x.len(),
{
    if x.len() <= 1 {
        out == x
    } else {
        let half = (x.len() / 2) as nat;
        exists|even: Seq<C>, odd: Seq<C>, twiddles: Seq<C>, turned: Seq<C>|
            #![trigger is_butterfly_stage(even, odd, twiddles, turned, out, n, step)]
            is_transform(strided(x, 0, 2, half), even, n, 2 * step) && is_transform(
                strided(x, 1, 2, half),
                odd,
                n,
                2 * step,
            ) && is_butterfly_stage(even, odd, twiddles, turned, out, n, step)
    }
}

/// Whether each operation of `C` gives a single result for given arguments
/// (as arithmetic that only computes does).
pub open spec fn has_deterministic_arithmetic<C: Butterfly>() -> bool {
    &&& forall|i: usize, n: usize, r1: C, r2: C|
        #![trigger call_ensures(C::twiddle, (i, n), r1), call_ensures(C::twiddle, (i, n), r2)]
        call_ensures(C::twiddle, (i, n), r1) && call_ensures(C::twiddle, (i, n), r2) ==> r1 == r2
    &&& forall|x: C, y: C, r1: C, r2: C|
        #![trigger call_ensures(C::times, (x, y), r1), call_ensures(C::times, (x, y), r2)]
        call_ensures(C::times, (x, y), r1) && call_ensures(C::times, (x, y), r2) ==> r1 == r2
    &&& forall|x: C, y: C, r1: C, r2: C|
        #![trigger call_ensures(C::plus, (x, y), r1), call_ensures(C::plus, (x, y), r2)]
        call_ensures(C::plus, (x, y), r1) && call_ensures(C::plus, (x, y), r2) ==> r1 == r2
    &&& forall|x: C, y: C, r1: C, r2: C|
        #![trigger call_ensures(C::minus, (x, y), r1), call_ensures(C::minus, (x, y), r2)]
        call_ensures(C::minus, (x, y), r1) && call_ensures(C::minus, (x, y), r2) ==> r1 == r2
}

/// With deterministic arithmetic, a block has a single transform.
pub proof fn lemma_transform_is_unique<C: Butterfly>(
    x: Seq<C>,
    out1: Seq<C>,
    out2: Seq<C>,
    n: int,
    step: int,
)
    requires
        has_deterministic_arithmetic::<C>(),
        is_transform(x, out1, n, step),
        is_transform(x, out2, n, step),
    ensures
        out1 == out2,
    decreases x.len(),
{
    if x.len() > 1 {
        let half = (x.len() / 2) as nat;
        let (e1, o1, w1, t1) = choose|e: Seq<C>, o: Seq<C>, w: Seq<C>, t: Seq<C>|
            is_transform(strided(x, 0, 2, half), e, n, 2 * step) && is_transform(
                strided(x, 1, 2, half),
                o,
                n,
                2 * step,
            ) && is_butterfly_stage(e, o, w, t, out1, n, step);
        let (e2, o2, w2, t2) = choose|e: Seq<C>, o: Seq<C>, w: Seq<C>, t: Seq<C>|
            is_transform(strided(x, 0, 2, half), e, n, 2 * step) && is_transform(
                strided(x, 1, 2, half),
                o,
                n,
                2 * step,
            ) && is_butterfly_stage(e, o, w, t, out2, n, step);
        lemma_transform_is_unique(strided(x, 0, 2, half), e1, e2, n, 2 * step);
        lemma_transform_is_unique(strided(x, 1, 2, half), o1, o2, n, 2 * step);
        let h = e1.len() as int;
        assert forall|k: int| 0 <= k < h implies #[trigger] out1[k] == out2[k] && out1[k + h]
            == out2[k + h] by {
            assert(w1[k] == w1[k]);
            assert(w2[k] == w2[k]);
            assert(w1[k] == w2[k]);
            assert(t1[k] == t2[k]);
        }
        assert forall|i: int| 0 <= i < out1.len() implies out1[i] == out2[i] by {
            if i >= h {
                let k = i - h;
                assert(out1[k] == out2[k]);
                assert(k + h == i);
            } else {
                assert(out1[i] == out2[i]);
            }
        }
        assert(out1 =~= out2);
    }
}

/// Zero-padding an input to its next power of two leaves the block that
/// `fft` transforms as it is, so with deterministic arithmetic the
/// transforms of an input and of its zero-padded copy are equal.
pub proof fn lemma_padding_keeps_transform<C: Butterfly>(
    input: Seq<C>,
    n: int,
    out1: Seq<C>,
    m: int,
    out2: Seq<C>,
)
    requires
        has_deterministic_arithmetic::<C>(),
        is_next_power_of_two(n, input.len() as int),
        is_transform(zero_padded(input, n), out1, n, 1),
        is_next_power_of_two(m, n),
        is_transform(zero_padded(zero_padded(input, n), m), out2, m, 1),
    ensures
        out1 == out2,
{
    lemma_power_of_two_is_fixed(n, m);
    assert(zero_padded(zero_padded(input, n), m) =~= zero_padded(input, n));
    lemma_transform_is_unique(zero_padded(input, n), out1, out2, n, 1);
}

/// When `p` is not congruent to `offset` modulo `step`, it is congruent
/// modulo `2 * step` to neither `offset` nor `offset + step`.
proof fn lemma_split_residue(p: int, offset: int, step: int)
    requires
        0 <= offset < step,
        0 <= p,
        p % step != offset,
    ensures
        p % (2 * step) != offset,
        p % (2 * step) != offset + step,
{
    lemma_mod_mod(p, step, 2);
    assert(step * 2 == 2 * step);
    lemma_fundamental_div_mod_converse_mod(offset, step, 0, offset);
    lemma_fundamental_div_mod_converse_mod(offset + step, step, 1, offset);
}

/// `offset + k * step` is congruent to `offset` modulo `step`.
proof fn lemma_written_residue(offset: int, k: int, step: int)
    requires
        0 <= offset < step,
    ensures
        (offset + k * step) % step == offset,
{
    lemma_fundamental_div_mod_converse_mod(offset + k * step, step, k, offset);
}

/// Two entries congruent to `offset` modulo `2 * step` (or to
/// `offset + step`) are congruent to `offset` modulo `step`.
proof fn lemma_halves_in_class(p: int, offset: int, step: int)
    requires
        0 <= offset < step,
        0 <= p,
        p % (2 * step) == offset || p % (2 * step) == offset + step,
    ensures
        p % step == offset,
{
    lemma_mod_mod(p, step, 2);
    assert(step * 2 == 2 * step);
    lemma_fundamental_div_mod_converse_mod(offset, step, 0, offset);
    lemma_fundamental_div_mod_converse_mod(offset + step, step, 1, offset);
}

/// The slots written for different `k` of one butterfly stage differ.
proof fn lemma_slots_differ(offset: int, step: int, m: int, k: int, j: int)
    requires
        0 <= k < j < m,
        step > 0,
    ensures
        offset + k * step < offset + j * step,
        offset + j * step < offset + k * step + m * step,
        offset + k * step + m * step < offset + j * step + m * step,
{
    assert(k * step < j * step) by (nonlinear_arith)
        requires
            k < j,
            step > 0,
    ;
    assert(j * step < m * step) by (nonlinear_arith)
        requires
            j < m,
            step > 0,
    ;
    assert(0 <= k * step) by (nonlinear_arith)
        requires
            0 <= k,
            step > 0,
    ;
}

/// The butterflies of the sub-transform of the entries at `offset`,
/// `offset + step`, `offset + 2 * step`, ... of buffers of length `n`, which
/// hold the same values there on entry: the two halves are transformed from
/// `a` into `b`, then combined from `b` into `a`, where the transform of
/// those entries ends. Entries outside that residue class are left as they
/// are.
#[verifier::spinoff_prover]
fn fft_inner<C: Butterfly>(
    a: &mut Vec<C>,
    b: &mut Vec<C>,
    n: usize,
    offset: usize,
    step: usize,
    Ghost(n_log): Ghost<nat>,
    Ghost(step_log): Ghost<nat>,
)
    requires
        old(a)@.len() == n,
        old(b)@.len() == n,
        n == pow2(n_log),
        step == pow2(step_log),
        offset < step,
        forall|p: int|
            0 <= p < n && p % (step as int) == offset ==> old(a)@[p] == old(b)@[p],
    ensures
        final(a)@.len() == n,
        final(b)@.len() == n,
        is_transform(
            strided(old(a)@, offset as int, step as int, (n / step) as nat),
            strided(final(a)@, offset as int, step as int, (n / step) as nat),
            n as int,
            step as int,
        ),
        forall|p: int|
            0 <= p < n && p % (step as int) != offset ==> final(a)@[p] == old(a)@[p],
        forall|p: int|
            0 <= p < n && p % (step as int) != offset ==> final(b)@[p] == old(b)@[p],
    decreases n - step,
{
    if step >= n {
        proof {
            lemma_pow2_pos(n_log);
            assert(n / step <= 1) by (nonlinear_arith)
                requires
                    step >= n,
                    n > 0,
            ;
        }
        return;
    }
    proof {
        if step_log >= n_log {
            if step_log > n_log {
                lemma_pow2_strictly_increases(n_log, step_log);
            }
        }
        assert(step_log < n_log);
        lemma_pow2_unfold(step_log + 1);
        lemma_pow2_adds(step_log + 1, (n_log - step_log - 1) as nat);
        assert(step_log + 1 + (n_log - step_log - 1) as nat == n_log);
        lemma_pow2_pos((n_log - step_log - 1) as nat);
        if step_log + 1 < n_log {
            lemma_pow2_strictly_increases(step_log + 1, n_log);
        }
    }
    let ghost m: int = pow2((n_log - step_log - 1) as nat) as int;
    let two_step = step * 2;
    assert(two_step == pow2(step_log + 1));
    assert(n == pow2(step_log + 1) * m);
    assert(n == m * two_step) by (nonlinear_arith)
        requires
            n == two_step * m,
    ;
    assert(n / two_step == m && n / step == 2 * m) by (nonlinear_arith)
        requires
            n == m * two_step,
            two_step == step * 2,
            step > 0,
    ;
    let ghost o = offset as int;
    let ghost s = step as int;
    let ghost a0 = a@;
    let ghost b0 = b@;
    proof {
        assert forall|p: int| 0 <= p < n && p % (two_step as int) == o implies b0[p] == a0[p] by {
            lemma_halves_in_class(p, o, s);
        }
    }
    fft_inner(b, a, n, offset, two_step, Ghost(n_log), Ghost(step_log + 1));
    let ghost a1 = a@;
    let ghost b1 = b@;
    proof {
        assert forall|p: int| 0 <= p < n && p % (two_step as int) == o + s implies b1[p] == a1[p] by {
            lemma_halves_in_class(p, o, s);
            assert(p % (two_step as int) != o);
        }
    }
    fft_inner(b, a, n, offset + step, two_step, Ghost(n_log), Ghost(step_log + 1));
    let ghost b2 = b@;
    proof {
        assert forall|p: int| 0 <= p < n && p % s != o implies a@[p] == a0[p] && b@[p] == b0[p] by {
            lemma_split_residue(p, o, s);
        }
    }
    let ghost a_mid = a@;
    let ghost even = strided(b2, o, two_step as int, m as nat);
    let ghost odd = strided(b2, o + s, two_step as int, m as nat);
    let ghost x = strided(a0, o, s, (n / step) as nat);
    proof {
        // the even entries of the block, and their transform
        assert forall|k: int| 0 <= k < m implies #[trigger] strided(x, 0, 2, m as nat)[k]
            == strided(b0, o, two_step as int, m as nat)[k] && strided(b1, o, two_step as int, m as nat)[k]
            == even[k] by {
            assert(o + (0 + k * 2) * s == o + k * two_step) by (nonlinear_arith)
                requires
                    two_step == s * 2,
            ;
            assert(0 <= k * two_step <= (m - 1) * two_step) by (nonlinear_arith)
                requires
                    0 <= k < m,
                    two_step > 0,
            ;
            assert((m - 1) * two_step + two_step == n) by (nonlinear_arith)
                requires
                    n == m * two_step,
            ;
            let p = o + k * two_step;
            lemma_written_residue(o, k, two_step as int);
            lemma_halves_in_class(p, o, s);
            assert(p % (two_step as int) != o + s);
        }
        assert(strided(x, 0, 2, m as nat) =~= strided(b0, o, two_step as int, m as nat));
        assert forall|k: int| 0 <= k < m implies strided(b1, o, two_step as int, m as nat)[k]
            == #[trigger] even[k] by {
            assert(strided(x, 0, 2, m as nat)[k] == strided(b0, o, two_step as int, m as nat)[k]);
        }
        assert(strided(b1, o, two_step as int, m as nat) =~= even);
        // the odd entries of the block, and their transform
        assert forall|k: int| 0 <= k < m implies #[trigger] strided(x, 1, 2, m as nat)[k]
            == strided(b1, o + s, two_step as int, m as nat)[k] by {
            assert(o + (1 + k * 2) * s == o + s + k * two_step) by (nonlinear_arith)
                requires
                    two_step == s * 2,
            ;
            assert(0 <= k * two_step <= (m - 1) * two_step) by (nonlinear_arith)
                requires
                    0 <= k < m,
                    two_step > 0,
            ;
            assert((m - 1) * two_step + two_step == n) by (nonlinear_arith)
                requires
                    n == m * two_step,
            ;
            let p = o + s + k * two_step;
            lemma_written_residue(o + s, k, two_step as int);
            lemma_halves_in_class(p, o, s);
            assert(p % (two_step as int) != o);
        }
        assert(strided(x, 1, 2, m as nat) =~= strided(b1, o + s, two_step as int, m as nat));
        assert(x.len() == 2 * m);
        assert(is_transform(strided(x, 0, 2, m as nat), even, n as int, 2 * s));
        assert(is_transform(strided(x, 1, 2, m as nat), odd, n as int, 2 * s));
    }
    let half = n / 2;
    assert(half == m * step) by (nonlinear_arith)
        requires
            n == m * two_step,
            two_step == step * 2,
            half == n / 2,
    ;
    let mut i: usize = 0;
    let ghost mut j: int = 0;
    let ghost mut twiddles: Seq<C> = Seq::empty();
    let ghost mut turned: Seq<C> = Seq::empty();
    while i < n
        invariant
            a@.len() == n,
            b@ == b2,
            b2.len() == n,
            0 <= j <= m,
            i == j * two_step,
            i <= n,
            n == m * two_step,
            two_step == step * 2,
            half == m * step,
            offset < step,
            o == offset,
            s == step,
            even == strided(b2, o, two_step as int, m as nat),
            odd == strided(b2, o + s, two_step as int, m as nat),
            twiddles.len() == j,
            turned.len() == j,
            forall|p: int| 0 <= p < n && p % (step as int) != offset ==> a@[p] == a_mid[p],
            forall|k: int|
                #![trigger twiddles[k]]
                0 <= k < j ==> {
                    &&& call_ensures(C::twiddle, ((2 * k * s) as usize, n as usize), twiddles[k])
                    &&& call_ensures(C::times, (twiddles[k], odd[k]), turned[k])
                    &&& call_ensures(C::plus, (even[k], turned[k]), a@[o + k * s])
                    &&& call_ensures(C::minus, (even[k], turned[k]), a@[o + k * s + m * s])
                },
        decreases n - i,
    {
        proof {
            assert(j + 1 <= m) by (nonlinear_arith)
                requires
                    i == j * two_step,
                    i < n,
                    n == m * two_step,
                    two_step > 0,
            ;
            assert(i + two_step <= n) by (nonlinear_arith)
                requires
                    i == j * two_step,
                    j + 1 <= m,
                    n == m * two_step,
                    two_step > 0,
            ;
            assert(i / 2 == j * step) by (nonlinear_arith)
                requires
                    i == j * two_step,
                    two_step == step * 2,
            ;
            assert(offset + j * step + half < n) by (nonlinear_arith)
                requires
                    j + 1 <= m,
                    half == m * step,
                    n == m * two_step,
                    two_step == step * 2,
                    offset < step,
            ;
            assert(2 * j * s == i) by (nonlinear_arith)
                requires
                    i == j * two_step,
                    two_step == s * 2,
            ;
            assert(half > 0) by (nonlinear_arith)
                requires
                    half == m * step,
                    j + 1 <= m,
                    0 <= j,
                    step > 0,
            ;
        }
        let ghost a_before = a@;
        let even_value = b[offset + i];
        let odd_value = b[offset + i + step];
        let twiddle = C::twiddle(i, n);
        let turned_value = twiddle.times(odd_value);
        let low_value = even_value.plus(turned_value);
        let high_value = even_value.minus(turned_value);
        let low = offset + i / 2;
        a.set(low, low_value);
        a.set(low + half, high_value);
        proof {
            assert(even[j] == even_value);
            assert(odd[j] == odd_value);
            lemma_written_residue(o, j, s);
            lemma_written_residue(o, j + m, s);
            assert(o + (j + m) * s == low + half) by (nonlinear_arith)
                requires
                    low == o + j * s,
                    half == m * s,
            ;
            twiddles = twiddles.push(twiddle);
            turned = turned.push(turned_value);
            assert forall|k: int|
                #![trigger twiddles[k]]
                0 <= k < j + 1 implies {
                    &&& call_ensures(C::twiddle, ((2 * k * s) as usize, n as usize), twiddles[k])
                    &&& call_ensures(C::times, (twiddles[k], odd[k]), turned[k])
                    &&& call_ensures(C::plus, (even[k], turned[k]), a@[o + k * s])
                    &&& call_ensures(C::minus, (even[k], turned[k]), a@[o + k * s + m * s])
                } by {
                if k < j {
                    lemma_slots_differ(o, s, m, k, j);
                    assert(a@[o + k * s] == a_before[o + k * s]);
                    assert(a@[o + k * s + m * s] == a_before[o + k * s + m * s]);
                } else {
                    assert(k == j);
                    assert(twiddles[k] == twiddle);
                    assert(turned[k] == turned_value);
                    assert((2 * k * s) as usize == i);
                    assert(call_ensures(C::twiddle, (i, n), twiddle));
                    assert(call_ensures(C::times, (twiddle, odd_value), turned_value));
                    assert(a@[o + k * s] == low_value);
                    assert(a@[o + k * s + m * s] == high_value);
                    assert(call_ensures(C::plus, (even_value, turned_value), low_value));
                    assert(call_ensures(C::minus, (even_value, turned_value), high_value));
                }
            }
            assert((j + 1) * two_step == i + two_step) by (nonlinear_arith)
                requires
                    i == j * two_step,
            ;
            j = j + 1;
        }
        i = i + two_step;
    }
    proof {
        assert(j == m) by (nonlinear_arith)
            requires
                i == j * two_step,
                i >= n,
                i <= n,
                n == m * two_step,
                two_step > 0,
        ;
        let out = strided(a@, o, s, (n / step) as nat);
        assert forall|k: int| 0 <= k < m implies #[trigger] out[k] == a@[o + k * s] && out[k + m] == a@[
            o + k * s + m * s] by {
            assert(o + (k + m) * s == o + k * s + m * s) by (nonlinear_arith);
        }
        assert forall|k: int|
            #![trigger twiddles[k]]
            0 <= k < m implies {
                &&& call_ensures(C::twiddle, ((2 * k * s) as usize, n as usize), twiddles[k])
                &&& call_ensures(C::times, (twiddles[k], odd[k]), turned[k])
                &&& call_ensures(C::plus, (even[k], turned[k]), out[k])
                &&& call_ensures(C::minus, (even[k], turned[k]), out[k + m])
            } by {
            assert(out[k] == a@[o + k * s] && out[k + m] == a@[o + k * s + m * s]);
        }
        assert(is_butterfly_stage(even, odd, twiddles, turned, out, n as int, s));
        assert(x.len() > 1);
        assert(((x.len() / 2) as nat) == m);
    }
}

/// A copy of `v`, value for value.
fn copy_values<C: Copy>(v: &Vec<C>) -> (copy: Vec<C>)
    ensures
        copy@ == v@,
{
    let mut copy: Vec<C> = Vec::new();
    let mut i: usize = 0;
    while i < v.len()
        invariant
            i <= v.len(),
            copy@ == v@.take(i as int),
        decreases v.len() - i,
    {
        copy.push(v[i]);
        assert(v@.take(i + 1) =~= v@.take(i as int).push(v@[i as int]));
        i = i + 1;
    }
    assert(v@.take(v.len() as int) =~= v@);
    copy
}

/// The radix-2 transform of `input`, zero-padded to the next power of two:
/// the output has that length and is a decimation-in-time transform of the
/// padded input with the arithmetic of `C`.
pub fn fft<C: Butterfly>(input: &Vec<C>) -> (output: Vec<C>)
    requires
        input.len() <= usize::MAX / 2 + 1,
    ensures
        is_next_power_of_two(output.len() as int, input.len() as int),
        is_transform(
            zero_padded(input@, output.len() as int),
            output@,
            output.len() as int,
            1,
        ),
{
    let mut buf_a = pad_to_power_of_two(input, C::ZERO);
    let n = buf_a.len();
    let mut buf_b = copy_values(&buf_a);
    let ghost padded = buf_a@;
    proof {
        lemma_pow2(0);
        lemma_pow0(2);
    }
    let ghost n_log = choose|k: nat| pow2(k) == n;
    fft_inner(&mut buf_a, &mut buf_b, n, 0, 1, Ghost(n_log), Ghost(0));
    proof {
        assert(strided(padded, 0, 1, (n / 1) as nat) =~= padded);
        assert(strided(buf_a@, 0, 1, (n / 1) as nat) =~= buf_a@);
        assert(padded =~= zero_padded(input@, n as int));
    }
    buf_a
}

} // verus!
