//! Euclidean rhythm generation and pattern rotation over a 16-step bar.

use vstd::prelude::*;

verus! {

/// Number of steps that a Euclidean rhythm actually uses: `steps` capped at the bar length.
pub open spec fn used_steps(steps: u8) -> int {
    if steps < 16 { steps as int } else { 16 }
}

/// Number of onsets that a Euclidean rhythm places: `hits` capped at the used steps.
pub open spec fn used_hits(hits: u8, steps: u8) -> int {
    if (hits as int) < used_steps(steps) { hits as int } else { used_steps(steps) }
}

/// Whether step `i` of the Euclidean rhythm with `hits` onsets over `steps` steps sounds.
///
/// Step `i` sounds when it lies inside the used steps and the running product
/// `i * hits` has just wrapped past a multiple of `steps` (a Bresenham line).
pub open spec fn euclidean_hit(hits: u8, steps: u8, i: int) -> bool {
    let s = used_steps(steps);
    let h = used_hits(hits, steps);
    &&& 0 <= i < s
    &&& h > 0
    &&& (i * h) % s < h
}

/// Number of `true` entries in a sequence.
pub open spec fn count_true(s: Seq<bool>) -> nat
    decreases s.len(),
{
    if s.len() == 0 {
        0
    } else {
        count_true(s.drop_last()) + if s.last() { 1nat } else { 0nat }
    }
}

/// Generates a Euclidean rhythm: `hits` onsets spread as evenly as possible over
/// `steps` positions (at most 16), the rest of the bar silent.
pub fn euclidean(hits: u8, steps: u8) -> (pattern: [bool; 16])
    ensures
        forall|i: int| 0 <= i < 16 ==> pattern[i] == euclidean_hit(hits, steps, i),
        count_true(pattern@) == used_hits(hits, steps),
{
    let mut pattern = [false; 16];
    let s: usize = if steps < 16 { steps as usize } else { 16 };
    let h: usize = if (hits as usize) < s { hits as usize } else { s };

    if h == 0 || s == 0 {
        proof {
            lemma_euclidean_onset_count(hits, steps, pattern@);
        }
        return pattern;
    }

    if h >= s {
        for i in 0..s
            invariant
                s == used_steps(steps),
                h == used_hits(hits, steps),
                h == s,
                forall|j: int| 0 <= j < i ==> pattern[j],
                forall|j: int| i <= j < 16 ==> !pattern[j],
        {
            pattern[i] = true;
        }
        assert forall|i: int| 0 <= i < 16 implies pattern[i] == euclidean_hit(hits, steps, i) by {
            if 0 <= i < s {
                vstd::arithmetic::div_mod::lemma_mod_multiples_basic(i, s as int);
            }
        }
        proof {
            lemma_euclidean_onset_count(hits, steps, pattern@);
        }
        return pattern;
    }

    for i in 0..s
        invariant
            0 < h < s <= 16,
            s == used_steps(steps),
            h == used_hits(hits, steps),
            forall|j: int| 0 <= j < i ==> pattern[j] == euclidean_hit(hits, steps, j),
            forall|j: int| i <= j < 16 ==> !pattern[j],
    {
        assert(i * h <= 16 * 16) by (nonlinear_arith)
            requires
                i < 16,
                h <= 16,
        ;
        if (i * h) % s < h {
            pattern[i] = true;
        }
    }
    proof {
        lemma_euclidean_onset_count(hits, steps, pattern@);
    }
    pattern
}

/// Index of the step of the unrotated pattern that lands on step `i` after rotating
/// right by `offset` steps.
pub open spec fn rotate_source(i: int, offset: u8) -> int {
    (i + 16 - (offset as int % 16)) % 16
}

/// Rotates a pattern by `offset` steps to the right (wrapping around the bar),
/// which shifts the downbeat.
pub fn rotate(pattern: &[bool; 16], offset: u8) -> (rotated: [bool; 16])
    ensures
        forall|i: int| 0 <= i < 16 ==> rotated[i] == pattern[rotate_source(i, offset)],
{
    let mut rotated = [false; 16];
    let offset: usize = (offset as usize) % 16;
    for i in 0..16usize
        invariant
            offset < 16,
            forall|j: int| 0 <= j < i ==> rotated[j] == pattern[rotate_source(j, offset as u8)],
    {
        rotated[i] = pattern[(i + 16 - offset) % 16];
    }
    rotated
}

/// Position of onset number `j` (from 0) of a Euclidean rhythm with `h` onsets over `s`
/// steps: the first step at or after `j * s / h`.
pub open spec fn onset_position(j: int, h: int, s: int) -> int {
    (j * s + h - 1) / h
}

/// The rounded-up quotient `c` of `x` by `h` satisfies `(c - 1) * h < x <= c * h`.
proof fn lemma_ceil_div_bounds(x: int, h: int)
    requires
        x >= 0,
        h > 0,
    ensures
        ((x + h - 1) / h - 1) * h < x,
        x <= ((x + h - 1) / h) * h,
        (x + h - 1) / h >= 0,
{
    let c = (x + h - 1) / h;
    let r = (x + h - 1) % h;
    vstd::arithmetic::div_mod::lemma_fundamental_div_mod(x + h - 1, h);
    vstd::arithmetic::div_mod::lemma_mod_pos_bound(x + h - 1, h);
    vstd::arithmetic::div_mod::lemma_div_pos_is_pos(x + h - 1, h);
    assert((c - 1) * h < x && x <= c * h) by (nonlinear_arith)
        requires
            x + h - 1 == h * c + r,
            0 <= r < h,
    ;
}

/// Consecutive onsets lie `s / h` steps apart, rounded down or up: the rounded-up
/// quotients of `x` and `x + s` by `h` differ by the floor or the ceiling of `s / h`.
proof fn lemma_ceil_div_gap(x: int, s: int, h: int)
    requires
        x >= 0,
        s >= 0,
        h > 0,
    ensures
        s / h <= (x + s + h - 1) / h - (x + h - 1) / h <= (s + h - 1) / h,
{
    lemma_ceil_div_bounds(x, h);
    lemma_ceil_div_bounds(x + s, h);
    let c1 = (x + h - 1) / h;
    let c2 = (x + s + h - 1) / h;
    let f = s / h;
    let g = s % h;
    vstd::arithmetic::div_mod::lemma_fundamental_div_mod(s, h);
    vstd::arithmetic::div_mod::lemma_mod_pos_bound(s, h);
    assert(c2 >= c1 + f) by (nonlinear_arith)
        requires
            (c1 - 1) * h < x,
            x + s <= c2 * h,
            s == h * f + g,
            0 <= g,
            h > 0,
    ;
    assert(c2 <= c1 + f + 1) by (nonlinear_arith)
        requires
            (c2 - 1) * h < x + s,
            x <= c1 * h,
            s == h * f + g,
            g < h,
            h > 0,
    ;
    if g == 0 {
        assert(c2 <= c1 + f) by (nonlinear_arith)
            requires
                (c2 - 1) * h < x + s,
                x <= c1 * h,
                s == h * f,
                h > 0,
        ;
        assert(s + h - 1 == f * h + (h - 1)) by (nonlinear_arith)
            requires
                s == h * f,
        ;
        vstd::arithmetic::div_mod::lemma_fundamental_div_mod_converse(s + h - 1, h, f, h - 1);
    } else {
        assert(s + h - 1 == (f + 1) * h + (g - 1)) by (nonlinear_arith)
            requires
                s == h * f + g,
        ;
        vstd::arithmetic::div_mod::lemma_fundamental_div_mod_converse(s + h - 1, h, f + 1, g - 1);
    }
}

/// A Euclidean rhythm spreads its onsets as evenly as possible: onset number `j` sits
/// at `onset_position(j)`, there are no others, and consecutive onsets (the last one
/// wrapping round to the first at step `s`) lie `s / h` steps apart, rounded down or up.
pub proof fn lemma_euclidean_evenly_spaced(hits: u8, steps: u8, pattern: Seq<bool>)
    requires
        pattern.len() == 16,
        forall|i: int| 0 <= i < 16 ==> pattern[i] == euclidean_hit(hits, steps, i),
        used_hits(hits, steps) > 0,
    ensures
        ({
            let h = used_hits(hits, steps);
            let s = used_steps(steps);
            &&& forall|j: int|
                0 <= j < h ==> 0 <= onset_position(j, h, s) < s && pattern[onset_position(j, h, s)]
            &&& forall|i: int|
                0 <= i < 16 && pattern[i] ==> exists|j: int| 0 <= j < h && i == onset_position(j, h, s)
            &&& onset_position(0, h, s) == 0
            &&& onset_position(h, h, s) == s
            &&& forall|j: int|
                #![trigger onset_position(j, h, s)]
                0 <= j < h ==> s / h <= onset_position(j + 1, h, s) - onset_position(j, h, s) <= (s
                    + h - 1) / h
        }),
{
    let h = used_hits(hits, steps);
    let s = used_steps(steps);
    assert(0 < h <= s <= 16);
    assert forall|j: int|
        0 <= j < h implies 0 <= onset_position(j, h, s) < s && pattern[onset_position(j, h, s)] by {
        let i = onset_position(j, h, s);
        assert(j * s >= 0) by (nonlinear_arith)
            requires
                j >= 0,
                s >= 0,
        ;
        lemma_ceil_div_bounds(j * s, h);
        assert(i < s) by (nonlinear_arith)
            requires
                (i - 1) * h < j * s,
                j < h,
                h <= s,
                h > 0,
        ;
        let t = i * h - j * s;
        assert(0 <= t < h) by (nonlinear_arith)
            requires
                (i - 1) * h < j * s,
                j * s <= i * h,
                t == i * h - j * s,
        ;
        assert(i * h == j * s + t);
        if t < s {
            vstd::arithmetic::div_mod::lemma_fundamental_div_mod_converse(i * h, s, j, t);
        }
        assert((i * h) % s < h);
    }
    assert forall|i: int| 0 <= i < 16 && pattern[i] implies exists|j: int|
        0 <= j < h && i == onset_position(j, h, s) by {
        let j = (i * h) / s;
        let t = (i * h) % s;
        vstd::arithmetic::div_mod::lemma_fundamental_div_mod(i * h, s);
        vstd::arithmetic::div_mod::lemma_mod_pos_bound(i * h, s);
        assert(i * h >= 0) by (nonlinear_arith)
            requires
                i >= 0,
                h >= 0,
        ;
        vstd::arithmetic::div_mod::lemma_div_pos_is_pos(i * h, s);
        assert(j < h) by (nonlinear_arith)
            requires
                i * h == s * j + t,
                0 <= t,
                i < s,
                h > 0,
                s > 0,
        ;
        assert(j * s + h - 1 == i * h + (h - 1 - t)) by (nonlinear_arith)
            requires
                i * h == s * j + t,
        ;
        vstd::arithmetic::div_mod::lemma_fundamental_div_mod_converse(j * s + h - 1, h, i, h - 1 - t);
        assert(i == onset_position(j, h, s));
    }
    vstd::arithmetic::div_mod::lemma_fundamental_div_mod_converse(0 * s + h - 1, h, 0, h - 1);
    vstd::arithmetic::div_mod::lemma_fundamental_div_mod_converse(h * s + h - 1, h, s, h - 1);
    assert forall|j: int|
        #![trigger onset_position(j, h, s)]
        0 <= j < h implies s / h <= onset_position(j + 1, h, s) - onset_position(j, h, s) <= (s + h
            - 1) / h by {
        assert(j * s >= 0) by (nonlinear_arith)
            requires
                j >= 0,
                s >= 0,
        ;
        assert((j + 1) * s == j * s + s) by (nonlinear_arith);
        lemma_ceil_div_gap(j * s, s, h);
    }
}

/// Counting one more entry of a sequence adds that entry.
proof fn lemma_count_take_step(p: Seq<bool>, k: int)
    requires
        0 <= k < p.len(),
    ensures
        count_true(p.take(k + 1)) == count_true(p.take(k)) + if p[k] { 1nat } else { 0nat },
{
    assert(p.take(k + 1).drop_last() =~= p.take(k));
}

/// Entries that are all false add nothing to the count.
proof fn lemma_count_false_tail(p: Seq<bool>, a: int, k: int)
    requires
        0 <= a <= k <= p.len(),
        forall|i: int| a <= i < k ==> !p[i],
    ensures
        count_true(p.take(k)) == count_true(p.take(a)),
    decreases k - a,
{
    if k > a {
        lemma_count_false_tail(p, a, k - 1);
        lemma_count_take_step(p, k - 1);
    }
}

/// Entries that are all true count one each.
proof fn lemma_count_true_prefix(p: Seq<bool>, k: int)
    requires
        0 <= k <= p.len(),
        forall|i: int| 0 <= i < k ==> p[i],
    ensures
        count_true(p.take(k)) == k,
    decreases k,
{
    if k > 0 {
        lemma_count_true_prefix(p, k - 1);
        lemma_count_take_step(p, k - 1);
    } else {
        assert(p.take(0) =~= Seq::<bool>::empty());
    }
}

/// Step `k` of a Euclidean line is an onset exactly when the quotient `k * h / s`
/// moves up by one from step `k - 1` (and otherwise it stays).
proof fn lemma_bresenham_step(h: int, s: int, k: int)
    requires
        0 < h < s,
        1 <= k,
    ensures
        ((k * h) % s < h) ==> (k * h) / s == ((k - 1) * h) / s + 1,
        !((k * h) % s < h) ==> (k * h) / s == ((k - 1) * h) / s,
{
    let a = (k - 1) * h;
    let b = k * h;
    assert(b == a + h) by (nonlinear_arith)
        requires
            a == (k - 1) * h,
            b == k * h,
    ;
    vstd::arithmetic::div_mod::lemma_fundamental_div_mod(a, s);
    let q = a / s;
    let r = a % s;
    assert(0 <= r < s) by {
        vstd::arithmetic::div_mod::lemma_mod_pos_bound(a, s);
    }
    assert(a == q * s + r) by (nonlinear_arith)
        requires
            a == s * (a / s) + (a % s),
            q == a / s,
            r == a % s,
    ;
    if r + h >= s {
        assert(b == (q + 1) * s + (r + h - s)) by (nonlinear_arith)
            requires
                a == q * s + r,
                b == a + h,
        ;
        vstd::arithmetic::div_mod::lemma_fundamental_div_mod_converse(b, s, q + 1, r + h - s);
    } else {
        vstd::arithmetic::div_mod::lemma_fundamental_div_mod_converse(b, s, q, r + h);
    }
}

/// Over the first `k` used steps of a proper Euclidean rhythm (0 < h < s), the onsets
/// are the first step plus one per increase of the quotient `i * h / s`.
proof fn lemma_euclidean_prefix_count(p: Seq<bool>, h: int, s: int, k: int)
    requires
        p.len() == 16,
        0 < h < s <= 16,
        forall|i: int| 0 <= i < 16 ==> p[i] == (0 <= i < s && (i * h) % s < h),
        1 <= k <= s,
    ensures
        count_true(p.take(k)) == 1 + ((k - 1) * h) / s,
    decreases k,
{
    if k == 1 {
        assert(p.take(1).drop_last() =~= Seq::<bool>::empty());
        assert(0 * h == 0);
        vstd::arithmetic::div_mod::lemma_small_mod(0, s as nat);
        assert(p[0]);
        assert(count_true(Seq::<bool>::empty()) == 0);
        assert(count_true(p.take(1)) == 1);
        assert((k - 1) * h == 0);
        vstd::arithmetic::div_mod::lemma_div_of0(s);
    } else {
        lemma_euclidean_prefix_count(p, h, s, k - 1);
        lemma_count_take_step(p, k - 1);
        lemma_bresenham_step(h, s, k - 1);
    }
}

/// A Euclidean rhythm places exactly `hits` onsets, capped at the number of used steps
/// (`steps`, itself capped at 16).
pub proof fn lemma_euclidean_onset_count(hits: u8, steps: u8, pattern: Seq<bool>)
    requires
        pattern.len() == 16,
        forall|i: int| 0 <= i < 16 ==> pattern[i] == euclidean_hit(hits, steps, i),
    ensures
        count_true(pattern) == used_hits(hits, steps),
{
    let s = used_steps(steps);
    let h = used_hits(hits, steps);
    assert(pattern.take(16) =~= pattern);
    if h == 0 {
        lemma_count_false_tail(pattern, 0, 16);
        assert(pattern.take(0) =~= Seq::<bool>::empty());
    } else if h == s {
        assert forall|i: int| 0 <= i < s implies pattern[i] by {
            vstd::arithmetic::div_mod::lemma_mod_multiples_basic(i, s);
        }
        lemma_count_true_prefix(pattern, s);
        lemma_count_false_tail(pattern, s, 16);
    } else {
        lemma_euclidean_prefix_count(pattern, h, s, s);
        lemma_count_false_tail(pattern, s, 16);
        let q = ((s - 1) * h) / s;
        assert((s - 1) * h == (h - 1) * s + (s - h)) by (nonlinear_arith);
        vstd::arithmetic::div_mod::lemma_fundamental_div_mod_converse((s - 1) * h, s, h - 1, s - h);
    }
}

/// Rotating by `a` and then by `b` is rotating by `a + b` (modulo the bar).
pub proof fn lemma_rotate_compose(a: u8, b: u8, i: int)
    requires
        0 <= i < 16,
    ensures
        rotate_source(rotate_source(i, b), a) == rotate_source(i, ((a as int + b as int) % 16) as u8),
        0 <= rotate_source(i, b) < 16,
{
    let x = i as u8;
    assert(((((x as int + 16 - (b as int % 16)) % 16) + 16 - (a as int % 16)) % 16) == (x as int
        + 16 - (((a as int + b as int) % 16) as u8 as int % 16)) % 16) by (bit_vector)
        requires
            x < 16,
    ;
}

/// Rotating by a multiple of 16 (in particular by 0) leaves every step in place.
pub proof fn lemma_rotate_identity(offset: u8, i: int)
    requires
        0 <= i < 16,
        offset % 16 == 0,
    ensures
        rotate_source(i, offset) == i,
{
}

/// Rotating by `offset` and then by `16 - offset % 16` gives back the pattern.
pub proof fn lemma_rotate_inverse(offset: u8, i: int)
    requires
        0 <= i < 16,
    ensures
        rotate_source(rotate_source(i, (16 - offset % 16) as u8), offset) == i,
{
}

/// The count of a concatenation is the sum of the counts.
proof fn lemma_count_concat(a: Seq<bool>, b: Seq<bool>)
    ensures
        count_true(a + b) == count_true(a) + count_true(b),
    decreases b.len(),
{
    if b.len() == 0 {
        assert(a + b =~= a);
    } else {
        lemma_count_concat(a, b.drop_last());
        assert((a + b).drop_last() =~= a + b.drop_last());
    }
}

/// Rotation keeps the number of onsets.
pub proof fn lemma_rotate_keeps_count(pattern: Seq<bool>, rotated: Seq<bool>, offset: u8)
    requires
        pattern.len() == 16,
        rotated.len() == 16,
        forall|i: int| 0 <= i < 16 ==> rotated[i] == pattern[rotate_source(i, offset)],
    ensures
        count_true(rotated) == count_true(pattern),
{
    let o = offset as int % 16;
    let cut = 16 - o;
    let head = pattern.subrange(0, cut);
    let tail = pattern.subrange(cut, 16);
    assert(pattern =~= head + tail);
    assert forall|i: int| 0 <= i < 16 implies rotated[i] == (tail + head)[i] by {
        if i < o {
            assert(rotate_source(i, offset) == i + cut);
        } else {
            assert(rotate_source(i, offset) == i - o);
        }
    }
    assert(rotated =~= tail + head);
    lemma_count_concat(head, tail);
    lemma_count_concat(tail, head);
}

} // verus!
