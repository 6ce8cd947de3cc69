//! Gradient accumulation: the batch that one device runs per iteration
//! when its share of the global batch does not fit its memory.
use vstd::prelude::*;

verus! {

/// The first `k` from `i` below `lim` that divides `bs`, or `lim` when none
/// does.
pub open spec fn first_divisor(bs: int, i: int, lim: int) -> int
    decreases lim - i,
{
    if i >= lim || i <= 0 || bs % i == 0 {
        i
    } else {
        first_divisor(bs, i + 1, lim)
    }
}

/// The number of iterations that `bs` needs at `max_bs` per iteration,
/// rounded up.
pub open spec fn ceil_div(bs: int, max_bs: int) -> int {
    if (bs / max_bs) * max_bs < bs {
        bs / max_bs + 1
    } else {
        bs / max_bs
    }
}

/// The per-iteration batch of one device under the current scheme: its
/// share of the global batch when that fits, otherwise the share split into
/// the fewest iterations that both fit and divide it evenly, searching up
/// to half the share.
pub open spec fn spec_current_ga(num_gpus: int, global_batch_size: int, max_bs: int) -> int {
    let bs = global_batch_size / num_gpus;
    if max_bs >= bs {
        bs
    } else {
        bs / first_divisor(bs, ceil_div(bs, max_bs), bs / 2 + 1)
    }
}

/// The per-iteration batch of one device under the best scheme: its share
/// when that fits, half of it when the half fits, otherwise the most that
/// fits.
pub open spec fn spec_optimal_ga(num_gpus: int, global_batch_size: int, max_bs: int) -> int {
    let bs = global_batch_size / num_gpus;
    if max_bs >= bs {
        bs
    } else if max_bs * 2 >= bs {
        bs / 2
    } else {
        max_bs
    }
}


/// The per-iteration batch of one device under the current gradient
/// accumulation scheme, for `max_bs`, the largest batch that one device
/// holds.
pub fn current_ga_iter_size(num_gpus: u32, global_batch_size: u32, max_bs: u32) -> (r: u32)
    requires
        num_gpus > 0,
        max_bs < global_batch_size / num_gpus ==> max_bs > 0,
    ensures
        r == spec_current_ga(num_gpus as int, global_batch_size as int, max_bs as int),
        r <= max_bs || r == global_batch_size / num_gpus,
{
    let bs = global_batch_size / num_gpus;
    if max_bs >= bs {
        bs
    } else {
        let mut iter = bs / max_bs;
        assert(iter * max_bs <= bs) by (nonlinear_arith)
            requires
                iter == bs / max_bs,
                max_bs > 0,
        ;
        assert(iter >= 1) by (nonlinear_arith)
            requires
                iter == bs / max_bs,
                max_bs > 0,
                max_bs < bs,
        ;
        if iter * max_bs < bs {
            assert(iter < bs) by (nonlinear_arith)
                requires
                    iter * max_bs < bs,
                    max_bs >= 1,
            ;
            iter += 1;
        }
        let ghost it0 = iter as int;
        assert(it0 == ceil_div(bs as int, max_bs as int));
        let lim = bs / 2 + 1;
        while iter < lim && bs % iter != 0
            invariant
                it0 <= iter,
                iter <= lim || iter == it0,
                it0 >= 1,
                lim == bs / 2 + 1,
                first_divisor(bs as int, iter as int, lim as int) == first_divisor(bs as int, it0, lim as int),
            decreases lim - iter,
        {
            iter += 1;
        }
        assert(iter as int == first_divisor(bs as int, it0, lim as int));
        let r = bs / iter;
        assert(r <= max_bs) by (nonlinear_arith)
            requires
                r == bs / iter,
                iter >= it0,
                it0 == ceil_div(bs as int, max_bs as int),
                max_bs >= 1,
                iter >= 1,
        {
            assert(it0 * max_bs >= bs);
            assert(iter * max_bs >= bs);
        }
        r
    }
}

/// The per-iteration batch of one device under the best gradient
/// accumulation scheme, for `max_bs`, the largest batch that one device
/// holds.
pub fn optimal_ga_iter_size(num_gpus: u32, global_batch_size: u32, max_bs: u32) -> (r: u32)
    requires
        num_gpus > 0,
        max_bs < global_batch_size / num_gpus ==> max_bs * 2 <= u32::MAX,
    ensures
        r == spec_optimal_ga(num_gpus as int, global_batch_size as int, max_bs as int),
        r <= max_bs || r == global_batch_size / num_gpus,
{
    let bs = global_batch_size / num_gpus;
    if max_bs >= bs {
        bs
    } else if max_bs * 2 >= bs {
        bs / 2
    } else {
        max_bs
    }
}

} // verus!

verus! {

/// `j` divides `bs`.
pub open spec fn divides(j: int, bs: int) -> bool {
    bs % j == 0
}

/// `j` iterations of at most `m` hold `bs`.
pub open spec fn holds(j: int, m: int, bs: int) -> bool {
    j * m >= bs
}

/// `first_divisor` gives the least divisor of `bs` from `i` on, when one
/// lies below `lim`.
proof fn lemma_first_divisor(bs: int, i: int, lim: int, k: int)
    requires
        1 <= i <= k < lim,
        bs % k == 0,
    ensures
        i <= first_divisor(bs, i, lim) <= k,
        bs % first_divisor(bs, i, lim) == 0,
        forall|j: int| i <= j < first_divisor(bs, i, lim) ==> !#[trigger] divides(j, bs),
    decreases lim - i,
{
    if bs % i != 0 {
        lemma_first_divisor(bs, i + 1, lim, k);
    }
}

/// `ceil_div` is the fewest iterations of at most `m` that hold `bs`.
proof fn lemma_ceil_div(bs: int, m: int)
    requires
        0 < m,
        0 <= bs,
    ensures
        ceil_div(bs, m) * m >= bs,
        (ceil_div(bs, m) - 1) * m < bs || bs == 0,
        forall|j: int| 0 <= j && #[trigger] holds(j, m, bs) && bs > 0 ==> j >= ceil_div(bs, m),
{
    vstd::arithmetic::div_mod::lemma_fundamental_div_mod(bs, m);
    let q = bs / m;
    assert(0 <= bs % m < m);
    let c = ceil_div(bs, m);
    if q * m < bs {
        assert(c == q + 1);
        assert(c * m == q * m + m) by (nonlinear_arith)
            requires
                c == q + 1,
        ;
    } else {
        assert(c == q);
    }
    assert((c - 1) * m < bs || bs == 0) by (nonlinear_arith)
        requires
            c * m >= bs,
            c == q || c == q + 1,
            q * m <= bs,
            c == q ==> q * m == bs,
            m > 0,
            c == q + 1 ==> q * m < bs,
    ;
    assert forall|j: int| 0 <= j && #[trigger] holds(j, m, bs) && bs > 0 implies j >= c by {
        if j < c {
            assert(j * m <= (c - 1) * m) by (nonlinear_arith)
                requires
                    j <= c - 1,
                    m > 0,
            ;
        }
    }
}

/// When the share does not fit and some iteration count that fits divides
/// it, the current scheme runs the share in the fewest such iterations:
/// the result times that count is the share, for the least count `k` that
/// divides the share, fits (`k * max_bs` holds the share) and is at most
/// half the share. Whether the global batch divides plays no part.
pub proof fn law_current_ga_divides(num_gpus: int, global_batch_size: int, max_bs: int, k0: int)
    requires
        num_gpus > 0,
        global_batch_size >= 0,
        0 < max_bs < global_batch_size / num_gpus,
        1 <= k0 <= (global_batch_size / num_gpus) / 2,
        k0 * max_bs >= global_batch_size / num_gpus,
        (global_batch_size / num_gpus) % k0 == 0,
    ensures
        ({
            let share = global_batch_size / num_gpus;
            let r = spec_current_ga(num_gpus, global_batch_size, max_bs);
            exists|k: int|
                1 <= k <= share / 2 && divides(k, share) && holds(k, max_bs, share) && (forall|j: int|
                    1 <= j < k && #[trigger] holds(j, max_bs, share) ==> !divides(j, share)) && r == share / k && #[trigger] (r * k)
                    == share
        }),
{
    let share = global_batch_size / num_gpus;
    let r = spec_current_ga(num_gpus, global_batch_size, max_bs);
    lemma_ceil_div(share, max_bs);
    let c = ceil_div(share, max_bs);
    assert(c >= 1) by (nonlinear_arith)
        requires
            c * max_bs >= share,
            share > max_bs,
            max_bs > 0,
    ;
    assert(holds(k0, max_bs, share));
    assert(c <= k0);
    let lim = share / 2 + 1;
    lemma_first_divisor(share, c, lim, k0);
    let k = first_divisor(share, c, lim);
    assert(r == share / k);
    vstd::arithmetic::div_mod::lemma_fundamental_div_mod(share, k);
    assert(r * k == share) by (nonlinear_arith)
        requires
            share == k * (share / k) + share % k,
            share % k == 0,
            r == share / k,
    ;
    assert forall|j: int| 1 <= j < k && #[trigger] holds(j, max_bs, share) implies !divides(j, share) by {
        assert(j >= c);
    }
    assert(1 <= k <= share / 2 && share % k == 0 && k * max_bs >= share) by {
        assert(k * max_bs >= c * max_bs) by (nonlinear_arith)
            requires
                k >= c,
                max_bs > 0,
        ;
    }
}

} // verus!
