//! The ring of frame indices kept decoded around the frame on screen.
use vstd::prelude::*;

verus! {

/// How many frames on each side of the current one are kept decoded.
pub const CACHE_RADIUS: usize = 50;

/// The offset from the centre visited at `step`: 0, +1, -1, +2, -2, ...
pub open spec fn window_offset(step: int) -> int {
    if step == 0 {
        0
    } else if step % 2 == 1 {
        (step + 1) / 2
    } else {
        -(step / 2)
    }
}

/// The frame index visited at `step` around `center` in a ring of `n` frames.
pub open spec fn window_entry(center: int, n: int, step: int) -> int {
    (center + window_offset(step)) % n
}

/// The whole visiting order: `2 * CACHE_RADIUS + 1` indices, nearest first.
pub open spec fn window_seq(center: int, n: int) -> Seq<usize> {
    Seq::new((2 * CACHE_RADIUS + 1) as nat, |step: int| window_entry(center, n, step) as usize)
}

proof fn lemma_offset_bounds(step: int)
    requires
        0 <= step <= 2 * CACHE_RADIUS,
    ensures
        -(CACHE_RADIUS as int) <= window_offset(step) <= CACHE_RADIUS as int,
{
}

/// The frame indices around `center` in a ring of `n` frames, in the order
/// they are worth decoding: the centre, then alternately one further
/// forward and one further back, out to `CACHE_RADIUS` on each side.
pub fn window_indices(center: usize, n: usize) -> (r: Vec<usize>)
    requires
        0 < n <= isize::MAX,
        center + CACHE_RADIUS <= isize::MAX,
    ensures
        r@ == window_seq(center as int, n as int),
{
    let n_i = n as isize;
    let c = center as isize;
    let r = CACHE_RADIUS as isize;
    let mut out: Vec<usize> = Vec::new();
    let mut step: isize = 0;
    while step <= 2 * r
        invariant
            n_i == n as int,
            0 < n_i,
            c == center as int,
            c + CACHE_RADIUS <= isize::MAX,
            r == CACHE_RADIUS as int,
            0 <= step <= 2 * r + 1,
            out@.len() == step,
            forall|j: int|
                0 <= j < step ==> #[trigger] out@[j] == window_entry(center as int, n as int, j)
                    as usize,
        decreases 2 * r + 1 - step,
    {
        let offset: isize = if step == 0 {
            0
        } else if step % 2 == 1 {
            (step + 1) / 2
        } else {
            -(step / 2)
        };
        proof {
            lemma_offset_bounds(step as int);
        }
        assert(offset == window_offset(step as int));
        let v = (c + offset).checked_rem_euclid(n_i).unwrap();
        out.push(v as usize);
        step = step + 1;
    }
    assert(out@ =~= window_seq(center as int, n as int));
    out
}

/// Every index in the window lies inside the ring of `n` frames.
pub proof fn lemma_window_in_range(center: int, n: int, step: int)
    requires
        n > 0,
        0 <= step <= 2 * CACHE_RADIUS,
    ensures
        0 <= window_entry(center, n, step) < n,
{
}

/// The window starts at the centre itself.
pub proof fn lemma_window_starts_at_center(center: int, n: int)
    requires
        0 <= center < n,
    ensures
        window_entry(center, n, 0) == center,
{
    vstd::arithmetic::div_mod::lemma_small_mod(center as nat, n as nat);
}

/// Every frame within `CACHE_RADIUS` of the centre, in either direction
/// around the ring, is in the window.
pub proof fn lemma_window_covers(center: int, n: int, d: int)
    requires
        n > 0,
        -(CACHE_RADIUS as int) <= d <= CACHE_RADIUS as int,
    ensures
        exists|step: int|
            0 <= step <= 2 * CACHE_RADIUS && #[trigger] window_entry(center, n, step) == (center
                + d) % n,
{
    if d == 0 {
        assert(window_entry(center, n, 0) == (center + d) % n);
    } else if d > 0 {
        assert(window_offset(2 * d - 1) == d);
        assert(window_entry(center, n, 2 * d - 1) == (center + d) % n);
    } else {
        assert(window_offset(-2 * d) == d);
        assert(window_entry(center, n, -2 * d) == (center + d) % n);
    }
}

proof fn lemma_offsets_distinct(s1: int, s2: int)
    requires
        0 <= s1 <= 2 * CACHE_RADIUS,
        0 <= s2 <= 2 * CACHE_RADIUS,
        s1 != s2,
    ensures
        window_offset(s1) != window_offset(s2),
{
}

/// In a ring of more than `2 * CACHE_RADIUS` frames the window visits no
/// frame twice.
pub proof fn lemma_window_distinct(center: int, n: int, s1: int, s2: int)
    requires
        n > 2 * CACHE_RADIUS,
        0 <= s1 <= 2 * CACHE_RADIUS,
        0 <= s2 <= 2 * CACHE_RADIUS,
        s1 != s2,
    ensures
        window_entry(center, n, s1) != window_entry(center, n, s2),
{
    lemma_offsets_distinct(s1, s2);
    lemma_offset_bounds(s1);
    lemma_offset_bounds(s2);
    let a = center + window_offset(s1);
    let b = center + window_offset(s2);
    if a % n == b % n {
        vstd::arithmetic::div_mod::lemma_fundamental_div_mod(a, n);
        vstd::arithmetic::div_mod::lemma_fundamental_div_mod(b, n);
        let qa = a / n;
        let qb = b / n;
        assert(a - b == n * (qa - qb)) by (nonlinear_arith)
            requires
                a == n * qa + a % n,
                b == n * qb + b % n,
                a % n == b % n,
        ;
        assert(-n < a - b < n);
        assert(false) by (nonlinear_arith)
            requires
                a - b == n * (qa - qb),
                -n < a - b < n,
                a - b != 0,
                n > 0,
        ;
    }
}

} // verus!
