//! Sums of a natural-valued function over every block position of the world,
//! used to bound how long light propagation can run.

use vstd::prelude::*;

verus! {

/// A block position in world coordinates.
pub type Pos = (i16, i16, i16);

/// Sum of `f` over the first `n` heights of column (x, y), from the bottom of the `i16` range.
pub open spec fn sum_z(f: spec_fn(Pos) -> nat, x: i16, y: i16, n: int) -> nat
    decreases n,
{
    if n <= 0 {
        0
    } else {
        sum_z(f, x, y, n - 1) + f((x, y, (n - 1 - 32768) as i16))
    }
}

/// Sum of `f` over the first `n` rows of slice x.
pub open spec fn sum_y(f: spec_fn(Pos) -> nat, x: i16, n: int) -> nat
    decreases n,
{
    if n <= 0 {
        0
    } else {
        sum_y(f, x, n - 1) + sum_z(f, x, (n - 1 - 32768) as i16, 65536)
    }
}

/// Sum of `f` over the first `n` slices.
pub open spec fn sum_x(f: spec_fn(Pos) -> nat, n: int) -> nat
    decreases n,
{
    if n <= 0 {
        0
    } else {
        sum_x(f, n - 1) + sum_y(f, (n - 1 - 32768) as i16, 65536)
    }
}

/// Sum of `f` over every position of the world.
pub open spec fn world_sum(f: spec_fn(Pos) -> nat) -> nat {
    sum_x(f, 65536)
}

proof fn lemma_sum_z(f: spec_fn(Pos) -> nat, g: spec_fn(Pos) -> nat, q: Pos, x: i16, y: i16, n: int)
    requires
        forall|p: Pos| p != q ==> #[trigger] f(p) == g(p),
        n <= 65536,
    ensures
        (x, y) == (q.0, q.1) && q.2 - i16::MIN < n ==> sum_z(g, x, y, n) + f(q) == sum_z(f, x, y, n)
            + g(q),
        !((x, y) == (q.0, q.1) && q.2 - i16::MIN < n) ==> sum_z(g, x, y, n) == sum_z(f, x, y, n),
    decreases n,
{
    if n > 0 {
        lemma_sum_z(f, g, q, x, y, n - 1);
        let p = (x, y, (n - 1 - 32768) as i16);
        if p != q {
            assert(f(p) == g(p));
        }
    }
}

proof fn lemma_sum_y(f: spec_fn(Pos) -> nat, g: spec_fn(Pos) -> nat, q: Pos, x: i16, n: int)
    requires
        forall|p: Pos| p != q ==> #[trigger] f(p) == g(p),
        n <= 65536,
    ensures
        x == q.0 && q.1 - i16::MIN < n ==> sum_y(g, x, n) + f(q) == sum_y(f, x, n) + g(q),
        !(x == q.0 && q.1 - i16::MIN < n) ==> sum_y(g, x, n) == sum_y(f, x, n),
    decreases n,
{
    if n > 0 {
        lemma_sum_y(f, g, q, x, n - 1);
        lemma_sum_z(f, g, q, x, (n - 1 - 32768) as i16, 65536);
    }
}

proof fn lemma_sum_x(f: spec_fn(Pos) -> nat, g: spec_fn(Pos) -> nat, q: Pos, n: int)
    requires
        forall|p: Pos| p != q ==> #[trigger] f(p) == g(p),
        n <= 65536,
    ensures
        q.0 - i16::MIN < n ==> sum_x(g, n) + f(q) == sum_x(f, n) + g(q),
        !(q.0 - i16::MIN < n) ==> sum_x(g, n) == sum_x(f, n),
    decreases n,
{
    if n > 0 {
        lemma_sum_x(f, g, q, n - 1);
        lemma_sum_y(f, g, q, (n - 1 - 32768) as i16, 65536);
    }
}

/// Changing a function at one position changes its world sum by the same amount.
pub proof fn lemma_world_sum_point(f: spec_fn(Pos) -> nat, g: spec_fn(Pos) -> nat, q: Pos)
    requires
        forall|p: Pos| p != q ==> #[trigger] f(p) == g(p),
    ensures
        world_sum(g) + f(q) == world_sum(f) + g(q),
{
    lemma_sum_x(f, g, q, 65536);
}

/// Functions that agree everywhere have the same world sum.
pub proof fn lemma_world_sum_ext(f: spec_fn(Pos) -> nat, g: spec_fn(Pos) -> nat)
    requires
        forall|p: Pos| #[trigger] f(p) == g(p),
    ensures
        world_sum(g) == world_sum(f),
{
    assert(f =~= g);
}

} // verus!
