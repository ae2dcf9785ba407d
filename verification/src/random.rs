//! Sampling of distinct board positions for mine placement.

use vstd::prelude::*;

verus! {

/// Relies on rand::thread_rng and rand::Rng::gen_range: a draw from the
/// nonempty range `min..max` lies in that range.
#[verifier::external_body]
fn random_range(min: usize, max: usize) -> (r: usize)
    requires
        min < max,
    ensures
        min <= r < max,
{
    rand::Rng::gen_range(&mut rand::thread_rng(), min..max)
}

/// Every position of a `width` by `height` grid, row by row: the position at
/// index `k` is `(k % width, k / width)`.
pub(crate) fn all_cells(width: usize, height: usize) -> (r: Vec<(usize, usize)>)
    requires
        1 <= width,
        1 <= height,
        width as int * height as int <= usize::MAX,
    ensures
        r@.len() == width as int * height as int,
        r@.no_duplicates(),
        forall|k: int|
            0 <= k < r@.len() ==> (#[trigger] r@[k]).0 < width && r@[k].1 < height
                && r@[k].1 as int * width as int + r@[k].0 as int == k,
{
    let mut r: Vec<(usize, usize)> = Vec::new();
    let mut y: usize = 0;
    while y < height
        invariant
            1 <= width,
            y <= height,
            width as int * height as int <= usize::MAX,
            r@.len() == y as int * width as int,
            forall|k: int|
                0 <= k < r@.len() ==> (#[trigger] r@[k]).0 < width && r@[k].1 < height
                    && r@[k].1 as int * width as int + r@[k].0 as int == k,
        decreases height - y,
    {
        let mut x: usize = 0;
        proof {
            assert((y + 1) as int * width as int <= height as int * width as int) by (
            nonlinear_arith)
                requires
                    y as int + 1 <= height as int,
                    width as int >= 1,
            ;
        }
        while x < width
            invariant
                1 <= width,
                x <= width,
                y < height,
                width as int * height as int <= usize::MAX,
                (y + 1) as int * width as int <= width as int * height as int,
                r@.len() == y as int * width as int + x as int,
                forall|k: int|
                    0 <= k < r@.len() ==> (#[trigger] r@[k]).0 < width && r@[k].1 < height
                        && r@[k].1 as int * width as int + r@[k].0 as int == k,
            decreases width - x,
        {
            r.push((x, y));
            x = x + 1;
        }
        proof {
            assert((y as int + 1) * width as int == y as int * width as int + width as int) by (
            nonlinear_arith);
        }
        y = y + 1;
    }
    proof {
        assert(height as int * width as int == width as int * height as int) by (nonlinear_arith);
    }
    proof {
        assert forall|a: int, b: int|
            0 <= a < r@.len() && 0 <= b < r@.len() && a != b implies r@[a] != r@[b] by {
            if r@[a] == r@[b] {
                assert(r@[a].1 as int * width as int + r@[a].0 as int == a);
                assert(r@[b].1 as int * width as int + r@[b].0 as int == b);
            }
        }
    }
    r
}

/// Draws `count` positions from the given pool, without replacement and
/// uniformly at random.  Every drawn position comes from the pool, and no
/// position is drawn twice.
pub(crate) fn draw_positions(cells: Vec<(usize, usize)>, count: usize) -> (r: Vec<
    (usize, usize),
>)
    requires
        count <= cells@.len(),
        cells@.no_duplicates(),
    ensures
        r@.len() == count,
        r@.no_duplicates(),
        forall|k: int| 0 <= k < r@.len() ==> cells@.contains(#[trigger] r@[k]),
{
    let ghost cells0 = cells@;
    let mut pool = cells;
    let mut r: Vec<(usize, usize)> = Vec::new();
    let mut i: usize = 0;
    while i < count
        invariant
            i <= count,
            count <= cells0.len(),
            pool@.len() == cells0.len() - i,
            r@.len() == i,
            pool@.no_duplicates(),
            r@.no_duplicates(),
            forall|k: int| 0 <= k < pool@.len() ==> cells0.contains(#[trigger] pool@[k]),
            forall|k: int| 0 <= k < r@.len() ==> cells0.contains(#[trigger] r@[k]),
            forall|k: int| 0 <= k < r@.len() ==> !pool@.contains(#[trigger] r@[k]),
        decreases count - i,
    {
        let k = random_range(0, pool.len());
        let ghost pool0 = pool@;
        let p = pool.swap_remove(k);
        proof {
            assert(p == pool0[k as int]);
            assert(pool0.contains(p));
            assert forall|a: int| 0 <= a < pool@.len() implies cells0.contains(
                #[trigger] pool@[a],
            ) by {
                assert(pool@[a] == pool0[a] || pool@[a] == pool0.last());
            }
            assert forall|a: int, b: int|
                0 <= a < pool@.len() && 0 <= b < pool@.len() && a != b implies pool@[a]
                != pool@[b] by {
                assert(pool@[a] == pool0[a] || pool@[a] == pool0.last());
                assert(pool@[b] == pool0[b] || pool@[b] == pool0.last());
            }
            assert forall|a: int| 0 <= a < pool@.len() implies pool@[a] != p by {
                assert(pool@[a] == pool0[a] || pool@[a] == pool0.last());
            }
            assert(!pool@.contains(p)) by {
                if pool@.contains(p) {
                    let w = choose|w: int| 0 <= w < pool@.len() && pool@[w] == p;
                }
            }
            assert forall|a: int| 0 <= a < r@.len() implies !pool@.contains(
                #[trigger] r@[a],
            ) by {
                assert(!pool0.contains(r@[a]));
                if pool@.contains(r@[a]) {
                    let w = choose|w: int| 0 <= w < pool@.len() && pool@[w] == r@[a];
                    assert(pool@[w] == pool0[w] || pool@[w] == pool0.last());
                    assert(pool0.contains(pool@[w]));
                }
            }
            assert forall|a: int| 0 <= a < r@.len() implies r@[a] != p by {
                assert(!pool0.contains(r@[a]));
            }
        }
        let ghost r0 = r@;
        r.push(p);
        proof {
            assert forall|a: int, b: int|
                0 <= a < r@.len() && 0 <= b < r@.len() && a != b implies r@[a] != r@[b] by {
                assert(r@[a] == if a < r0.len() {
                    r0[a]
                } else {
                    p
                });
                assert(r@[b] == if b < r0.len() {
                    r0[b]
                } else {
                    p
                });
            }
            assert forall|a: int| 0 <= a < r@.len() implies !pool@.contains(#[trigger] r@[a]) by {
                assert(r@[a] == if a < r0.len() {
                    r0[a]
                } else {
                    p
                });
            }
        }
        i = i + 1;
    }
    r
}

/// Draws `num_fields` distinct positions on a `width` by `height` grid,
/// uniformly at random and without replacement.  No order among the returned
/// positions is promised.
pub fn random_fields(width: usize, height: usize, num_fields: usize) -> (r: Vec<(usize, usize)>)
    requires
        1 <= width,
        1 <= height,
        width as int * height as int <= usize::MAX,
        num_fields as int <= width as int * height as int,
    ensures
        r@.len() == num_fields,
        r@.no_duplicates(),
        forall|k: int| 0 <= k < r@.len() ==> (#[trigger] r@[k]).0 < width && r@[k].1 < height,
{
    let cells = all_cells(width, height);
    let r = draw_positions(cells, num_fields);
    r
}

} // verus!
