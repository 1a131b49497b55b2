//! Density accumulation: rasterizing fixation points into per-cell counts.

use vstd::prelude::*;

use crate::raster::{FixationPoint, Raster};

verus! {

/// A point lands inside a width x height frame.
pub open spec fn in_frame(p: FixationPoint, width: int, height: int) -> bool {
    0 <= p.x < width && 0 <= p.y < height
}

/// How many points of the sequence sit exactly at (x, y).
pub open spec fn count_at(pts: Seq<FixationPoint>, x: int, y: int) -> nat
    decreases pts.len(),
{
    if pts.len() == 0 {
        0
    } else {
        count_at(pts.drop_last(), x, y) + if pts.last().x == x && pts.last().y == y {
            1nat
        } else {
            0nat
        }
    }
}

/// How many points of the sequence land inside the frame.
pub open spec fn accepted_count(pts: Seq<FixationPoint>, width: int, height: int) -> nat
    decreases pts.len(),
{
    if pts.len() == 0 {
        0
    } else {
        accepted_count(pts.drop_last(), width, height) + if in_frame(
            pts.last(),
            width,
            height,
        ) {
            1nat
        } else {
            0nat
        }
    }
}

/// Total intensity held by a raster's cells.
pub open spec fn sum_cells(s: Seq<u64>) -> int
    decreases s.len(),
{
    if s.len() == 0 {
        0
    } else {
        sum_cells(s.drop_last()) + s.last()
    }
}

/// No coordinate can be hit more often than there are points.
pub proof fn lemma_count_at_le_len(pts: Seq<FixationPoint>, x: int, y: int)
    ensures
        count_at(pts, x, y) <= pts.len(),
    decreases pts.len(),
{
    if pts.len() > 0 {
        lemma_count_at_le_len(pts.drop_last(), x, y);
    }
}

/// Raising one cell raises the total by the same amount.
pub proof fn lemma_sum_cells_update(s: Seq<u64>, j: int, v: u64)
    requires
        0 <= j < s.len(),
    ensures
        sum_cells(s.update(j, v)) == sum_cells(s) - s[j] + v,
    decreases s.len(),
{
    let t = s.update(j, v);
    if j == s.len() - 1 {
        assert(t.drop_last() =~= s.drop_last());
    } else {
        assert(t.drop_last() =~= s.drop_last().update(j, v));
        lemma_sum_cells_update(s.drop_last(), j, v);
    }
}

/// DensityAccumulator: rasterize the points into per-cell counts.
///
/// Returns the raster together with the number of accepted (in-frame)
/// points; out-of-frame points are silently discarded. Each accepted
/// point raises exactly its own cell by one, so the raster's total
/// intensity equals the accepted count.
#[verifier::loop_isolation(false)]
pub fn accumulate(points: &Vec<FixationPoint>, width: usize, height: usize) -> (r: (
    Raster,
    usize,
))
    requires
        width * height <= usize::MAX,
    ensures
        r.0.wf(),
        r.0.width == width,
        r.0.height == height,
        forall|x: int, y: int|
            0 <= x < width && 0 <= y < height ==> r.0.cells@[y * width + x] == count_at(
                points@,
                x,
                y,
            ),
        r.1 == accepted_count(points@, width as int, height as int),
        sum_cells(r.0.cells@) == r.1,
{
    let n: usize = width * height;
    let mut cells: Vec<u64> = Vec::new();
    let mut j: usize = 0;
    while j < n
        invariant
            j <= n,
            cells@.len() == j,
            forall|k: int| 0 <= k < j ==> cells@[k] == 0,
            sum_cells(cells@) == 0,
        decreases n - j,
    {
        let ghost prev = cells@;
        cells.push(0);
        proof {
            assert(cells@.drop_last() =~= prev);
        }
        j = j + 1;
    }
    proof {
        assert forall|x: int, y: int| 0 <= x < width && 0 <= y < height implies cells@[y * width
            + x] == #[trigger] count_at(points@.take(0), x, y) by {
            assert(0 <= y * width + x < width * height) by (nonlinear_arith)
                requires
                    0 <= x < width && 0 <= y < height,
            ;
        }
    }
    let mut accepted: usize = 0;
    let mut i: usize = 0;
    while i < points.len()
        invariant
            i <= points.len(),
            accepted <= i,
            cells@.len() == width * height,
            forall|x: int, y: int|
                0 <= x < width && 0 <= y < height ==> cells@[y * width + x] == count_at(
                    points@.take(i as int),
                    x,
                    y,
                ),
            accepted == accepted_count(points@.take(i as int), width as int, height as int),
            sum_cells(cells@) == accepted,
        decreases points.len() - i,
    {
        let p = points[i];
        proof {
            assert(points@.take(i + 1).drop_last() =~= points@.take(i as int));
            assert(points@.take(i + 1).last() == points@[i as int]);
        }
        if p.x >= 0 && (p.x as usize) < width && p.y >= 0 && (p.y as usize) < height {
            let x = p.x as usize;
            let y = p.y as usize;
            proof {
                assert(y * width + x < width * height) by (nonlinear_arith)
                    requires
                        0 <= x < width && 0 <= y < height,
                ;
            }
            let idx: usize = y * width + x;
            proof {
                lemma_count_at_le_len(points@.take(i as int), x as int, y as int);
                lemma_sum_cells_update(cells@, idx as int, (cells@[idx as int] + 1) as u64);
            }
            let c = cells[idx];
            cells.set(idx, c + 1);
            accepted = accepted + 1;
            proof {
                assert forall|xx: int, yy: int| 0 <= xx < width && 0 <= yy < height implies cells@[
                    yy * width + xx] == #[trigger] count_at(points@.take(i + 1), xx, yy) by {
                    assert(0 <= yy * width + xx < width * height) by (nonlinear_arith)
                        requires
                            0 <= xx < width && 0 <= yy < height,
                    ;
                    let prev = points@.take(i as int);
                    let cur = points@.take(i + 1);
                    assert(cur.drop_last() =~= prev);
                    assert(count_at(cur, xx, yy) == count_at(prev, xx, yy) + if points@[
                        i as int].x == xx && points@[i as int].y == yy {
                        1nat
                    } else {
                        0nat
                    });
                    if xx == x as int && yy == y as int {
                        assert(c == count_at(prev, xx, yy));
                        assert(cells@[yy * width + xx] == c + 1);
                    } else {
                        assert(yy * width + xx != y * width + x) by (nonlinear_arith)
                            requires
                                0 <= xx < width && 0 <= yy < height && 0 <= x < width && 0 <= y
                                    < height && (xx != x || yy != y),
                        ;
                        assert(cells@[yy * width + xx] == count_at(prev, xx, yy));
                    }
                }
            }
        } else {
            proof {
                assert forall|xx: int, yy: int| 0 <= xx < width && 0 <= yy < height implies cells@[
                    yy * width + xx] == #[trigger] count_at(points@.take(i + 1), xx, yy) by {
                    assert(0 <= yy * width + xx < width * height) by (nonlinear_arith)
                        requires
                            0 <= xx < width && 0 <= yy < height,
                    ;
                    let prev = points@.take(i as int);
                    let cur = points@.take(i + 1);
                    assert(cur.drop_last() =~= prev);
                    assert(count_at(cur, xx, yy) == count_at(prev, xx, yy));
                    assert(cells@[yy * width + xx] == count_at(prev, xx, yy));
                }
            }
        }
        i = i + 1;
    }
    proof {
        assert(points@.take(points@.len() as int) =~= points@);
    }
    (Raster { width, height, cells }, accepted)
}

} // verus!
