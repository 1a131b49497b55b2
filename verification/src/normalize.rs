//! Normalization: rescaling a smoothed raster to the unit interval.

use vstd::prelude::*;

use vstd::arithmetic::div_mod::{lemma_div_is_ordered, lemma_div_multiples_vanish};
use vstd::arithmetic::mul::lemma_mul_inequality;

use crate::raster::{Raster, SCALE};

verus! {

/// The largest intensity of the raster, 0 for an empty one.
pub open spec fn seq_max(s: Seq<u64>) -> u64
    decreases s.len(),
{
    if s.len() == 0 {
        0
    } else if s.last() > seq_max(s.drop_last()) {
        s.last()
    } else {
        seq_max(s.drop_last())
    }
}

/// No cell exceeds the raster's maximum.
pub proof fn lemma_seq_max_ge(s: Seq<u64>, i: int)
    requires
        0 <= i < s.len(),
    ensures
        s[i] <= seq_max(s),
    decreases s.len(),
{
    if i < s.len() - 1 {
        lemma_seq_max_ge(s.drop_last(), i);
    }
}

/// A non-empty raster attains its maximum in some cell.
pub proof fn lemma_seq_max_witness(s: Seq<u64>)
    requires
        s.len() > 0,
    ensures
        exists|i: int| 0 <= i < s.len() && s[i] == seq_max(s),
    decreases s.len(),
{
    if s.last() >= seq_max(s.drop_last()) {
        assert(s[s.len() - 1] == seq_max(s));
    } else {
        lemma_seq_max_witness(s.drop_last());
        let j = choose|j: int| 0 <= j < s.drop_last().len() && s.drop_last()[j] == seq_max(
            s.drop_last(),
        );
        assert(s[j] == seq_max(s));
    }
}

/// What one normalized cell holds: the cell's share of the maximum,
/// as a fixed-point fraction of `SCALE`, and 0 throughout when the
/// raster is all zero.
pub open spec fn norm_cell(s: Seq<u64>, i: int) -> int {
    if seq_max(s) == 0 {
        0
    } else {
        s[i] * SCALE / seq_max(s) as int
    }
}

/// The largest intensity across the raster (0 when all cells are 0).
pub fn max_cell(r: &Raster) -> (m: u64)
    ensures
        m == seq_max(r.cells@),
{
    let mut m: u64 = 0;
    let mut i: usize = 0;
    while i < r.cells.len()
        invariant
            i <= r.cells.len(),
            m == seq_max(r.cells@.take(i as int)),
        decreases r.cells.len() - i,
    {
        proof {
            assert(r.cells@.take(i + 1).drop_last() =~= r.cells@.take(i as int));
        }
        let v = r.cells[i];
        if v > m {
            m = v;
        }
        i = i + 1;
    }
    proof {
        assert(r.cells@.take(r.cells@.len() as int) =~= r.cells@);
    }
    m
}

/// Normalizer: rescale every cell by the raster's global maximum.
///
/// A cell `v` becomes `v * SCALE / max`, so intensities land in
/// `[0, SCALE]` and some cell holds exactly `SCALE` whenever the
/// raster is not all zero; an all-zero raster stays all zero.
#[verifier::loop_isolation(false)]
pub fn normalize(r: Raster) -> (out: Raster)
    requires
        r.wf(),
    ensures
        out.wf(),
        out.width == r.width,
        out.height == r.height,
        forall|i: int| 0 <= i < out.cells@.len() ==> out.cells@[i] == norm_cell(r.cells@, i),
        forall|i: int| 0 <= i < out.cells@.len() ==> out.cells@[i] <= SCALE,
        seq_max(r.cells@) != 0 ==> exists|i: int|
            0 <= i < out.cells@.len() && out.cells@[i] == SCALE,
        seq_max(r.cells@) == 0 ==> forall|i: int| 0 <= i < out.cells@.len() ==> out.cells@[i] == 0,
{
    let m = max_cell(&r);
    let n = r.cells.len();
    let mut cells: Vec<u64> = Vec::new();
    let mut i: usize = 0;
    while i < n
        invariant
            i <= n,
            cells@.len() == i,
            forall|k: int| 0 <= k < i ==> cells@[k] == norm_cell(r.cells@, k),
            forall|k: int| 0 <= k < i ==> cells@[k] <= SCALE,
        decreases n - i,
    {
        let v: u64 = if m == 0 {
            0
        } else {
            proof {
                lemma_seq_max_ge(r.cells@, i as int);
                lemma_mul_inequality(r.cells@[i as int] as int, m as int, SCALE as int);
                lemma_div_is_ordered(
                    r.cells@[i as int] * SCALE,
                    m * SCALE,
                    m as int,
                );
                lemma_div_multiples_vanish(SCALE as int, m as int);
            }
            ((r.cells[i] as u128 * SCALE as u128) / (m as u128)) as u64
        };
        cells.push(v);
        i = i + 1;
    }
    proof {
        if m != 0 {
            lemma_seq_max_witness(r.cells@);
            let j = choose|j: int| 0 <= j < r.cells@.len() && r.cells@[j] == m;
            lemma_div_multiples_vanish(SCALE as int, m as int);
            assert(cells@[j] == SCALE);
        }
    }
    Raster { width: r.width, height: r.height, cells }
}

} // verus!
