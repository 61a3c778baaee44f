//! The anchors of the plate detector.

use vstd::prelude::*;

verus! {

/// The side of the detector's input.
pub const DET_INPUT_SIZE: usize = 640;

/// An anchor: a square on the detector's input, in pixels.
#[derive(Debug, Clone, Copy, PartialEq, Eq, Structural)]
pub struct Prior {
    /// Twice the column of the centre.
    pub cx2: u32,
    /// Twice the row of the centre.
    pub cy2: u32,
    /// The side.
    pub size: u32,
}

/// The anchor of a cell.
pub open spec fn prior_at(step: int, row: int, column: int, size: int) -> Prior {
    Prior { cx2: ((2 * column + 1) * step) as u32, cy2: ((2 * row + 1) * step) as u32, size: size as u32 }
}

/// The anchors of one layer: row by row, in a row column by column, and in a cell the
/// small one first.
pub open spec fn layer(step: int, cells: int, small: int, large: int) -> Seq<Prior> {
    Seq::new(
        (cells * cells * 2) as nat,
        |n: int|
            prior_at(
                step,
                n / 2 / cells,
                (n / 2) % cells,
                if n % 2 == 0 {
                    small
                } else {
                    large
                },
            ),
    )
}

/// All anchors, from the finest layer to the coarsest.
pub open spec fn all_priors() -> Seq<Prior> {
    layer(8, 80, 24, 48) + layer(16, 40, 96, 192) + layer(32, 20, 384, 768)
}

fn push_layer(priors: &mut Vec<Prior>, step: u32, cells: u32, small: u32, large: u32)
    requires
        0 < cells <= 80,
        0 < step <= 32,
    ensures
        final(priors)@ == old(priors)@ + layer(step as int, cells as int, small as int, large as int),
{
    let ghost before = priors@;
    let ghost all = layer(step as int, cells as int, small as int, large as int);
    let mut i: u32 = 0;
    assert(before =~= before + all.take(0));
    while i < cells
        invariant
            0 < cells <= 80,
            0 < step <= 32,
            i <= cells,
            all == layer(step as int, cells as int, small as int, large as int),
            priors@ == before + all.take(i * cells * 2),
        decreases cells - i,
    {
        let mut j: u32 = 0;
        assert((i * cells + 0) * 2 == i * cells * 2);
        while j < cells
            invariant
                0 < cells <= 80,
                0 < step <= 32,
                i < cells,
                j <= cells,
                all == layer(step as int, cells as int, small as int, large as int),
                priors@ == before + all.take((i * cells + j) * 2),
            decreases cells - j,
        {
            proof {
                let q = i * cells + j;
                let n = q * 2;
                assert(0 <= q && q + 1 <= cells * cells) by (nonlinear_arith)
                    requires
                        q == i * cells + j,
                        0 <= i < cells,
                        0 <= j < cells,
                ;
                vstd::arithmetic::div_mod::lemma_fundamental_div_mod_converse(q, cells as int, i as int, j as int);
                assert((2 * j + 1) * step <= 159 * 32 && (2 * i + 1) * step <= 159 * 32) by (nonlinear_arith)
                    requires
                        0 <= i < 80,
                        0 <= j < 80,
                        0 < step <= 32,
                ;
                assert(n / 2 == q && (n + 1) / 2 == q);
                assert(all[n] == prior_at(step as int, i as int, j as int, small as int));
                assert(all[n + 1] == prior_at(step as int, i as int, j as int, large as int));
                assert(all.take(n + 2) =~= all.take(n).push(all[n]).push(all[n + 1]));
                assert((i * cells + (j + 1)) * 2 == n + 2) by (nonlinear_arith)
                    requires
                        n == (i * cells + j) * 2,
                ;
            }
            let cx2 = (2 * j + 1) * step;
            let cy2 = (2 * i + 1) * step;
            let ghost prior = priors@;
            priors.push(Prior { cx2, cy2, size: small });
            priors.push(Prior { cx2, cy2, size: large });
            assert(priors@ =~= before + all.take((i * cells + (j + 1)) * 2));
            j += 1;
        }
        assert((i * cells + cells) * 2 == (i + 1) * cells * 2) by (nonlinear_arith);
        i += 1;
    }
    assert(all.take(cells * cells * 2) =~= all);
}

/// The anchors of the plate detector.
pub fn generate_priors() -> (priors: Vec<Prior>)
    ensures
        priors@ == all_priors(),
        priors.len() == 16800,
{
    let mut priors: Vec<Prior> = Vec::with_capacity(16800);
    push_layer(&mut priors, 8, 80, 24, 48);
    push_layer(&mut priors, 16, 40, 96, 192);
    push_layer(&mut priors, 32, 20, 384, 768);
    assert(priors@ =~= all_priors());
    priors
}

/// The anchors stand in three layers, the finest first. In a layer of square cells they stand
/// row by row, in a row from left to right, and each cell has a small one before a large one,
/// both around the centre of the cell.
pub proof fn anchors_stand_in_the_middle_of_their_cells(row: int, column: int, k: int)
    requires
        0 <= row,
        0 <= column,
        0 <= k < 2,
    ensures
        row < 80 && column < 80 ==> ({
            let p = all_priors()[(80 * row + column) * 2 + k];
            p.cx2 == 16 * column + 8 && p.cy2 == 16 * row + 8 && p.size == if k == 0 {
                24int
            } else {
                48int
            }
        }),
        row < 40 && column < 40 ==> ({
            let p = all_priors()[12800 + (40 * row + column) * 2 + k];
            p.cx2 == 32 * column + 16 && p.cy2 == 32 * row + 16 && p.size == if k == 0 {
                96int
            } else {
                192int
            }
        }),
        row < 20 && column < 20 ==> ({
            let p = all_priors()[16000 + (20 * row + column) * 2 + k];
            p.cx2 == 64 * column + 32 && p.cy2 == 64 * row + 32 && p.size == if k == 0 {
                384int
            } else {
                768int
            }
        }),
        all_priors().len() == 16800,
{
    let (a, b, c) = (layer(8, 80, 24, 48), layer(16, 40, 96, 192), layer(32, 20, 384, 768));
    assert(a.len() == 12800 && b.len() == 3200 && c.len() == 800);
    if row < 80 && column < 80 {
        let n = (80 * row + column) * 2 + k;
        assert(n / 2 == 80 * row + column && n % 2 == k && (n / 2) / 80 == row && (n / 2) % 80 == column);
        assert(all_priors()[n] == a[n]);
    }
    if row < 40 && column < 40 {
        let n = (40 * row + column) * 2 + k;
        assert(n / 2 == 40 * row + column && n % 2 == k && (n / 2) / 40 == row && (n / 2) % 40 == column);
        assert(all_priors()[12800 + n] == b[n]);
    }
    if row < 20 && column < 20 {
        let n = (20 * row + column) * 2 + k;
        assert(n / 2 == 20 * row + column && n % 2 == k && (n / 2) / 20 == row && (n / 2) % 20 == column);
        assert(all_priors()[16000 + n] == c[n]);
    }
}

} // verus!
