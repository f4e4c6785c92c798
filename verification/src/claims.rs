//! The invariant between the grid and what stands on it: a cell is taken
//! exactly if something claims it, and nothing shares a cell.

use vstd::prelude::*;

use crate::agent::{free_in, shifted};
use crate::grid::{cell_at, cell_index, lemma_cell_at, lemma_cell_index};
use crate::location::Location;
use crate::{COLS, ROWS};

verus! {

/// The grid `cells` and the cells in `claims`, one for each thing that stands
/// on the grid, agree: every claim is a cell of the grid, no cell is claimed
/// twice, and a cell is taken exactly if it is claimed.
pub open spec fn consistent(cells: Seq<bool>, claims: Seq<Location>) -> bool {
    &&& cells.len() == COLS * ROWS
    &&& forall|i: int| 0 <= i < claims.len() ==> (#[trigger] claims[i]).in_bounds()
    &&& forall|i: int, j: int|
        0 <= i < j < claims.len() ==> #[trigger] claims[i] != #[trigger] claims[j]
    &&& forall|l: Location|
        l.in_bounds() ==> (cells[cell_index(l)] <==> #[trigger] claims.contains(l))
}

/// What stands on a free cell of a consistent grid claims a cell that no
/// other claims.
pub proof fn lemma_free_is_unclaimed(cells: Seq<bool>, claims: Seq<Location>, l: Location)
    requires
        consistent(cells, claims),
        free_in(cells, l),
    ensures
        forall|i: int| 0 <= i < claims.len() ==> #[trigger] claims[i] != l,
{
    assert forall|i: int| 0 <= i < claims.len() implies #[trigger] claims[i] != l by {
        if claims[i] == l {
            assert(claims.contains(l));
        }
    }
}

/// A new claim on a free cell, which is then marked, keeps grid and claims
/// consistent.
pub proof fn lemma_claim_added(cells: Seq<bool>, claims: Seq<Location>, l: Location)
    requires
        consistent(cells, claims),
        free_in(cells, l),
    ensures
        consistent(cells.update(cell_index(l), true), claims.push(l)),
{
    let cells2 = cells.update(cell_index(l), true);
    let claims2 = claims.push(l);
    lemma_free_is_unclaimed(cells, claims, l);
    lemma_cell_index(l, l);
    assert forall|x: Location| x.in_bounds() implies (cells2[cell_index(x)]
        <==> #[trigger] claims2.contains(x)) by {
        lemma_cell_index(x, l);
        if x == l {
            assert(claims2[claims.len() as int] == l);
        } else {
            if claims.contains(x) {
                let i = choose|i: int| 0 <= i < claims.len() && claims[i] == x;
                assert(claims2[i] == x);
            }
            if claims2.contains(x) {
                let i = choose|i: int| 0 <= i < claims2.len() && claims2[i] == x;
                assert(claims[i] == x);
            }
        }
    }
}

/// When the `k`-th claim moves to a free cell, and the grid follows, grid and
/// claims stay consistent.
pub proof fn lemma_claim_moved(cells: Seq<bool>, claims: Seq<Location>, k: int, onto: Location)
    requires
        consistent(cells, claims),
        0 <= k < claims.len(),
        free_in(cells, onto),
    ensures
        consistent(shifted(cells, claims[k], onto), claims.update(k, onto)),
{
    let from = claims[k];
    let cells2 = shifted(cells, from, onto);
    let claims2 = claims.update(k, onto);
    lemma_free_is_unclaimed(cells, claims, onto);
    lemma_cell_index(from, onto);
    assert forall|x: Location| x.in_bounds() implies (cells2[cell_index(x)]
        <==> #[trigger] claims2.contains(x)) by {
        lemma_cell_index(x, onto);
        lemma_cell_index(x, from);
        if x == onto {
            assert(claims2[k] == x);
        } else if x == from {
            if claims2.contains(x) {
                let i = choose|i: int| 0 <= i < claims2.len() && claims2[i] == x;
                assert(claims[i] == x);
            }
        } else {
            if claims.contains(x) {
                let i = choose|i: int| 0 <= i < claims.len() && claims[i] == x;
                assert(claims2[i] == x);
            }
            if claims2.contains(x) {
                let i = choose|i: int| 0 <= i < claims2.len() && claims2[i] == x;
                assert(claims[i] == x);
            }
        }
    }
}

/// When the `k`-th claim moves onto the cell of the `t`-th, and the `t`-th
/// moves to a cell that is free after that, and the grid follows, grid and
/// claims stay consistent.
pub proof fn lemma_claim_taken_over(
    cells: Seq<bool>,
    claims: Seq<Location>,
    k: int,
    t: int,
    onto: Location,
)
    requires
        consistent(cells, claims),
        0 <= k < claims.len(),
        0 <= t < claims.len(),
        k != t,
        free_in(shifted(cells, claims[k], claims[t]), onto),
    ensures
        consistent(
            shifted(cells, claims[k], claims[t]).update(cell_index(onto), true),
            claims.update(k, claims[t]).update(t, onto),
        ),
{
    let from = claims[k];
    let target = claims[t];
    let cells2 = shifted(cells, from, target).update(cell_index(onto), true);
    let claims2 = claims.update(k, target).update(t, onto);
    lemma_cell_index(from, target);
    lemma_cell_index(onto, target);
    lemma_cell_index(onto, from);
    assert(onto != target);
    assert forall|i: int| 0 <= i < claims.len() && i != k implies #[trigger] claims[i] != onto by {
        lemma_cell_index(claims[i], from);
        lemma_cell_index(claims[i], target);
        if claims[i] == onto {
            assert(claims.contains(onto));
        }
    }
    assert forall|x: Location| x.in_bounds() implies (cells2[cell_index(x)]
        <==> #[trigger] claims2.contains(x)) by {
        lemma_cell_index(x, onto);
        lemma_cell_index(x, from);
        lemma_cell_index(x, target);
        if x == onto {
            assert(claims2[t] == x);
        } else if x == target {
            assert(claims2[k] == x);
        } else if x == from {
            if claims2.contains(x) {
                let i = choose|i: int| 0 <= i < claims2.len() && claims2[i] == x;
                assert(claims[i] == x);
            }
        } else {
            if claims.contains(x) {
                let i = choose|i: int| 0 <= i < claims.len() && claims[i] == x;
                assert(claims2[i] == x);
            }
            if claims2.contains(x) {
                let i = choose|i: int| 0 <= i < claims2.len() && claims2[i] == x;
                assert(claims[i] == x);
            }
        }
    }
}

/// The claims say which cells are taken: two grids that are consistent with
/// the same claims are the same.
pub proof fn lemma_claims_fix_grid(cells: Seq<bool>, other: Seq<bool>, claims: Seq<Location>)
    requires
        consistent(cells, claims),
        consistent(other, claims),
    ensures
        cells == other,
{
    assert forall|i: int| 0 <= i < cells.len() implies cells[i] == other[i] by {
        lemma_cell_at(i);
        assert(cells[cell_index(cell_at(i))] <==> claims.contains(cell_at(i)));
    }
    assert(cells =~= other);
}

} // verus!
