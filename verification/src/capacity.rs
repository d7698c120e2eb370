//! How many cells the districts can take: never more than the grid has,
//! which bounds the number of districts by the height of the grid.

use vstd::prelude::*;
use vstd::seq_lib::lemma_no_dup_in_concat;
use vstd::set_lib::{lemma_int_range, lemma_len_subset, set_int_range};

use crate::game::{
    cell_in_grid, districts_disjoint, in_any_district, valid_cells, Cell, GameView,
};

verus! {

/// The cells of all drawn districts, district after district.
pub open spec fn all_cells(districts: Seq<(Seq<Cell>, u8)>) -> Seq<Cell>
    decreases districts.len(),
{
    if districts.len() == 0 {
        Seq::empty()
    } else {
        all_cells(districts.drop_last()) + districts.last().0
    }
}

/// Index of cell `c` when a grid `height` high is read column by column,
/// from 0.
pub open spec fn cell_index(c: Cell, height: int) -> int {
    (c.0 - 1) * height + (c.1 - 1)
}

proof fn lemma_index_step(a: int, a2: int, b2: int, height: int)
    by (nonlinear_arith)
    requires
        0 <= a < a2,
        0 <= b2,
        0 <= height,
    ensures
        a * height + height <= a2 * height + b2,
{
}

/// Two cells of a grid `height` high with the same index are the same cell.
proof fn lemma_cell_index_injective(a: int, b: int, a2: int, b2: int, height: int)
    requires
        0 <= a,
        0 <= a2,
        0 <= b < height,
        0 <= b2 < height,
        a * height + b == a2 * height + b2,
    ensures
        a == a2,
        b == b2,
{
    if a < a2 {
        lemma_index_step(a, a2, b2, height);
    } else if a2 < a {
        lemma_index_step(a2, a, b, height);
    }
}

proof fn lemma_cell_index_range(a: int, b: int, width: int, height: int)
    by (nonlinear_arith)
    requires
        0 <= a < width,
        0 <= b < height,
    ensures
        0 <= a * height + b < width * height,
{
}

proof fn lemma_area_nonnegative(width: int, height: int)
    by (nonlinear_arith)
    requires
        0 <= width,
        0 <= height,
    ensures
        0 <= width * height,
{
}

/// A grid `width` x `height` has room for no more than `width * height`
/// distinct cells.
pub proof fn lemma_grid_cells_bound(cells: Seq<Cell>, width: int, height: int)
    requires
        0 <= width,
        0 <= height,
        valid_cells(cells, width, height),
    ensures
        cells.len() <= width * height,
{
    lemma_area_nonnegative(width, height);
    let indices = cells.map_values(|c: Cell| cell_index(c, height));
    assert forall|i: int, j: int|
        0 <= i < indices.len() && 0 <= j < indices.len() && i != j implies indices[i]
        != indices[j] by {
        assert(cell_in_grid(cells[i], width, height));
        assert(cell_in_grid(cells[j], width, height));
        if indices[i] == indices[j] {
            lemma_cell_index_injective(
                cells[i].0 - 1,
                cells[i].1 - 1,
                cells[j].0 - 1,
                cells[j].1 - 1,
                height,
            );
            assert(cells[i] == cells[j]);
        }
    }
    assert(indices.no_duplicates());
    indices.unique_seq_to_set();
    lemma_int_range(0, width * height);
    assert forall|x: int| indices.to_set().contains(x) implies set_int_range(
        0,
        width * height,
    ).contains(x) by {
        let i = choose|i: int| 0 <= i < indices.len() && indices[i] == x;
        assert(cell_in_grid(cells[i], width, height));
        lemma_cell_index_range(cells[i].0 - 1, cells[i].1 - 1, width, height);
    }
    lemma_len_subset(indices.to_set(), set_int_range(0, width * height));
}

proof fn lemma_count_step(n: int, height: int)
    by (nonlinear_arith)
    ensures
        (n + 1) * height == n * height + height,
{
}

/// The cells of the drawn districts are distinct cells of the grid, `height`
/// of them per district, and are exactly the cells that lie in a district.
pub proof fn lemma_all_cells(districts: Seq<(Seq<Cell>, u8)>, width: int, height: int)
    requires
        forall|i: int|
            0 <= i < districts.len() ==> {
                &&& valid_cells((#[trigger] districts[i]).0, width, height)
                &&& districts[i].0.len() == height
            },
        districts_disjoint(districts),
    ensures
        valid_cells(all_cells(districts), width, height),
        all_cells(districts).len() == districts.len() * height,
        forall|c: Cell| all_cells(districts).contains(c) <==> in_any_district(districts, c),
    decreases districts.len(),
{
    if districts.len() == 0 {
        assert forall|c: Cell| !in_any_district(districts, c) by {
        }
    } else {
        let n = districts.len();
        let pre = districts.drop_last();
        let last = districts.last().0;
        assert forall|i: int| 0 <= i < pre.len() implies {
            &&& valid_cells((#[trigger] pre[i]).0, width, height)
            &&& pre[i].0.len() == height
        } by {
            assert(pre[i] == districts[i]);
        }
        assert(districts_disjoint(pre)) by {
            assert forall|i: int, j: int, k: int, l: int|
                0 <= i < pre.len() && 0 <= j < pre.len() && i != j && 0 <= k < pre[i].0.len()
                    && 0 <= l < pre[j].0.len() implies #[trigger] pre[i].0[k]
                != #[trigger] pre[j].0[l] by {
                assert(pre[i] == districts[i]);
                assert(pre[j] == districts[j]);
            }
        }
        lemma_all_cells(pre, width, height);
        let before = all_cells(pre);
        assert(valid_cells(districts[n - 1].0, width, height));
        assert forall|i: int, j: int|
            0 <= i < before.len() && 0 <= j < last.len() implies before[i] != last[j] by {
            assert(before.contains(before[i]));
            assert(in_any_district(pre, before[i]));
            let d = choose|d: int| 0 <= d < pre.len() && (#[trigger] pre[d]).0.contains(before[i]);
            let k = choose|k: int| 0 <= k < pre[d].0.len() && pre[d].0[k] == before[i];
            assert(pre[d] == districts[d]);
            assert(districts[d].0[k] != districts[n - 1].0[j]);
        }
        lemma_no_dup_in_concat(before, last);
        lemma_count_step(pre.len() as int, height);
        let all = all_cells(districts);
        assert(all == before + last);
        assert forall|i: int| 0 <= i < all.len() implies cell_in_grid(
            #[trigger] all[i],
            width,
            height,
        ) by {
            if i < before.len() {
                assert(all[i] == before[i]);
            } else {
                assert(all[i] == last[i - before.len()]);
            }
        }
        assert forall|c: Cell| all.contains(c) <==> in_any_district(districts, c) by {
            if all.contains(c) {
                let i = choose|i: int| 0 <= i < all.len() && all[i] == c;
                if i < before.len() {
                    assert(before.contains(c));
                    assert(in_any_district(pre, c));
                    let d = choose|d: int|
                        0 <= d < pre.len() && (#[trigger] pre[d]).0.contains(c);
                    assert(pre[d] == districts[d]);
                } else {
                    assert(last[i - before.len()] == c);
                    assert(districts[n - 1].0.contains(c));
                }
            }
            if in_any_district(districts, c) {
                let d = choose|d: int|
                    0 <= d < districts.len() && (#[trigger] districts[d]).0.contains(c);
                if d < n - 1 {
                    assert(pre[d] == districts[d]);
                    assert(in_any_district(pre, c));
                    let i = choose|i: int| 0 <= i < before.len() && before[i] == c;
                    assert(all[i] == c);
                } else {
                    let i = choose|i: int| 0 <= i < last.len() && last[i] == c;
                    assert(all[before.len() + i] == c);
                }
            }
        }
    }
}

/// However the player has drawn, the districts and the district being drawn
/// hold no more cells than the grid has.
pub proof fn lemma_cells_in_use(v: GameView)
    requires
        forall|i: int|
            0 <= i < v.districts.len() ==> {
                &&& valid_cells((#[trigger] v.districts[i]).0, v.width as int, v.height as int)
                &&& v.districts[i].0.len() == v.height
            },
        districts_disjoint(v.districts),
        valid_cells(v.selected, v.width as int, v.height as int),
        forall|k: int|
            0 <= k < v.selected.len() ==> !in_any_district(v.districts, #[trigger] v.selected[k]),
    ensures
        v.districts.len() * v.height + v.selected.len() <= v.width * v.height,
{
    lemma_all_cells(v.districts, v.width as int, v.height as int);
    let drawn = all_cells(v.districts);
    assert forall|i: int, j: int|
        0 <= i < drawn.len() && 0 <= j < v.selected.len() implies drawn[i] != v.selected[j] by {
        assert(drawn.contains(drawn[i]));
        assert(!in_any_district(v.districts, v.selected[j]));
    }
    lemma_no_dup_in_concat(drawn, v.selected);
    let used = drawn + v.selected;
    assert forall|i: int| 0 <= i < used.len() implies cell_in_grid(
        #[trigger] used[i],
        v.width as int,
        v.height as int,
    ) by {
        if i < drawn.len() {
            assert(used[i] == drawn[i]);
        } else {
            assert(used[i] == v.selected[i - drawn.len()]);
        }
    }
    lemma_grid_cells_bound(used, v.width as int, v.height as int);
}

} // verus!
