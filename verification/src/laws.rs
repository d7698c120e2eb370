use vstd::prelude::*;

use crate::board::{goal_fits, is_balanced, red_count, Points, BLUE, RED};
use crate::game::{
    can_pick, click_in_grid, clicked_cell, close_district, deselect_model, finish_model,
    first_district, first_index, in_any_district, lemma_deselect_keeps_wf, lemma_finish_keeps_wf,
    lemma_select_keeps_wf, next_fits, pick, red_districts, red_in, select_model, wf, wins,
    Cell, GameView,
};
use crate::outline::{outline, Edge, Side};
use crate::grid::MAX_LEVEL;
use crate::grid::side_for_level;

verus! {

/// A click that misses the grid changes nothing, left or right.
pub proof fn lemma_off_grid_click_changes_nothing(v: GameView, col: i64, row: i64)
    requires
        wf(v),
        !click_in_grid(v, col, row),
    ensures
        select_model(v, col, row) == v,
        deselect_model(v, col, row) == v,
{
}

/// Right-clicking the cell that a left click has just added to the
/// district being drawn takes it out again, leaving the game as it was
/// (when that cell did not finish the district).
pub proof fn lemma_deselect_undoes_select(v: GameView, col: i64, row: i64)
    requires
        wf(v),
        can_pick(v, col, row),
        v.selected.len() + 1 < v.height,
    ensures
        deselect_model(select_model(v, col, row), col, row) == v,
{
    let c = clicked_cell(col, row);
    let picked = select_model(v, col, row);
    assert(picked == pick(v, col, row));
    assert(picked.selected == v.selected.push(c));
    let n = v.selected.len() as int;
    assert(picked.selected[n] == c);
    assert(forall|j: int| 0 <= j < n ==> picked.selected[j] == v.selected[j]);
    let i = first_index(picked.selected, c);
    assert(0 <= i < picked.selected.len() && picked.selected[i] == c);
    if i < n {
        assert(v.selected[i] == c);
        assert(v.selected.contains(c));
    }
    assert(picked.selected.remove(n) =~= v.selected);
    let back = deselect_model(picked, col, row);
    assert(back.selected == v.selected);
    assert(back.districts == v.districts);
    assert(back =~= v);
}

/// Right-clicking a cell of a drawn district undoes that district: the cell
/// is then in no district, one district fewer is left, and a left click can
/// pick the cell again.
pub proof fn lemma_right_click_frees_cell(v: GameView, col: i64, row: i64)
    requires
        wf(v),
        click_in_grid(v, col, row),
        in_any_district(v.districts, clicked_cell(col, row)),
    ensures
        !in_any_district(deselect_model(v, col, row).districts, clicked_cell(col, row)),
        deselect_model(v, col, row).districts.len() == v.districts.len() - 1,
        can_pick(deselect_model(v, col, row), col, row),
{
    let c = clicked_cell(col, row);
    let after = deselect_model(v, col, row);
    let d = first_district(v.districts, c);
    assert(0 <= d < v.districts.len() && v.districts[d].0.contains(c));
    if v.selected.contains(c) {
        let k = choose|k: int| 0 <= k < v.selected.len() && v.selected[k] == c;
        assert(!in_any_district(v.districts, v.selected[k]));
    }
    assert(after.selected == v.selected);
    assert(after.districts == v.districts.remove(d));
    if in_any_district(after.districts, c) {
        let j = choose|j: int|
            0 <= j < after.districts.len() && (#[trigger] after.districts[j]).0.contains(c);
        let j0 = if j < d {
            j
        } else {
            j + 1
        };
        assert(after.districts[j] == v.districts[j0]);
        let k = choose|k: int| 0 <= k < v.districts[d].0.len() && v.districts[d].0[k] == c;
        let l = choose|l: int| 0 <= l < v.districts[j0].0.len() && v.districts[j0].0[l] == c;
        assert(v.districts[d].0[k] != v.districts[j0].0[l]);
    }
}

/// The grid is square with an odd side of at least 3, and it never shrinks
/// from one level to the next.
pub proof fn lemma_grid_grows(level: int)
    requires
        0 <= level,
    ensures
        side_for_level(level) >= 3,
        side_for_level(level) % 2 == 1,
        side_for_level(level + 1) >= side_for_level(level),
        side_for_level(level + 2) == side_for_level(level) + 2,
{
}

/// Clicks on the grid never change the level, the grid, the voters or the
/// goal, and a left click keeps every district drawn before it, in order.
pub proof fn lemma_clicks_keep_the_level(v: GameView, col: i64, row: i64)
    requires
        wf(v),
    ensures
        select_model(v, col, row).level == v.level,
        select_model(v, col, row).width == v.width,
        select_model(v, col, row).height == v.height,
        select_model(v, col, row).go_for == v.go_for,
        select_model(v, col, row).points == v.points,
        select_model(v, col, row).districts.take(v.districts.len() as int) == v.districts,
        deselect_model(v, col, row).level == v.level,
        deselect_model(v, col, row).width == v.width,
        deselect_model(v, col, row).height == v.height,
        deselect_model(v, col, row).go_for == v.go_for,
        deselect_model(v, col, row).points == v.points,
{
    let after = select_model(v, col, row);
    let picked = pick(v, col, row);
    assert(picked.districts == v.districts);
    assert(after.districts.take(v.districts.len() as int) =~= v.districts);
}

/// Whatever the player clicks, left (with or without the finishing button)
/// and then right, the game stays well formed: every district full, no cell
/// in two districts, each district of its majority colour, no more
/// districts than the grid is high. This holds of every click but a winning
/// press at the last level, where the next grid would not fit.
pub proof fn lemma_clicks_keep_wf(
    v: GameView,
    col: i64,
    row: i64,
    on_done: bool,
    next: Option<(Seq<Points>, u8)>,
    right_col: i64,
    right_row: i64,
)
    requires
        wf(v),
        v.level < MAX_LEVEL || !wins(v, on_done),
        next_fits(v, next),
    ensures
        wf(select_model(finish_model(v, on_done, next), col, row)),
        wf(deselect_model(select_model(finish_model(v, on_done, next), col, row), right_col, right_row)),
        wf(deselect_model(v, right_col, right_row)),
{
    lemma_finish_keeps_wf(v, on_done, next);
    let u = finish_model(v, on_done, next);
    lemma_select_keeps_wf(u, col, row);
    lemma_deselect_keeps_wf(select_model(u, col, row), right_col, right_row);
    lemma_deselect_keeps_wf(v, right_col, right_row);
}

/// A left click a second time on the same cell changes nothing more.
pub proof fn lemma_select_twice(v: GameView, col: i64, row: i64)
    requires
        wf(v),
    ensures
        select_model(select_model(v, col, row), col, row) == select_model(v, col, row),
{
    let c = clicked_cell(col, row);
    let w = select_model(v, col, row);
    let p = pick(v, col, row);
    if can_pick(v, col, row) {
        let n = v.selected.len() as int;
        assert(p.selected[n] == c);
        if p.selected.len() == p.height {
            assert(w == close_district(p));
            let last = w.districts.len() - 1;
            assert(w.districts[last].0 == p.selected);
            assert(w.districts[last].0.contains(c));
            assert(in_any_district(w.districts, c));
        } else {
            assert(w.selected.contains(c));
        }
        assert(!can_pick(w, col, row));
    }
}

/// A right click a second time on the same cell changes nothing more.
pub proof fn lemma_deselect_twice(v: GameView, col: i64, row: i64)
    requires
        wf(v),
    ensures
        deselect_model(deselect_model(v, col, row), col, row) == deselect_model(v, col, row),
{
    let w = deselect_model(v, col, row);
    if click_in_grid(v, col, row) {
        let c = clicked_cell(col, row);
        if v.selected.contains(c) {
            let i = first_index(v.selected, c);
            let k = choose|k: int| 0 <= k < v.selected.len() && v.selected[k] == c;
            assert(forall|j: int| 0 <= j < k ==> v.selected[j] != c);
            assert(0 <= i < v.selected.len() && v.selected[i] == c);
            if w.selected.contains(c) {
                let m = choose|m: int| 0 <= m < w.selected.len() && w.selected[m] == c;
                if m < i {
                    assert(v.selected[m] == c);
                } else {
                    assert(v.selected[m + 1] == c);
                }
            }
        }
        if in_any_district(v.districts, c) {
            lemma_right_click_frees_cell(v, col, row);
        } else {
            assert(w.districts == v.districts);
        }
        assert(!w.selected.contains(c));
        assert(!in_any_district(w.districts, c));
        assert(deselect_model(w, col, row) =~= w);
    }
}

/// Holding a button down repeats the same click; after the first one, the
/// repeats change nothing. For the left button this holds when a winning
/// press did get its next grid, and when the finishing button lies off the
/// grid (left of it, as drawn).
pub proof fn lemma_repeated_click_changes_nothing(
    v: GameView,
    col: i64,
    row: i64,
    on_done: bool,
    first: Option<(Seq<Points>, u8)>,
    again: Option<(Seq<Points>, u8)>,
)
    requires
        wf(v),
        v.level < MAX_LEVEL || !wins(v, on_done),
        next_fits(v, first),
        wins(v, on_done) ==> first is Some,
        on_done ==> col < 1,
    ensures
        ({
            let w = select_model(finish_model(v, on_done, first), col, row);
            select_model(finish_model(w, on_done, again), col, row) == w
        }),
        deselect_model(deselect_model(v, col, row), col, row) == deselect_model(v, col, row),
{
    lemma_finish_keeps_wf(v, on_done, first);
    let u = finish_model(v, on_done, first);
    let w = select_model(u, col, row);
    lemma_select_twice(u, col, row);
    lemma_deselect_twice(v, col, row);
    if on_done {
        assert(!click_in_grid(u, col, row));
        assert(w == u);
        if wins(v, on_done) {
            assert(u.districts.len() == 0);
        }
        assert(!wins(w, on_done));
    }
    assert(finish_model(w, on_done, again) == w);
}

/// A left click on any cell of the grid (column 1 to the width, row 1 to
/// the height) that is neither picked nor in a drawn district, while the
/// district being drawn is short of full, adds that cell at the end of the
/// district being drawn. When that makes it as long as the grid is high,
/// the district is finished: it is appended to the drawn districts, red
/// exactly when red voters stand in more than half of its cells, and a new
/// empty district is begun.
pub proof fn lemma_left_click_adds_the_cell(v: GameView, col: i64, row: i64)
    requires
        wf(v),
        1 <= col <= v.width,
        1 <= row <= v.height,
        !v.selected.contains((col as u8, row as u8)),
        forall|i: int| 0 <= i < v.districts.len() ==> !v.districts[i].0.contains((col as u8, row as u8)),
        v.selected.len() < v.height,
    ensures
        ({
            let c: Cell = (col as u8, row as u8);
            let after = select_model(v, col, row);
            let cells = v.selected.push(c);
            &&& after.level == v.level
            &&& after.points == v.points
            &&& cells.len() < v.height ==> after.selected == cells && after.districts == v.districts
            &&& cells.len() == v.height ==> {
                &&& after.selected.len() == 0
                &&& after.districts.len() == v.districts.len() + 1
                &&& after.districts.take(v.districts.len() as int) == v.districts
                &&& after.districts.last().0 == cells
                &&& (after.districts.last().1 == RED <==> 2 * red_in(v.points, cells) > cells.len())
                &&& (after.districts.last().1 == BLUE <==> 2 * red_in(v.points, cells) <= cells.len())
            }
        }),
{
    let c: Cell = (col as u8, row as u8);
    assert(!in_any_district(v.districts, c));
    let after = select_model(v, col, row);
    assert(after.districts.take(v.districts.len() as int) =~= v.districts) by {
        lemma_clicks_keep_the_level(v, col, row);
    }
}

/// Every drawn district of a well-formed game is red exactly when red voters
/// stand in more than half of its cells, and blue otherwise: a district of
/// three cells with two red voters is red.
pub proof fn lemma_district_colour_is_majority(v: GameView)
    requires
        wf(v),
    ensures
        forall|i: int|
            0 <= i < v.districts.len() ==> {
                &&& ((#[trigger] v.districts[i]).1 == RED <==> 2 * red_in(v.points, v.districts[i].0)
                    > v.districts[i].0.len())
                &&& (v.districts[i].1 == BLUE <==> 2 * red_in(v.points, v.districts[i].0)
                    <= v.districts[i].0.len())
            },
{
}

/// With every district drawn, pressing the finishing button wins exactly
/// when the goal side holds a strict majority of the districts: for a red
/// goal more than half of them red, for a blue goal fewer than half red.
pub proof fn lemma_win_is_majority_of_districts(v: GameView)
    requires
        wf(v),
        v.districts.len() == v.height,
    ensures
        wins(v, true) <==> ((v.go_for == RED && 2 * red_districts(v.districts) > v.height) || (
        v.go_for == BLUE && 2 * red_districts(v.districts) < v.height)),
        !wins(v, false),
{
}

/// A winning press with a grid drawn for the next level goes up exactly one
/// level, to a grid two cells wider and higher on every second level, on
/// the drawn voters and goal, with nothing picked or drawn yet.
pub proof fn lemma_win_goes_up_one_level(v: GameView, next: (Seq<Points>, u8))
    requires
        wf(v),
        wins(v, true),
        v.level < MAX_LEVEL,
    ensures
        ({
            let after = finish_model(v, true, Some(next));
            &&& after.level == v.level + 1
            &&& after.width == side_for_level(v.level + 1)
            &&& after.height == side_for_level(v.level + 1)
            &&& after.points == next.0
            &&& after.go_for == next.1
            &&& after.selected.len() == 0
            &&& after.districts.len() == 0
        }),
{
}

/// The outline of a group of cells holds a left edge of a cell of the group
/// exactly when the cell at column - 1 in the same row is outside the group,
/// a right edge when column + 1 is, a bottom edge when row - 1 is and a top
/// edge when row + 1 is; so no edge separates two neighbouring cells of the
/// same group.
pub proof fn lemma_outline_separates_neighbours(cells: Seq<Cell>, c: Cell)
    ensures
        outline(cells, cells.len() as int).contains(Edge { cell: c, side: Side::Left }) <==> (
        cells.contains(c) && !cells.contains(((c.0 - 1) as u8, c.1))),
        outline(cells, cells.len() as int).contains(Edge { cell: c, side: Side::Right }) <==> (
        cells.contains(c) && !cells.contains(((c.0 + 1) as u8, c.1))),
        outline(cells, cells.len() as int).contains(Edge { cell: c, side: Side::Bottom }) <==> (
        cells.contains(c) && !cells.contains((c.0, (c.1 - 1) as u8))),
        outline(cells, cells.len() as int).contains(Edge { cell: c, side: Side::Top }) <==> (
        cells.contains(c) && !cells.contains((c.0, (c.1 + 1) as u8))),
{
    crate::outline::lemma_outline_exact(cells, Edge { cell: c, side: Side::Left });
    crate::outline::lemma_outline_exact(cells, Edge { cell: c, side: Side::Right });
    crate::outline::lemma_outline_exact(cells, Edge { cell: c, side: Side::Bottom });
    crate::outline::lemma_outline_exact(cells, Edge { cell: c, side: Side::Top });
}

/// A right click on a cell of the grid (column 1 to the width, row 1 to the
/// height) takes exactly that cell out of the district being drawn, keeping
/// the others in order, and undoes exactly the drawn district holding it,
/// keeping the others in order; nothing else changes.
pub proof fn lemma_right_click_removes_the_cell(v: GameView, col: i64, row: i64)
    requires
        wf(v),
        1 <= col <= v.width,
        1 <= row <= v.height,
    ensures
        ({
            let c: Cell = (col as u8, row as u8);
            let after = deselect_model(v, col, row);
            &&& after.level == v.level && after.points == v.points && after.go_for == v.go_for
            &&& after.width == v.width && after.height == v.height
            &&& forall|k: int|
                0 <= k < v.selected.len() && v.selected[k] == c ==> after.selected
                    == v.selected.remove(k)
            &&& !v.selected.contains(c) ==> after.selected == v.selected
            &&& forall|d: int|
                0 <= d < v.districts.len() && (#[trigger] v.districts[d]).0.contains(c)
                    ==> after.districts == v.districts.remove(d)
            &&& (forall|d: int|
                0 <= d < v.districts.len() ==> !(#[trigger] v.districts[d]).0.contains(c))
                ==> after.districts == v.districts
        }),
{
    let c: Cell = (col as u8, row as u8);
    let after = deselect_model(v, col, row);
    assert forall|k: int|
        0 <= k < v.selected.len() && v.selected[k] == c implies after.selected == v.selected.remove(
        k,
    ) by {
        let i = first_index(v.selected, c);
        assert(v.selected.contains(c));
        assert(forall|j: int| 0 <= j < k ==> v.selected[j] != c);
        assert(0 <= i < v.selected.len() && v.selected[i] == c);
        assert(i == k);
    }
    assert forall|d: int|
        0 <= d < v.districts.len() && (#[trigger] v.districts[d]).0.contains(c) implies after.districts
        == v.districts.remove(d) by {
        assert(in_any_district(v.districts, c));
        let k = first_district(v.districts, c);
        if k != d {
            let l = choose|l: int| 0 <= l < v.districts[d].0.len() && v.districts[d].0[l] == c;
            assert(0 <= k < v.districts.len() && v.districts[k].0.contains(c));
            let m = choose|m: int| 0 <= m < v.districts[k].0.len() && v.districts[k].0[m] == c;
            assert(v.districts[d].0[l] != v.districts[k].0[m]);
        }
    }
}

/// The finishing button never wins while a district is still to be drawn,
/// nor when it was not pressed.
pub proof fn lemma_no_win_before_every_district(v: GameView, on_done: bool)
    requires
        v.districts.len() != v.height || !on_done,
    ensures
        !wins(v, on_done),
{
}

/// The grid of level 0 and 1 is 3 x 3; an odd level keeps the size of the
/// even level before it, and each even level is two cells wider and higher
/// than the one two levels before.
pub proof fn lemma_grid_sizes(level: int)
    requires
        0 <= level,
    ensures
        side_for_level(0) == 3,
        side_for_level(1) == 3,
        side_for_level(2 * level + 1) == side_for_level(2 * level),
        side_for_level(2 * level + 2) == side_for_level(2 * level) + 2,
{
}

/// A grid is balanced exactly when at least two fifths and at most three
/// fifths of its voters are red.
pub proof fn lemma_balance_is_two_to_three_fifths(red: int, cells: int)
    ensures
        is_balanced(red, cells) <==> (5 * red >= 2 * cells && 5 * red <= 3 * cells),
{
}

/// The side the player must make win is the minority side: blue when more
/// than half the voters are red, red when fewer than half are.
pub proof fn lemma_goal_is_the_minority(goal: u8, red: int, cells: int)
    requires
        goal_fits(goal, red, cells),
    ensures
        2 * red > cells ==> goal == BLUE,
        2 * red < cells ==> goal == RED,
        goal == BLUE || goal == RED,
{
}

/// The red count of a grid is the number of its red voters.
pub proof fn lemma_red_count_counts_red_voters(points: Seq<Points>)
    requires
        forall|i: int| 0 <= i < points.len() ==> (#[trigger] points[i]).color < 2,
    ensures
        red_count(points) == points.filter(|p: Points| p.color == RED).len(),
    decreases points.len(),
{
    reveal(Seq::filter);
    if points.len() > 0 {
        let rest = points.drop_last();
        assert forall|i: int| 0 <= i < rest.len() implies (#[trigger] rest[i]).color < 2 by {
            assert(rest[i] == points[i]);
        }
        lemma_red_count_counts_red_voters(rest);
        assert(points.last().color < 2);
    }
}

/// The red voters of a district are the red voters whose cell, counted
/// from 1 (their position plus one in each direction), is one of its cells.
pub proof fn lemma_red_in_counts_red_voters_of_the_cells(points: Seq<Points>, cells: Seq<Cell>)
    requires
        forall|i: int| 0 <= i < points.len() ==> (#[trigger] points[i]).color < 2,
    ensures
        red_in(points, cells) == points.filter(
            |p: Points| p.color == RED && cells.contains(((p.pos.0 + 1) as u8, (p.pos.1 + 1) as u8)),
        ).len(),
    decreases points.len(),
{
    reveal(Seq::filter);
    if points.len() > 0 {
        let rest = points.drop_last();
        assert forall|i: int| 0 <= i < rest.len() implies (#[trigger] rest[i]).color < 2 by {
            assert(rest[i] == points[i]);
        }
        lemma_red_in_counts_red_voters_of_the_cells(rest, cells);
        assert(points.last().color < 2);
    }
}

/// The number of red districts is the number of drawn districts coloured
/// red.
pub proof fn lemma_red_districts_counts_red_districts(districts: Seq<(Seq<Cell>, u8)>)
    requires
        forall|i: int| 0 <= i < districts.len() ==> (#[trigger] districts[i]).1 < 2,
    ensures
        red_districts(districts) == districts.filter(|d: (Seq<Cell>, u8)| d.1 == RED).len(),
    decreases districts.len(),
{
    reveal(Seq::filter);
    if districts.len() > 0 {
        let rest = districts.drop_last();
        assert forall|i: int| 0 <= i < rest.len() implies (#[trigger] rest[i]).1 < 2 by {
            assert(rest[i] == districts[i]);
        }
        lemma_red_districts_counts_red_districts(rest);
        assert(districts.last().1 < 2);
    }
}

} // verus!
