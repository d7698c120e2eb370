use vstd::prelude::*;

use crate::board::{
    goal_fits, is_balanced, is_layout, layout_points, make_points, red_count, Points, BLUE, RED,
};
use crate::capacity::lemma_cells_in_use;
use crate::grid::{grid_size, side_for_level, MAX_LEVEL};

verus! {

/// A grid cell as the player sees it: column and row, both counted from 1
/// at the bottom left.
pub type Cell = (u8, u8);

/// The cells picked for the district being drawn.
pub struct Selected {
    pub pos: Vec<Cell>,
}

/// The districts drawn so far, each with its colour (0 blue, 1 red).
pub struct Selection {
    pub selections: Vec<(Vec<Cell>, u8)>,
}

/// The state of a game: the level, the grid it is played on, the side the
/// player must make win, the voters, the district being drawn and the
/// districts already drawn.
pub struct Game {
    level: u8,
    current_xy: (u8, u8),
    go_for: u8,
    points: Vec<Points>,
    selected: Selected,
    selection: Selection,
}

/// What a game is, as plain values.
pub struct GameView {
    pub level: u8,
    pub width: u8,
    pub height: u8,
    pub go_for: u8,
    pub points: Seq<Points>,
    pub selected: Seq<Cell>,
    pub districts: Seq<(Seq<Cell>, u8)>,
}

/// What a click, or a press of the finishing button, changed.
#[derive(Clone, Copy, Debug, PartialEq, Eq)]
pub struct ClickOutcome {
    /// The district being drawn changed.
    pub redraw_selected: bool,
    /// The list of finished districts changed.
    pub redraw_selection: bool,
    /// The level was won and the next one has begun.
    pub level_won: bool,
}

/// A drawn district as plain values: its cells and its colour.
pub open spec fn district_view(d: (Vec<Cell>, u8)) -> (Seq<Cell>, u8) {
    (d.0@, d.1)
}

impl View for Game {
    type V = GameView;

    closed spec fn view(&self) -> GameView {
        GameView {
            level: self.level,
            width: self.current_xy.0,
            height: self.current_xy.1,
            go_for: self.go_for,
            points: self.points@,
            selected: self.selected.pos@,
            districts: self.selection.selections@.map_values(|d: (Vec<Cell>, u8)| district_view(d)),
        }
    }
}

/// `c` lies on a `width` x `height` grid.
pub open spec fn cell_in_grid(c: Cell, width: int, height: int) -> bool {
    1 <= c.0 <= width && 1 <= c.1 <= height
}

/// `cells` are distinct cells of the grid.
pub open spec fn valid_cells(cells: Seq<Cell>, width: int, height: int) -> bool {
    &&& cells.no_duplicates()
    &&& forall|i: int| 0 <= i < cells.len() ==> cell_in_grid(#[trigger] cells[i], width, height)
}

/// The cell (counted from 1) of a voter (counted from 0).
pub open spec fn voter_cell(p: Points) -> Cell {
    ((p.pos.0 + 1) as u8, (p.pos.1 + 1) as u8)
}

/// Number of red voters of `points` that stand in `cells`.
pub open spec fn red_in(points: Seq<Points>, cells: Seq<Cell>) -> int
    decreases points.len(),
{
    if points.len() == 0 {
        0
    } else {
        red_in(points.drop_last(), cells) + if cells.contains(voter_cell(points.last())) {
            points.last().color as int
        } else {
            0
        }
    }
}

/// A district is red when red voters are a strict majority of its cells,
/// blue otherwise.
pub open spec fn district_color(points: Seq<Points>, cells: Seq<Cell>) -> u8 {
    if 2 * red_in(points, cells) > cells.len() {
        RED
    } else {
        BLUE
    }
}

/// Number of red districts.
pub open spec fn red_districts(districts: Seq<(Seq<Cell>, u8)>) -> int
    decreases districts.len(),
{
    if districts.len() == 0 {
        0
    } else {
        red_districts(districts.drop_last()) + districts.last().1
    }
}

/// `c` belongs to one of the drawn districts.
pub open spec fn in_any_district(districts: Seq<(Seq<Cell>, u8)>, c: Cell) -> bool {
    exists|i: int| 0 <= i < districts.len() && (#[trigger] districts[i]).0.contains(c)
}

/// No cell belongs to two districts.
pub open spec fn districts_disjoint(districts: Seq<(Seq<Cell>, u8)>) -> bool {
    forall|i: int, j: int, k: int, l: int|
        0 <= i < districts.len() && 0 <= j < districts.len() && i != j && 0 <= k
            < districts[i].0.len() && 0 <= l < districts[j].0.len() ==> #[trigger] districts[i].0[k]
            != #[trigger] districts[j].0[l]
}

/// Every reachable game satisfies this: the grid fits the level, the voters
/// fill it, the district being drawn is short of full, and the drawn
/// districts are full, apart from each other and from the one being drawn,
/// and coloured by their majority.
pub open spec fn wf(v: GameView) -> bool {
    &&& 1 <= v.level <= MAX_LEVEL
    &&& v.width == side_for_level(v.level as int)
    &&& v.height == side_for_level(v.level as int)
    &&& v.go_for < 2
    &&& is_layout(v.points, v.width as int, v.height as int)
    &&& valid_cells(v.selected, v.width as int, v.height as int)
    &&& v.selected.len() < v.height
    &&& forall|i: int|
        0 <= i < v.districts.len() ==> {
            &&& valid_cells((#[trigger] v.districts[i]).0, v.width as int, v.height as int)
            &&& v.districts[i].0.len() == v.height
            &&& v.districts[i].1 == district_color(v.points, v.districts[i].0)
        }
    &&& districts_disjoint(v.districts)
    &&& forall|k: int|
        0 <= k < v.selected.len() ==> !in_any_district(v.districts, #[trigger] v.selected[k])
    &&& v.districts.len() <= v.height
}

/// The state at the start of `level`, on the voters `points`, asking the
/// player to make `go_for` win.
pub open spec fn level_start(level: u8, points: Seq<Points>, go_for: u8) -> GameView {
    GameView {
        level,
        width: side_for_level(level as int) as u8,
        height: side_for_level(level as int) as u8,
        go_for,
        points,
        selected: Seq::empty(),
        districts: Seq::empty(),
    }
}

/// `points` and `go_for` may start a level on a `side` x `side` grid.
pub open spec fn fresh_level(points: Seq<Points>, go_for: u8, side: int) -> bool {
    &&& is_layout(points, side, side)
    &&& is_balanced(red_count(points), side * side)
    &&& goal_fits(go_for, red_count(points), side * side)
}

/// The cell a click at column `col`, row `row` lands on, once the click is
/// known to lie on the grid.
pub open spec fn clicked_cell(col: i64, row: i64) -> Cell {
    (col as u8, row as u8)
}

/// The click lies on the grid.
pub open spec fn click_in_grid(v: GameView, col: i64, row: i64) -> bool {
    1 <= col <= v.width && 1 <= row <= v.height
}

/// A left click at `(col, row)` adds that cell to the district being drawn:
/// it lies on the grid, is neither picked already nor part of a drawn
/// district, and the district being drawn is not full.
pub open spec fn can_pick(v: GameView, col: i64, row: i64) -> bool {
    &&& click_in_grid(v, col, row)
    &&& !v.selected.contains(clicked_cell(col, row))
    &&& v.selected.len() < v.height
    &&& !in_any_district(v.districts, clicked_cell(col, row))
}

/// The state after a left click has picked, or not, the cell under it.
pub open spec fn pick(v: GameView, col: i64, row: i64) -> GameView {
    if can_pick(v, col, row) {
        GameView { selected: v.selected.push(clicked_cell(col, row)), ..v }
    } else {
        v
    }
}

/// A district being drawn that has as many cells as the grid is high is
/// finished: it joins the drawn districts, with the colour of its majority,
/// and a new one is begun.
pub open spec fn close_district(v: GameView) -> GameView {
    if v.selected.len() == v.height {
        GameView {
            districts: v.districts.push((v.selected, district_color(v.points, v.selected))),
            selected: Seq::empty(),
            ..v
        }
    } else {
        v
    }
}

/// The state after a left click on the grid at `(col, row)`.
pub open spec fn select_model(v: GameView, col: i64, row: i64) -> GameView {
    close_district(pick(v, col, row))
}

/// The first place of `c` in `cells`.
pub open spec fn first_index(cells: Seq<Cell>, c: Cell) -> int {
    choose|i: int| 0 <= i < cells.len() && cells[i] == c && forall|j: int| 0 <= j < i ==> cells[j] != c
}

/// The first drawn district that holds `c`, or the number of districts when
/// none does.
pub open spec fn first_district(districts: Seq<(Seq<Cell>, u8)>, c: Cell) -> int {
    if in_any_district(districts, c) {
        choose|i: int|
            0 <= i < districts.len() && (#[trigger] districts[i]).0.contains(c) && forall|j: int|
                0 <= j < i ==> !(#[trigger] districts[j]).0.contains(c)
    } else {
        districts.len() as int
    }
}

/// The state after a right click at `(col, row)`: on the grid, the cell
/// leaves the district being drawn, and the drawn district holding it is
/// undone.
pub open spec fn deselect_model(v: GameView, col: i64, row: i64) -> GameView {
    if !click_in_grid(v, col, row) {
        v
    } else {
        let c = clicked_cell(col, row);
        GameView {
            selected: if v.selected.contains(c) {
                v.selected.remove(first_index(v.selected, c))
            } else {
                v.selected
            },
            districts: if in_any_district(v.districts, c) {
                v.districts.remove(first_district(v.districts, c))
            } else {
                v.districts
            },
            ..v
        }
    }
}

/// The player has reached the goal: the side named by `go_for` holds a
/// strict majority of the districts (red districts for red, the others for
/// blue).
pub open spec fn goal_met(v: GameView) -> bool {
    ||| v.go_for == BLUE && 2 * red_districts(v.districts) < v.height
    ||| v.go_for == RED && 2 * red_districts(v.districts) > v.height
}

/// Pressing the finishing button wins the level: every district is drawn
/// and the goal is met.
pub open spec fn wins(v: GameView, on_done: bool) -> bool {
    &&& on_done
    &&& v.districts.len() == v.height
    &&& goal_met(v)
}

/// A drawn next level as plain values: its voters and its goal.
pub open spec fn next_view(next: Option<(Vec<Points>, u8)>) -> Option<(Seq<Points>, u8)> {
    match next {
        Some(l) => Some((l.0@, l.1)),
        None => None,
    }
}

/// The state after the finishing button was pressed (`on_done`) with `next`
/// as the grid drawn for the next level: a win with a grid starts the next
/// level on it; anything else leaves the game as it was.
pub open spec fn finish_model(v: GameView, on_done: bool, next: Option<(Seq<Points>, u8)>) -> GameView {
    match next {
        Some(l) => if wins(v, on_done) {
            level_start((v.level + 1) as u8, l.0, l.1)
        } else {
            v
        },
        None => v,
    }
}

/// `next` may start the level after `v`: its voters fill the larger grid
/// and its goal is blue or red.
pub open spec fn next_fits(v: GameView, next: Option<(Seq<Points>, u8)>) -> bool {
    next matches Some(l) ==> {
        &&& is_layout(l.0, side_for_level(v.level + 1), side_for_level(v.level + 1))
        &&& l.1 < 2
    }
}

/// A copy of `cells`.
fn copy_cells(cells: &Vec<Cell>) -> (copy: Vec<Cell>)
    ensures
        copy@ == cells@,
{
    let mut copy: Vec<Cell> = Vec::new();
    let mut i: usize = 0;
    while i < cells.len()
        invariant
            i <= cells@.len(),
            copy@ == cells@.take(i as int),
        decreases cells@.len() - i,
    {
        copy.push(cells[i]);
        i = i + 1;
        proof {
            assert(copy@ =~= cells@.take(i as int));
        }
    }
    proof {
        assert(cells@.take(i as int) =~= cells@);
    }
    copy
}

/// Whether `cells` holds `c`.
pub fn cells_contain(cells: &Vec<Cell>, c: Cell) -> (found: bool)
    ensures
        found == cells@.contains(c),
{
    let mut i: usize = 0;
    while i < cells.len()
        invariant
            i <= cells@.len(),
            forall|j: int| 0 <= j < i ==> cells@[j] != c,
        decreases cells@.len() - i,
    {
        if cells[i].0 == c.0 && cells[i].1 == c.1 {
            return true;
        }
        i = i + 1;
    }
    false
}

proof fn lemma_red_in_bounds(points: Seq<Points>, cells: Seq<Cell>)
    requires
        forall|i: int| 0 <= i < points.len() ==> (#[trigger] points[i]).color < 2,
    ensures
        0 <= red_in(points, cells) <= points.len(),
    decreases points.len(),
{
    if points.len() > 0 {
        lemma_red_in_bounds(points.drop_last(), cells);
    }
}

/// Number of red voters of `points` standing in `cells`.
pub fn count_red_in(points: &Vec<Points>, cells: &Vec<Cell>) -> (red: u8)
    requires
        points@.len() <= 255,
        forall|i: int|
            0 <= i < points@.len() ==> {
                &&& (#[trigger] points@[i]).color < 2
                &&& points@[i].pos.0 < 255
                &&& points@[i].pos.1 < 255
            },
    ensures
        red == red_in(points@, cells@),
{
    let mut red: u8 = 0;
    let mut i: usize = 0;
    while i < points.len()
        invariant
            i <= points@.len() <= 255,
            forall|j: int|
                0 <= j < points@.len() ==> {
                    &&& (#[trigger] points@[j]).color < 2
                    &&& points@[j].pos.0 < 255
                    &&& points@[j].pos.1 < 255
                },
            red == red_in(points@.take(i as int), cells@),
        decreases points@.len() - i,
    {
        let p = points[i];
        proof {
            lemma_red_in_bounds(points@.take(i as int), cells@);
            assert(points@.take(i as int + 1).drop_last() =~= points@.take(i as int));
            assert(points@[i as int] == p);
        }
        let home: Cell = (p.pos.0 as u8 + 1, p.pos.1 as u8 + 1);
        if cells_contain(cells, home) {
            red = red + p.color;
        }
        i = i + 1;
    }
    proof {
        assert(points@.take(i as int) =~= points@);
    }
    red
}

proof fn lemma_small_area(width: int, height: int)
    by (nonlinear_arith)
    requires
        0 <= width <= 15,
        0 <= height <= 15,
    ensures
        width * height <= 225,
{
}

/// The grid of a well-formed game is at most 15 cells wide and high, so it
/// holds at most 225 voters.
pub proof fn lemma_wf_sizes(v: GameView)
    requires
        wf(v),
    ensures
        3 <= v.width <= 15,
        v.width == v.height,
        v.points.len() <= 225,
{
    lemma_small_area(v.width as int, v.height as int);
}

/// Every district left after at most one was removed is one of the
/// districts from before.
proof fn lemma_removed_district(
    before: Seq<(Seq<Cell>, u8)>,
    after: Seq<(Seq<Cell>, u8)>,
    i: int,
)
    requires
        after == before || exists|k: int| 0 <= k < before.len() && after == before.remove(k),
        0 <= i < after.len(),
    ensures
        exists|j: int| 0 <= j < before.len() && after[i] == before[j] && (after == before ==> j == i),
{
    if after == before {
        assert(after[i] == before[i]);
    } else {
        let k = choose|k: int| 0 <= k < before.len() && after == before.remove(k);
        if i < k {
            assert(after[i] == before[i]);
        } else {
            assert(after[i] == before[i + 1]);
        }
    }
}

proof fn lemma_fewer_districts(n: int, height: int)
    by (nonlinear_arith)
    requires
        0 < height,
        n * height + height <= height * height,
    ensures
        n + 1 <= height,
{
}

/// A left click on the grid keeps a game well formed.
pub proof fn lemma_select_keeps_wf(v: GameView, col: i64, row: i64)
    requires
        wf(v),
    ensures
        wf(select_model(v, col, row)),
{
    lemma_wf_sizes(v);
    let v1 = pick(v, col, row);
    if can_pick(v, col, row) {
        assert forall|k: int|
            0 <= k < v1.selected.len() implies !in_any_district(
            v1.districts,
            #[trigger] v1.selected[k],
        ) by {
            if k < v.selected.len() {
                assert(v1.selected[k] == v.selected[k]);
            }
        }
        assert(valid_cells(v1.selected, v1.width as int, v1.height as int));
    }
    lemma_cells_in_use(v1);
    if v1.selected.len() == v1.height {
        let v2 = close_district(v1);
        let n = v1.districts.len();
        lemma_fewer_districts(n as int, v.height as int);
        assert forall|i: int, j: int, k: int, l: int|
            0 <= i < v2.districts.len() && 0 <= j < v2.districts.len() && i != j && 0 <= k
                < v2.districts[i].0.len() && 0 <= l < v2.districts[j].0.len() implies #[trigger] v2.districts[i].0[k]
            != #[trigger] v2.districts[j].0[l] by {
            if i == n {
                assert(!in_any_district(v1.districts, v1.selected[k]));
                assert(v1.districts[j].0.contains(v2.districts[j].0[l]));
            } else if j == n {
                assert(!in_any_district(v1.districts, v1.selected[l]));
                assert(v1.districts[i].0.contains(v2.districts[i].0[k]));
            } else {
                assert(v2.districts[i] == v1.districts[i]);
                assert(v2.districts[j] == v1.districts[j]);
            }
        }
        assert forall|i: int| 0 <= i < v2.districts.len() implies {
            &&& valid_cells((#[trigger] v2.districts[i]).0, v2.width as int, v2.height as int)
            &&& v2.districts[i].0.len() == v2.height
            &&& v2.districts[i].1 == district_color(v2.points, v2.districts[i].0)
        } by {
            if i < n {
                assert(v2.districts[i] == v1.districts[i]);
            }
        }
        assert(wf(v2));
    }
}

/// On a well-formed game, the first place of a picked cell is where it
/// stands, and the first district holding a cell is the only one.
proof fn lemma_first_places(v: GameView, c: Cell)
    requires
        wf(v),
    ensures
        v.selected.contains(c) ==> {
            let i = first_index(v.selected, c);
            0 <= i < v.selected.len() && v.selected[i] == c
        },
        in_any_district(v.districts, c) ==> {
            let k = first_district(v.districts, c);
            &&& 0 <= k < v.districts.len()
            &&& v.districts[k].0.contains(c)
            &&& forall|j: int|
                0 <= j < v.districts.len() && j != k ==> !(#[trigger] v.districts[j]).0.contains(c)
        },
{
    if v.selected.contains(c) {
        let i = choose|i: int| 0 <= i < v.selected.len() && v.selected[i] == c;
        assert(forall|j: int| 0 <= j < i ==> v.selected[j] != c);
    }
    if in_any_district(v.districts, c) {
        let d = choose|d: int| 0 <= d < v.districts.len() && (#[trigger] v.districts[d]).0.contains(c);
        let l = choose|l: int| 0 <= l < v.districts[d].0.len() && v.districts[d].0[l] == c;
        assert forall|j: int|
            0 <= j < v.districts.len() && j != d implies !(#[trigger] v.districts[j]).0.contains(c) by {
            if v.districts[j].0.contains(c) {
                let m = choose|m: int| 0 <= m < v.districts[j].0.len() && v.districts[j].0[m] == c;
                assert(v.districts[d].0[l] != v.districts[j].0[m]);
            }
        }
        assert(forall|j: int| 0 <= j < d ==> !(#[trigger] v.districts[j]).0.contains(c));
        let k = first_district(v.districts, c);
        assert(0 <= k < v.districts.len() && v.districts[k].0.contains(c));
        if k != d {
            assert(!v.districts[k].0.contains(c));
        }
    }
}

/// A right click keeps a game well formed.
pub proof fn lemma_deselect_keeps_wf(v: GameView, col: i64, row: i64)
    requires
        wf(v),
    ensures
        wf(deselect_model(v, col, row)),
{
    let v2 = deselect_model(v, col, row);
    if click_in_grid(v, col, row) {
        let c = clicked_cell(col, row);
        lemma_first_places(v, c);
        if in_any_district(v.districts, c) {
            let k = first_district(v.districts, c);
            assert(v2.districts == v.districts.remove(k));
        }
    }
    assert forall|i: int| 0 <= i < v2.districts.len() implies {
        &&& valid_cells((#[trigger] v2.districts[i]).0, v2.width as int, v2.height as int)
        &&& v2.districts[i].0.len() == v2.height
        &&& v2.districts[i].1 == district_color(v2.points, v2.districts[i].0)
    } by {
        lemma_removed_district(v.districts, v2.districts, i);
    }
    assert forall|i: int, j: int, k: int, l: int|
        0 <= i < v2.districts.len() && 0 <= j < v2.districts.len() && i != j && 0 <= k
            < v2.districts[i].0.len() && 0 <= l < v2.districts[j].0.len() implies #[trigger] v2.districts[i].0[k]
        != #[trigger] v2.districts[j].0[l] by {
        lemma_removed_district(v.districts, v2.districts, i);
        lemma_removed_district(v.districts, v2.districts, j);
    }
    assert forall|k: int|
        0 <= k < v2.selected.len() implies !in_any_district(
        v2.districts,
        #[trigger] v2.selected[k],
    ) by {
        let c = v2.selected[k];
        assert(v.selected.contains(c));
        if in_any_district(v2.districts, c) {
            let d = choose|d: int|
                0 <= d < v2.districts.len() && (#[trigger] v2.districts[d]).0.contains(c);
            lemma_removed_district(v.districts, v2.districts, d);
        }
    }
    assert(valid_cells(v2.selected, v2.width as int, v2.height as int));
}

/// Pressing the finishing button keeps a game well formed, when the level
/// after it can be played and any grid drawn for it fits.
pub proof fn lemma_finish_keeps_wf(v: GameView, on_done: bool, next: Option<(Seq<Points>, u8)>)
    requires
        wf(v),
        v.level < MAX_LEVEL || !wins(v, on_done),
        next_fits(v, next),
    ensures
        wf(finish_model(v, on_done, next)),
{
    if wins(v, on_done) && next is Some {
        let u = finish_model(v, on_done, next);
        assert(u.districts =~= Seq::<(Seq<Cell>, u8)>::empty());
    }
}

impl Game {
    /// Level number, counted from 1.
    pub fn level(&self) -> (level: u8)
        ensures
            level == self@.level,
    {
        self.level
    }

    /// Width and height of the grid.
    pub fn size(&self) -> (size: (u8, u8))
        ensures
            size.0 == self@.width,
            size.1 == self@.height,
    {
        self.current_xy
    }

    /// The side the player must make win: 0 blue, 1 red.
    pub fn go_for(&self) -> (goal: u8)
        ensures
            goal == self@.go_for,
    {
        self.go_for
    }

    /// The voters of the grid.
    pub fn points(&self) -> (points: &Vec<Points>)
        ensures
            points@ == self@.points,
    {
        &self.points
    }

    /// The cells of the district being drawn, in the order they were picked.
    pub fn selected(&self) -> (cells: &Vec<Cell>)
        ensures
            cells@ == self@.selected,
    {
        &self.selected.pos
    }

    /// The districts drawn so far, in the order they were drawn.
    pub fn districts(&self) -> (districts: &Vec<(Vec<Cell>, u8)>)
        ensures
            districts@.map_values(|d: (Vec<Cell>, u8)| district_view(d)) == self@.districts,
    {
        &self.selection.selections
    }

    /// Whether `c` belongs to one of the drawn districts.
    fn in_district(&self, c: Cell) -> (found: bool)
        ensures
            found == in_any_district(self@.districts, c),
    {
        let ghost ds = self@.districts;
        let mut found = false;
        let mut i: usize = 0;
        while i < self.selection.selections.len()
            invariant
                ds == self@.districts,
                i <= self.selection.selections@.len(),
                found == exists|j: int| 0 <= j < i && (#[trigger] ds[j]).0.contains(c),
            decreases self.selection.selections@.len() - i,
        {
            proof {
                assert(ds[i as int] == district_view(self.selection.selections@[i as int]));
            }
            if cells_contain(&self.selection.selections[i].0, c) {
                found = true;
            }
            i = i + 1;
        }
        found
    }

    /// A left click on the grid at column `col`, row `row` (counted from 1;
    /// clicks off the grid are allowed and change nothing): the cell joins
    /// the district being drawn when it may, and a district that reaches the
    /// height of the grid is finished. The result tells whether the district
    /// being drawn changed and whether the list of districts did.
    pub fn select_cell(&mut self, col: i64, row: i64) -> (changed: (bool, bool))
        requires
            wf(old(self)@),
        ensures
            wf(final(self)@),
            final(self)@ == select_model(old(self)@, col, row),
            changed.0 == can_pick(old(self)@, col, row),
            changed.1 == (pick(old(self)@, col, row).selected.len() == old(self)@.height),
    {
        let ghost v0 = self@;
        proof {
            lemma_wf_sizes(v0);
        }
        let width: u8 = self.current_xy.0;
        let height: u8 = self.current_xy.1;
        let mut redraw_selected = false;
        if 1 <= col && col <= width as i64 && 1 <= row && row <= height as i64 {
            let c: Cell = (col as u8, row as u8);
            let taken = self.in_district(c);
            if !cells_contain(&self.selected.pos, c) && self.selected.pos.len() < height as usize
                && !taken {
                self.selected.pos.push(c);
                redraw_selected = true;
            }
        }
        let ghost v1 = self@;
        proof {
            assert(v1 =~= pick(v0, col, row));
        }
        let mut redraw_selection = false;
        if self.selected.pos.len() == height as usize {
            let red = count_red_in(&self.points, &self.selected.pos);
            let color: u8 = if 2 * (red as u16) > self.selected.pos.len() as u16 {
                RED
            } else {
                BLUE
            };
            let cells = copy_cells(&self.selected.pos);
            self.selection.selections.push((cells, color));
            self.selected.pos = Vec::new();
            redraw_selection = true;
            proof {
                assert(self@.districts =~= v1.districts.push(
                    (v1.selected, district_color(v1.points, v1.selected)),
                ));
                assert(self@ =~= close_district(v1));
            }
        }
        proof {
            lemma_select_keeps_wf(v0, col, row);
        }
        (redraw_selected, redraw_selection)
    }

    /// A right click at column `col`, row `row` (counted from 1; clicks off
    /// the grid change nothing): the cell leaves the district being drawn,
    /// and the drawn district that holds it is undone. The result tells
    /// whether the district being drawn changed and whether the list of
    /// districts did.
    pub fn deselect_cell(&mut self, col: i64, row: i64) -> (changed: (bool, bool))
        requires
            wf(old(self)@),
        ensures
            wf(final(self)@),
            final(self)@ == deselect_model(old(self)@, col, row),
            changed.0 == (click_in_grid(old(self)@, col, row) && old(self)@.selected.contains(
                clicked_cell(col, row),
            )),
            changed.1 == (click_in_grid(old(self)@, col, row) && in_any_district(
                old(self)@.districts,
                clicked_cell(col, row),
            )),
    {
        let ghost v0 = self@;
        let width: u8 = self.current_xy.0;
        let height: u8 = self.current_xy.1;
        let mut redraw_selected = false;
        let mut redraw_selection = false;
        if 1 <= col && col <= width as i64 && 1 <= row && row <= height as i64 {
            let c: Cell = (col as u8, row as u8);
            if cells_contain(&self.selected.pos, c) {
                let mut i: usize = 0;
                while i < self.selected.pos.len()
                    invariant
                        self@ == v0,
                        v0.selected.contains(c),
                        i <= v0.selected.len(),
                        forall|j: int| 0 <= j < i ==> v0.selected[j] != c,
                    ensures
                        i <= v0.selected.len(),
                        forall|j: int| 0 <= j < i ==> v0.selected[j] != c,
                        i < v0.selected.len() ==> v0.selected[i as int] == c,
                    decreases v0.selected.len() - i,
                {
                    if self.selected.pos[i].0 == c.0 && self.selected.pos[i].1 == c.1 {
                        break;
                    }
                    i = i + 1;
                }
                proof {
                    if i == v0.selected.len() {
                        let k = choose|k: int| 0 <= k < v0.selected.len() && v0.selected[k] == c;
                        assert(false);
                    }
                    assert(v0.selected[i as int] == c);
                    assert(first_index(v0.selected, c) == i);
                }
                self.selected.pos.remove(i);
                redraw_selected = true;
            }
            let ghost v1 = self@;
            let taken = self.in_district(c);
            if taken {
                let mut k: usize = 0;
                while k < self.selection.selections.len()
                    invariant
                        self@ == v1,
                        in_any_district(v1.districts, c),
                        k <= v1.districts.len(),
                        forall|j: int| 0 <= j < k ==> !(#[trigger] v1.districts[j]).0.contains(c),
                    ensures
                        k <= v1.districts.len(),
                        forall|j: int| 0 <= j < k ==> !(#[trigger] v1.districts[j]).0.contains(c),
                        k < v1.districts.len() ==> v1.districts[k as int].0.contains(c),
                    decreases v1.districts.len() - k,
                {
                    proof {
                        assert(v1.districts[k as int] == district_view(
                            self.selection.selections@[k as int],
                        ));
                    }
                    if cells_contain(&self.selection.selections[k].0, c) {
                        break;
                    }
                    k = k + 1;
                }
                proof {
                    if k == v1.districts.len() {
                        let d = choose|d: int|
                            0 <= d < v1.districts.len() && (#[trigger] v1.districts[d]).0.contains(c);
                        assert(false);
                    }
                    assert(v1.districts[k as int].0.contains(c));
                    assert(first_district(v1.districts, c) == k);
                }
                self.selection.selections.remove(k);
                redraw_selection = true;
                proof {
                    assert(self@.districts =~= v1.districts.remove(k as int));
                }
            }
        }
        proof {
            assert(self@ =~= deselect_model(v0, col, row));
            lemma_deselect_keeps_wf(v0, col, row);
        }
        (redraw_selected, redraw_selection)
    }

    /// Whether pressing the finishing button now (`on_done`) wins the level.
    pub fn done_wins(&self, on_done: bool) -> (won: bool)
        requires
            wf(self@),
        ensures
            won == wins(self@, on_done),
    {
        let ghost v = self@;
        let height: u8 = self.current_xy.1;
        if !on_done || self.selection.selections.len() != height as usize {
            return false;
        }
        let mut colors: u8 = 0;
        let mut i: usize = 0;
        while i < self.selection.selections.len()
            invariant
                v == self@,
                wf(v),
                v.districts.len() == height,
                i <= v.districts.len(),
                colors == red_districts(v.districts.take(i as int)),
                colors <= i,
            decreases v.districts.len() - i,
        {
            proof {
                assert(v.districts.take(i as int + 1).drop_last() =~= v.districts.take(i as int));
                assert(v.districts[i as int] == district_view(self.selection.selections@[i as int]));
                assert(v.districts[i as int].1 < 2);
            }
            colors = colors + self.selection.selections[i].1;
            i = i + 1;
        }
        proof {
            assert(v.districts.take(i as int) =~= v.districts);
        }
        let colors2: u16 = 2 * (colors as u16);
        (self.go_for == BLUE && colors2 < height as u16) || (self.go_for == RED && colors2
            > height as u16)
    }

    /// The game at the start of `level`, on `points`, with goal `go_for`.
    pub fn begin_level(level: u8, points: Vec<Points>, go_for: u8) -> (game: Game)
        requires
            1 <= level <= MAX_LEVEL,
            go_for < 2,
            is_layout(points@, side_for_level(level as int), side_for_level(level as int)),
        ensures
            wf(game@),
            game@ == level_start(level, points@, go_for),
    {
        let size = grid_size(level);
        let game = Game {
            level,
            current_xy: size,
            go_for,
            points,
            selected: Selected { pos: Vec::new() },
            selection: Selection { selections: Vec::new() },
        };
        proof {
            assert(game@.districts =~= Seq::<(Seq<Cell>, u8)>::empty());
            assert(game@ =~= level_start(level, points@, go_for));
        }
        game
    }

    /// A new game at the first level, on a grid of random voters drawn until
    /// it is balanced; `None` when `max_draws` grids were drawn and none was.
    pub fn new(max_draws: u64) -> (game: Option<Game>)
        ensures
            max_draws == 0 ==> game is None,
            game matches Some(g) ==> {
                &&& wf(g@)
                &&& g@ == level_start(1, g@.points, g@.go_for)
                &&& fresh_level(g@.points, g@.go_for, side_for_level(1))
            },
    {
        let level: u8 = 1;
        let size = grid_size(level);
        proof {
            lemma_small_area(size.0 as int, size.1 as int);
        }
        match make_points(size.0, size.1, max_draws) {
            Some((points, goal)) => Some(Game::begin_level(level, points, goal)),
            None => None,
        }
    }

    /// A game at the start of `level`, with the voter at index `i` (column by
    /// column from the bottom left) of colour `colors[i]`, and goal `go_for`;
    /// `None` unless the level can be played, there is one colour, 0 or 1,
    /// per cell, and the goal is 0 or 1.
    pub fn from_colors(level: u8, colors: &Vec<u8>, go_for: u8) -> (game: Option<Game>)
        ensures
            game is Some <==> {
                &&& 1 <= level <= MAX_LEVEL
                &&& colors@.len() == side_for_level(level as int) * side_for_level(level as int)
                &&& forall|i: int| 0 <= i < colors@.len() ==> #[trigger] colors@[i] < 2
                &&& go_for < 2
            },
            game matches Some(g) ==> {
                &&& wf(g@)
                &&& g@ == level_start(level, g@.points, go_for)
                &&& forall|i: int| 0 <= i < colors@.len() ==> (#[trigger] g@.points[i]).color == colors@[i]
            },
    {
        if level < 1 || level > MAX_LEVEL || go_for > 1 {
            return None;
        }
        let size = grid_size(level);
        proof {
            lemma_small_area(size.0 as int, size.1 as int);
        }
        if colors.len() != (size.0 as usize) * (size.1 as usize) {
            return None;
        }
        let mut i: usize = 0;
        while i < colors.len()
            invariant
                i <= colors@.len(),
                forall|j: int| 0 <= j < i ==> #[trigger] colors@[j] < 2,
            decreases colors@.len() - i,
        {
            if colors[i] > 1 {
                return None;
            }
            i = i + 1;
        }
        let points = layout_points(size.0, size.1, colors);
        Some(Game::begin_level(level, points, go_for))
    }

    /// The finishing button was pressed (`on_done`), with `next` as the grid
    /// and goal drawn for the next level (`None` when none could be drawn).
    /// A win with a grid starts the next level on it, and the result is
    /// `true`; anything else leaves the game as it was.
    pub fn finish_level(&mut self, on_done: bool, next: Option<(Vec<Points>, u8)>) -> (won: bool)
        requires
            wf(old(self)@),
            old(self)@.level < MAX_LEVEL || !wins(old(self)@, on_done),
            next_fits(old(self)@, next_view(next)),
        ensures
            wf(final(self)@),
            won == (wins(old(self)@, on_done) && next is Some),
            final(self)@ == finish_model(old(self)@, on_done, next_view(next)),
    {
        if self.done_wins(on_done) {
            match next {
                Some((points, goal)) => {
                    let level: u8 = self.level + 1;
                    *self = Game::begin_level(level, points, goal);
                    true
                },
                None => false,
            }
        } else {
            false
        }
    }

    /// A left click at column `col`, row `row` of the grid (counted from 1;
    /// clicks off the grid are allowed), with `on_done` telling whether it
    /// also lies on the finishing button. When the button wins the level, a
    /// grid for the next level is drawn (at most `max_draws` times) and
    /// `finish_level` starts the next level on it; if none was balanced the
    /// level goes on. Then the click picks its cell as `select_cell` does.
    pub fn left_click(&mut self, col: i64, row: i64, on_done: bool, max_draws: u64) -> (out:
        ClickOutcome)
        requires
            wf(old(self)@),
            old(self)@.level < MAX_LEVEL || !wins(old(self)@, on_done),
        ensures
            wf(final(self)@),
            max_draws == 0 ==> !out.level_won,
            exists|drawn: Option<(Seq<Points>, u8)>|
                #![trigger finish_model(old(self)@, on_done, drawn)]
                {
                    let after = finish_model(old(self)@, on_done, drawn);
                    &&& (drawn matches Some(l) ==> fresh_level(
                        l.0,
                        l.1,
                        side_for_level(old(self)@.level + 1),
                    ))
                    &&& out.level_won == (wins(old(self)@, on_done) && drawn is Some)
                    &&& final(self)@ == select_model(after, col, row)
                    &&& out.redraw_selected == (out.level_won || can_pick(after, col, row))
                    &&& out.redraw_selection == (out.level_won || pick(after, col, row).selected.len()
                        == after.height)
                },
    {
        let ghost v0 = self@;
        let ghost mut drawn: Option<(Seq<Points>, u8)> = None;
        let mut level_won = false;
        if self.done_wins(on_done) {
            let next: u8 = self.level + 1;
            let size = grid_size(next);
            proof {
                lemma_small_area(size.0 as int, size.1 as int);
            }
            let fresh = make_points(size.0, size.1, max_draws);
            proof {
                drawn = next_view(fresh);
            }
            level_won = self.finish_level(on_done, fresh);
        }
        let ghost after = self@;
        let changed = self.select_cell(col, row);
        let out = ClickOutcome {
            redraw_selected: changed.0 || level_won,
            redraw_selection: changed.1 || level_won,
            level_won,
        };
        proof {
            assert(after == finish_model(v0, on_done, drawn));
        }
        out
    }

    /// A right click at column `col`, row `row` (counted from 1): as
    /// `deselect_cell`. It never wins a level.
    pub fn right_click(&mut self, col: i64, row: i64) -> (out: ClickOutcome)
        requires
            wf(old(self)@),
        ensures
            wf(final(self)@),
            final(self)@ == deselect_model(old(self)@, col, row),
            out.redraw_selected == (click_in_grid(old(self)@, col, row)
                && old(self)@.selected.contains(clicked_cell(col, row))),
            out.redraw_selection == (click_in_grid(old(self)@, col, row) && in_any_district(
                old(self)@.districts,
                clicked_cell(col, row),
            )),
            !out.level_won,
    {
        let changed = self.deselect_cell(col, row);
        ClickOutcome { redraw_selected: changed.0, redraw_selection: changed.1, level_won: false }
    }
}

} // verus!
