use vstd::prelude::*;

use crate::game::{cells_contain, Cell};

verus! {

/// A side of a grid cell; rows are counted upwards, so `Bottom` faces the
/// row below.
#[derive(Clone, Copy, Debug, PartialEq, Eq)]
pub enum Side {
    Left,
    Right,
    Bottom,
    Top,
}

/// A border line drawn along one side of one cell.
#[derive(Clone, Copy, Debug, PartialEq, Eq)]
pub struct Edge {
    pub cell: Cell,
    pub side: Side,
}

/// The cell across `side` of `c`.
pub open spec fn neighbour(c: Cell, side: Side) -> Cell {
    match side {
        Side::Left => ((c.0 - 1) as u8, c.1),
        Side::Right => ((c.0 + 1) as u8, c.1),
        Side::Bottom => (c.0, (c.1 - 1) as u8),
        Side::Top => (c.0, (c.1 + 1) as u8),
    }
}

/// The edge along `side` of `c` when the cell across it is not in `cells`.
pub open spec fn edge_if_open(cells: Seq<Cell>, c: Cell, side: Side) -> Seq<Edge> {
    if cells.contains(neighbour(c, side)) {
        Seq::empty()
    } else {
        seq![Edge { cell: c, side }]
    }
}

/// The border edges of cell `c` within the group `cells`: left, right,
/// bottom, top, each where the neighbour is outside the group.
pub open spec fn cell_edges(cells: Seq<Cell>, c: Cell) -> Seq<Edge> {
    edge_if_open(cells, c, Side::Left) + edge_if_open(cells, c, Side::Right) + edge_if_open(
        cells,
        c,
        Side::Bottom,
    ) + edge_if_open(cells, c, Side::Top)
}

/// The border edges of the first `n` cells of `cells`, cell after cell.
pub open spec fn outline(cells: Seq<Cell>, n: int) -> Seq<Edge>
    decreases n,
{
    if n <= 0 {
        Seq::empty()
    } else {
        outline(cells, n - 1) + cell_edges(cells, cells[n - 1])
    }
}

/// Cells whose four neighbours can be named without leaving the `u8` range.
pub open spec fn inner_cells(cells: Seq<Cell>) -> bool {
    forall|i: int|
        0 <= i < cells.len() ==> 1 <= (#[trigger] cells[i]).0 <= 254 && 1 <= cells[i].1 <= 254
}

/// The border of a group of cells: for each cell in order, its left, right,
/// bottom and top sides, each one whose neighbouring cell is not in the
/// group.
pub fn district_outline(cells: &Vec<Cell>) -> (edges: Vec<Edge>)
    requires
        inner_cells(cells@),
    ensures
        edges@ == outline(cells@, cells@.len() as int),
{
    let mut edges: Vec<Edge> = Vec::new();
    let mut i: usize = 0;
    while i < cells.len()
        invariant
            i <= cells@.len(),
            inner_cells(cells@),
            edges@ == outline(cells@, i as int),
        decreases cells@.len() - i,
    {
        let c = cells[i];
        proof {
            assert(cells@[i as int] == c);
        }
        let ghost start = edges@;
        if !cells_contain(cells, (c.0 - 1, c.1)) {
            edges.push(Edge { cell: c, side: Side::Left });
        }
        if !cells_contain(cells, (c.0 + 1, c.1)) {
            edges.push(Edge { cell: c, side: Side::Right });
        }
        if !cells_contain(cells, (c.0, c.1 - 1)) {
            edges.push(Edge { cell: c, side: Side::Bottom });
        }
        if !cells_contain(cells, (c.0, c.1 + 1)) {
            edges.push(Edge { cell: c, side: Side::Top });
        }
        proof {
            assert(edges@ =~= start + cell_edges(cells@, c));
        }
        i = i + 1;
    }
    edges
}

/// An edge is on the outline of a group exactly when its cell is in the
/// group and the cell across it is not.
pub proof fn lemma_outline_exact(cells: Seq<Cell>, e: Edge)
    ensures
        outline(cells, cells.len() as int).contains(e) <==> (cells.contains(e.cell)
            && !cells.contains(neighbour(e.cell, e.side))),
{
    lemma_outline_prefix(cells, e, cells.len() as int);
}

proof fn lemma_outline_prefix(cells: Seq<Cell>, e: Edge, n: int)
    requires
        0 <= n <= cells.len(),
    ensures
        outline(cells, n).contains(e) <==> (exists|i: int| 0 <= i < n && #[trigger] cells[i] == e.cell)
            && !cells.contains(neighbour(e.cell, e.side)),
    decreases n,
{
    if n > 0 {
        lemma_outline_prefix(cells, e, n - 1);
        let c = cells[n - 1];
        let before = outline(cells, n - 1);
        let here = cell_edges(cells, c);
        assert(outline(cells, n) == before + here);
        assert(here.contains(e) <==> (c == e.cell && !cells.contains(neighbour(e.cell, e.side)))) by {
            let l = edge_if_open(cells, c, Side::Left);
            let r = edge_if_open(cells, c, Side::Right);
            let b = edge_if_open(cells, c, Side::Bottom);
            let t = edge_if_open(cells, c, Side::Top);
            assert(here == l + r + b + t);
            if here.contains(e) {
                let k = choose|k: int| 0 <= k < here.len() && here[k] == e;
                if k < l.len() {
                    assert((l + r + b + t)[k] == l[k]);
                } else if k < l.len() + r.len() {
                    assert((l + r + b + t)[k] == r[k - l.len()]);
                } else if k < l.len() + r.len() + b.len() {
                    assert((l + r + b + t)[k] == b[k - l.len() - r.len()]);
                } else {
                    assert((l + r + b + t)[k] == t[k - l.len() - r.len() - b.len()]);
                }
            }
            if c == e.cell && !cells.contains(neighbour(e.cell, e.side)) {
                match e.side {
                    Side::Left => {
                        assert(here[0] == e);
                    },
                    Side::Right => {
                        assert(here[l.len() as int] == e);
                    },
                    Side::Bottom => {
                        assert(here[(l.len() + r.len()) as int] == e);
                    },
                    Side::Top => {
                        assert(here[(l.len() + r.len() + b.len()) as int] == e);
                    },
                }
            }
        }
        if outline(cells, n).contains(e) {
            let k = choose|k: int| 0 <= k < outline(cells, n).len() && outline(cells, n)[k] == e;
            if k < before.len() {
                assert(before[k] == e);
            } else {
                assert(here[k - before.len()] == e);
            }
        }
        if (exists|i: int| 0 <= i < n && #[trigger] cells[i] == e.cell) && !cells.contains(
            neighbour(e.cell, e.side),
        ) {
            let i = choose|i: int| 0 <= i < n && #[trigger] cells[i] == e.cell;
            if i < n - 1 {
                let k = choose|k: int| 0 <= k < before.len() && before[k] == e;
                assert((before + here)[k] == e);
            } else {
                let k = choose|k: int| 0 <= k < here.len() && here[k] == e;
                assert((before + here)[before.len() + k] == e);
            }
        }
    }
}

} // verus!
