use vstd::prelude::*;

use crate::chance::coin_flip;

verus! {

/// One voter of the grid: its cell, counted from 0 at the bottom left, and
/// its colour (0 for blue, 1 for red).
#[derive(Clone, Copy, Debug)]
pub struct Points {
    pub pos: (u16, u16),
    pub color: u8,
}

/// Colour of a blue voter or district.
pub const BLUE: u8 = 0;

/// Colour of a red voter or district.
pub const RED: u8 = 1;

/// `points` lists the cells of a `width` x `height` grid column by column,
/// bottom to top, each voter being blue or red.
pub open spec fn is_layout(points: Seq<Points>, width: int, height: int) -> bool {
    &&& points.len() == width * height
    &&& forall|x: int, y: int|
        0 <= x < width && 0 <= y < height ==> {
            &&& (#[trigger] points[x * height + y]).pos.0 == x
            &&& points[x * height + y].pos.1 == y
        }
    &&& forall|i: int|
        0 <= i < points.len() ==> {
            &&& (#[trigger] points[i]).pos.0 < width
            &&& points[i].pos.1 < height
            &&& points[i].color < 2
        }
}

/// Number of red voters in `points`.
pub open spec fn red_count(points: Seq<Points>) -> int
    decreases points.len(),
{
    if points.len() == 0 {
        0
    } else {
        red_count(points.drop_last()) + points.last().color
    }
}

/// Between two fifths and three fifths of the `cells` voters are red.
pub open spec fn is_balanced(red: int, cells: int) -> bool {
    &&& 5 * red <= 3 * cells
    &&& 5 * red >= 2 * cells
}

/// Which side the player must make win: the side that is in the minority
/// among the voters. With as many red as blue voters either may be asked.
pub open spec fn goal_fits(goal: u8, red: int, cells: int) -> bool {
    if 2 * red > cells {
        goal == BLUE
    } else if 2 * red < cells {
        goal == RED
    } else {
        goal == BLUE || goal == RED
    }
}

/// There are no more red voters than voters.
pub proof fn lemma_red_count_bounds(points: Seq<Points>)
    requires
        forall|i: int| 0 <= i < points.len() ==> (#[trigger] points[i]).color < 2,
    ensures
        0 <= red_count(points) <= points.len(),
    decreases points.len(),
{
    if points.len() > 0 {
        lemma_red_count_bounds(points.drop_last());
    }
}

/// The cell `(a, b)` of a grid `height` high comes before every cell of
/// column `x` when `a < x`.
proof fn lemma_cell_index_below(a: int, b: int, x: int, height: int)
    by (nonlinear_arith)
    requires
        0 <= a < x,
        0 <= b < height,
    ensures
        0 <= a * height + b < x * height,
{
}

/// Flips a fair coin for each of `cells` voters: 1 (red) on heads, 0 (blue)
/// on tails.
pub fn draw_colors(cells: u8) -> (colors: Vec<u8>)
    ensures
        colors@.len() == cells,
        forall|i: int| 0 <= i < colors@.len() ==> #[trigger] colors@[i] < 2,
{
    let mut colors: Vec<u8> = Vec::new();
    let mut i: u8 = 0;
    while i < cells
        invariant
            i <= cells,
            colors@.len() == i,
            forall|j: int| 0 <= j < colors@.len() ==> #[trigger] colors@[j] < 2,
        decreases cells - i,
    {
        let color: u8 = if coin_flip() {
            RED
        } else {
            BLUE
        };
        colors.push(color);
        i = i + 1;
    }
    colors
}

/// Lays `colors` out on a `width` x `height` grid, column by column from
/// the bottom left: the voter at index `i` gets colour `colors[i]`.
pub fn layout_points(width: u8, height: u8, colors: &Vec<u8>) -> (points: Vec<Points>)
    requires
        colors@.len() == width * height,
        forall|i: int| 0 <= i < colors@.len() ==> #[trigger] colors@[i] < 2,
    ensures
        is_layout(points@, width as int, height as int),
        forall|i: int| 0 <= i < points@.len() ==> (#[trigger] points@[i]).color == colors@[i],
{
    let mut points: Vec<Points> = Vec::new();
    let mut x: u8 = 0;
    while x < width
        invariant
            x <= width,
            colors@.len() == width * height,
            forall|i: int| 0 <= i < colors@.len() ==> #[trigger] colors@[i] < 2,
            points@.len() == x * height,
            x * height <= width * height,
            forall|a: int, b: int|
                0 <= a < x && 0 <= b < height ==> {
                    &&& (#[trigger] points@[a * height + b]).pos.0 == a
                    &&& points@[a * height + b].pos.1 == b
                },
            forall|i: int|
                0 <= i < points@.len() ==> {
                    &&& (#[trigger] points@[i]).pos.0 < width
                    &&& points@[i].pos.1 < height
                    &&& points@[i].color == colors@[i]
                },
        decreases width - x,
    {
        proof {
            assert((x + 1) * height == x * height + height) by (nonlinear_arith);
            assert((x + 1) * height <= width * height) by (nonlinear_arith)
                requires
                    x < width,
            ;
        }
        let mut y: u8 = 0;
        while y < height
            invariant
                x < width,
                y <= height,
                colors@.len() == width * height,
                (x + 1) * height <= width * height,
                (x + 1) * height == x * height + height,
                    points@.len() == x * height + y,
                forall|a: int, b: int|
                    0 <= a < x && 0 <= b < height ==> {
                        &&& (#[trigger] points@[a * height + b]).pos.0 == a
                        &&& points@[a * height + b].pos.1 == b
                    },
                forall|b: int|
                    0 <= b < y ==> {
                        &&& (#[trigger] points@[x * height + b]).pos.0 == x
                        &&& points@[x * height + b].pos.1 == b
                    },
                forall|i: int|
                    0 <= i < points@.len() ==> {
                        &&& (#[trigger] points@[i]).pos.0 < width
                        &&& points@[i].pos.1 < height
                        &&& points@[i].color == colors@[i]
                    },
            decreases height - y,
        {
            let ghost before = points@;
            let k: usize = points.len();
            points.push(Points { pos: (x as u16, y as u16), color: colors[k] });
            proof {
                assert forall|a: int, b: int|
                    0 <= a < x && 0 <= b < height implies {
                        &&& (#[trigger] points@[a * height + b]).pos.0 == a
                        &&& points@[a * height + b].pos.1 == b
                    } by {
                    lemma_cell_index_below(a, b, x as int, height as int);
                    assert(points@[a * height + b] == before[a * height + b]);
                }
            }
            y = y + 1;
        }
        proof {
            assert forall|a: int, b: int|
                0 <= a < x + 1 && 0 <= b < height implies {
                    &&& (#[trigger] points@[a * height + b]).pos.0 == a
                    &&& points@[a * height + b].pos.1 == b
                } by {
                if a == x {
                }
            }
        }
        x = x + 1;
    }
    points
}

/// Fills a `width` x `height` grid with voters whose colours come from a
/// fair coin, column by column.
pub fn draw_points(width: u8, height: u8) -> (points: Vec<Points>)
    requires
        width * height <= 255,
    ensures
        is_layout(points@, width as int, height as int),
{
    let colors = draw_colors(width * height);
    layout_points(width, height, &colors)
}

/// Number of red voters among `points`.
pub fn count_red(points: &Vec<Points>) -> (red: u8)
    requires
        points@.len() <= 255,
        forall|i: int| 0 <= i < points@.len() ==> (#[trigger] points@[i]).color < 2,
    ensures
        red == red_count(points@),
{
    let mut red: u8 = 0;
    let mut i: usize = 0;
    while i < points.len()
        invariant
            i <= points@.len() <= 255,
            forall|j: int| 0 <= j < points@.len() ==> (#[trigger] points@[j]).color < 2,
            red == red_count(points@.take(i as int)),
        decreases points@.len() - i,
    {
        proof {
            lemma_red_count_bounds(points@.take(i as int));
            assert(points@.take(i as int + 1).drop_last() =~= points@.take(i as int));
        }
        red = red + points[i].color;
        i = i + 1;
    }
    proof {
        assert(points@.take(i as int) =~= points@);
    }
    red
}

/// Whether a grid of `cells` voters of which `red` are red is close enough
/// to even to be played: at most three fifths and at least two fifths red.
pub fn balanced(red: u8, cells: u8) -> (ok: bool)
    ensures
        ok == is_balanced(red as int, cells as int),
{
    let red5: u32 = 5 * (red as u32);
    let cells: u32 = cells as u32;
    !(red5 > 3 * cells) && !(red5 < 2 * cells)
}

/// The side the player is asked to make win: blue when red voters are in
/// the majority, red when blue voters are, and a coin flip on a tie.
pub fn choose_goal(red: u8, cells: u8) -> (goal: u8)
    ensures
        goal_fits(goal, red as int, cells as int),
{
    let red2: u32 = 2 * (red as u32);
    if red2 > cells as u32 {
        BLUE
    } else if red2 < cells as u32 {
        RED
    } else if coin_flip() {
        RED
    } else {
        BLUE
    }
}

/// Keeps a drawn grid when it is balanced, naming the side the player must
/// make win on it; `None` when it is not balanced.
pub fn accept_draw(width: u8, height: u8, points: Vec<Points>) -> (level: Option<(Vec<Points>, u8)>)
    requires
        width * height <= 255,
        is_layout(points@, width as int, height as int),
    ensures
        level is Some <==> is_balanced(red_count(points@), width * height),
        level matches Some(l) ==> {
            &&& l.0@ == points@
            &&& goal_fits(l.1, red_count(points@), width * height)
        },
{
    let cells: u8 = width * height;
    let red = count_red(&points);
    if balanced(red, cells) {
        let goal = choose_goal(red, cells);
        Some((points, goal))
    } else {
        None
    }
}

/// Every grid of `cells` voters is balanced, whatever its colours.
pub open spec fn every_count_balanced(cells: int) -> bool {
    forall|red: int| 0 <= red <= cells ==> is_balanced(red, cells)
}

/// No grid of `cells` voters is balanced, whatever its colours (so on a
/// grid of 1 or 3 cells, for instance).
pub open spec fn no_count_balanced(cells: int) -> bool {
    forall|red: int| 0 <= red <= cells ==> !is_balanced(red, cells)
}

/// Draws grids of `width` x `height` voters until `accept_draw` keeps one,
/// and names the side the player must make win on it. It gives up, with `None`,
/// after `max_draws` grids were drawn and none was balanced.
pub fn make_points(width: u8, height: u8, max_draws: u64) -> (level: Option<(Vec<Points>, u8)>)
    requires
        width * height <= 255,
    ensures
        max_draws == 0 ==> level is None,
        no_count_balanced(width * height) ==> level is None,
        max_draws > 0 && every_count_balanced(width * height) ==> level is Some,
        level matches Some(l) ==> {
            &&& is_layout(l.0@, width as int, height as int)
            &&& is_balanced(red_count(l.0@), width * height)
            &&& goal_fits(l.1, red_count(l.0@), width * height)
        },
{
    if max_draws == 0 {
        return None;
    }
    let mut left: u64 = max_draws;
    while left > 0
        invariant
            width * height <= 255,
            left <= max_draws,
            max_draws > 0,
            left < max_draws ==> !every_count_balanced(width * height),
        decreases left,
    {
        let points = draw_points(width, height);
        proof {
            lemma_red_count_bounds(points@);
        }
        let ghost drawn = points@;
        match accept_draw(width, height, points) {
            Some(level) => {
                return Some(level);
            },
            None => {
                assert(!is_balanced(red_count(drawn), width * height));
            },
        }
        left = left - 1;
    }
    None
}

} // verus!
