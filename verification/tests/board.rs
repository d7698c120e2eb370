use gerrymandering::board::{
    accept_draw, balanced, choose_goal, count_red, draw_colors, draw_points, layout_points, make_points,
    Points, BLUE, RED,
};
use gerrymandering::grid::{grid_size, MAX_LEVEL};

fn red_of(points: &Vec<Points>) -> u32 {
    points.iter().map(|p| p.color as u32).sum()
}

#[test]
fn grid_grows_every_second_level() {
    assert_eq!(grid_size(0), (3, 3));
    assert_eq!(grid_size(1), (3, 3));
    assert_eq!(grid_size(2), (5, 5));
    assert_eq!(grid_size(3), (5, 5));
    assert_eq!(grid_size(4), (7, 7));
    assert_eq!(grid_size(MAX_LEVEL), (15, 15));
    assert_eq!(grid_size(253), (255, 255));
}

#[test]
fn balance_is_between_two_and_three_fifths() {
    // 9 cells: 3.6 <= red <= 5.4
    assert!(!balanced(3, 9));
    assert!(balanced(4, 9));
    assert!(balanced(5, 9));
    assert!(!balanced(6, 9));
    // 25 cells: the bounds 10 and 15 are included
    assert!(!balanced(9, 25));
    assert!(balanced(10, 25));
    assert!(balanced(15, 25));
    assert!(!balanced(16, 25));
}

#[test]
fn goal_is_the_minority_side() {
    assert_eq!(choose_goal(5, 9), BLUE);
    assert_eq!(choose_goal(4, 9), RED);
    assert_eq!(choose_goal(13, 25), BLUE);
    assert_eq!(choose_goal(12, 25), RED);
    // a tie leaves the choice to a coin
    let g = choose_goal(2, 4);
    assert!(g == BLUE || g == RED);
}

#[test]
fn layout_is_column_by_column() {
    let colors: Vec<u8> = vec![1, 0, 0, 1, 1, 0];
    let points = layout_points(2, 3, &colors);
    assert_eq!(points.len(), 6);
    let expected = [(0, 0), (0, 1), (0, 2), (1, 0), (1, 1), (1, 2)];
    for (i, p) in points.iter().enumerate() {
        assert_eq!(p.pos, expected[i]);
        assert_eq!(p.color, colors[i]);
    }
    assert_eq!(count_red(&points), 3);
}

#[test]
fn coin_gives_both_colours() {
    let colors = draw_colors(200);
    assert_eq!(colors.len(), 200);
    assert!(colors.iter().all(|c| *c < 2));
    assert!(colors.iter().any(|c| *c == RED));
    assert!(colors.iter().any(|c| *c == BLUE));
}

#[test]
fn drawn_grid_has_every_cell_once() {
    let points = draw_points(5, 5);
    assert_eq!(points.len(), 25);
    for x in 0..5u16 {
        for y in 0..5u16 {
            assert_eq!(points[(x * 5 + y) as usize].pos, (x, y));
        }
    }
    assert!(points.iter().all(|p| p.color < 2));
}

#[test]
fn make_points_without_draws_gives_up() {
    assert!(make_points(3, 3, 0).is_none());
}

#[test]
fn make_points_gives_a_balanced_grid() {
    for side in [3u8, 5, 7, 15] {
        let (points, goal) = make_points(side, side, u64::MAX).expect("a balanced grid");
        let cells = (side as u32) * (side as u32);
        let red = red_of(&points);
        assert_eq!(points.len() as u32, cells);
        assert!(5 * red <= 3 * cells && 5 * red >= 2 * cells);
        if 2 * red > cells {
            assert_eq!(goal, BLUE);
        } else {
            assert_eq!(goal, RED);
        }
    }
}

#[test]
fn make_points_where_chance_does_not_decide() {
    // an empty grid is always balanced
    let (points, _) = make_points(0, 5, 1).expect("an empty grid");
    assert!(points.is_empty());
    // no grid of 1 or 3 voters is balanced
    assert!(make_points(1, 1, 100).is_none());
    assert!(make_points(1, 3, 100).is_none());
}

#[test]
fn accept_draw_keeps_only_balanced_grids() {
    let balanced_colors: Vec<u8> = vec![1, 1, 1, 1, 1, 0, 0, 0, 0];
    let points = layout_points(3, 3, &balanced_colors);
    let (kept, goal) = accept_draw(3, 3, points).expect("five red of nine is balanced");
    assert_eq!(kept.len(), 9);
    for (i, p) in kept.iter().enumerate() {
        assert_eq!(p.color, balanced_colors[i]);
    }
    assert_eq!(goal, BLUE);
    let four: Vec<u8> = vec![1, 1, 1, 1, 0, 0, 0, 0, 0];
    let (_, goal) = accept_draw(3, 3, layout_points(3, 3, &four)).expect("four red of nine");
    assert_eq!(goal, RED);
    let lopsided: Vec<u8> = vec![1, 1, 1, 1, 1, 1, 0, 0, 0];
    assert!(accept_draw(3, 3, layout_points(3, 3, &lopsided)).is_none());
    let few: Vec<u8> = vec![1, 1, 1, 0, 0, 0, 0, 0, 0];
    assert!(accept_draw(3, 3, layout_points(3, 3, &few)).is_none());
}
