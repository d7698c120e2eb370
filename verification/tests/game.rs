use gerrymandering::board::{layout_points, Points, BLUE, RED};
use gerrymandering::game::{ClickOutcome, Game};

// Columns bottom to top: column 1 all red, columns 2 and 3 red only at the
// bottom. Five red voters of nine.
fn red_bottom_game(go_for: u8) -> Game {
    let colors: Vec<u8> = vec![1, 1, 1, 1, 0, 0, 1, 0, 0];
    Game::from_colors(1, &colors, go_for).expect("a valid level")
}

fn draw_rows(game: &mut Game) {
    for row in 1..=3i64 {
        for col in 1..=3i64 {
            game.select_cell(col, row);
        }
    }
}

#[test]
fn from_colors_checks_its_input() {
    let nine: Vec<u8> = vec![0; 9];
    assert!(Game::from_colors(1, &nine, 0).is_some());
    assert!(Game::from_colors(0, &nine, 0).is_none());
    assert!(Game::from_colors(2, &nine, 0).is_none());
    assert!(Game::from_colors(1, &nine, 2).is_none());
    assert!(Game::from_colors(14, &nine, 0).is_none());
    let mut bad = nine.clone();
    bad[4] = 2;
    assert!(Game::from_colors(1, &bad, 0).is_none());
    let game = Game::from_colors(1, &nine, 1).unwrap();
    assert_eq!(game.level(), 1);
    assert_eq!(game.size(), (3, 3));
    assert_eq!(game.go_for(), 1);
    assert!(game.selected().is_empty());
    assert!(game.districts().is_empty());
}

#[test]
fn new_game_starts_at_level_one() {
    let game = Game::new(u64::MAX).expect("a balanced grid");
    assert_eq!(game.level(), 1);
    assert_eq!(game.size(), (3, 3));
    let red: u32 = game.points().iter().map(|p| p.color as u32).sum();
    assert!(red == 4 || red == 5);
    assert_eq!(game.go_for(), if red == 5 { BLUE } else { RED });
    assert!(Game::new(0).is_none());
}

#[test]
fn picking_cells_builds_a_district() {
    let mut game = red_bottom_game(BLUE);
    assert_eq!(game.select_cell(1, 1), (true, false));
    assert_eq!(game.selected(), &vec![(1u8, 1u8)]);
    // the same cell twice, or a cell off the grid, is not picked
    assert_eq!(game.select_cell(1, 1), (false, false));
    assert_eq!(game.select_cell(4, 1), (false, false));
    assert_eq!(game.select_cell(0, 2), (false, false));
    assert_eq!(game.select_cell(-7, 300), (false, false));
    assert_eq!(game.select_cell(2, 1), (true, false));
    // the third cell fills the district, which is red (3 of 3)
    assert_eq!(game.select_cell(3, 1), (true, true));
    assert!(game.selected().is_empty());
    assert_eq!(game.districts().len(), 1);
    assert_eq!(game.districts()[0].0, vec![(1u8, 1u8), (2, 1), (3, 1)]);
    assert_eq!(game.districts()[0].1, RED);
    // a cell of a drawn district cannot be picked again
    assert_eq!(game.select_cell(2, 1), (false, false));
}

#[test]
fn district_colour_is_its_majority() {
    let mut game = red_bottom_game(BLUE);
    // column 2: red, blue, blue
    for row in 1..=3i64 {
        game.select_cell(2, row);
    }
    assert_eq!(game.districts()[0].1, BLUE);
    // cells (1,2), (1,3), (3,1): red, red, red
    game.select_cell(1, 2);
    game.select_cell(3, 1);
    game.select_cell(1, 3);
    assert_eq!(game.districts()[1].1, RED);
    // (1,1) red, (3,2) blue, (3,3) blue
    game.select_cell(1, 1);
    game.select_cell(3, 2);
    game.select_cell(3, 3);
    assert_eq!(game.districts()[2].1, BLUE);
}

#[test]
fn right_click_takes_a_cell_out() {
    let mut game = red_bottom_game(BLUE);
    game.select_cell(1, 1);
    game.select_cell(2, 2);
    let out = game.right_click(1, 1);
    assert_eq!(out, ClickOutcome { redraw_selected: true, redraw_selection: false, level_won: false });
    assert_eq!(game.selected(), &vec![(2u8, 2u8)]);
    let out = game.right_click(3, 3);
    assert_eq!(out, ClickOutcome { redraw_selected: false, redraw_selection: false, level_won: false });
    let out = game.right_click(9, 9);
    assert_eq!(out, ClickOutcome { redraw_selected: false, redraw_selection: false, level_won: false });
    assert_eq!(game.selected(), &vec![(2u8, 2u8)]);
}

#[test]
fn right_click_undoes_a_district() {
    let mut game = red_bottom_game(BLUE);
    draw_rows(&mut game);
    assert_eq!(game.districts().len(), 3);
    let out = game.right_click(2, 2);
    assert_eq!(out, ClickOutcome { redraw_selected: false, redraw_selection: true, level_won: false });
    assert_eq!(game.districts().len(), 2);
    assert_eq!(game.districts()[0].0, vec![(1u8, 1u8), (2, 1), (3, 1)]);
    assert_eq!(game.districts()[1].0, vec![(1u8, 3u8), (2, 3), (3, 3)]);
    // its cells are free again
    assert_eq!(game.select_cell(2, 2), (true, false));
}

#[test]
fn winning_moves_to_the_next_level() {
    let mut game = red_bottom_game(BLUE);
    draw_rows(&mut game);
    // one red district of three: blue wins
    let out = game.left_click(-10, -5, true, u64::MAX);
    assert_eq!(out, ClickOutcome { redraw_selected: true, redraw_selection: true, level_won: true });
    assert_eq!(game.level(), 2);
    assert_eq!(game.size(), (5, 5));
    assert_eq!(game.points().len(), 25);
    assert!(game.selected().is_empty());
    assert!(game.districts().is_empty());
    let red: u32 = game.points().iter().map(|p| p.color as u32).sum();
    assert!((10..=15).contains(&red));
    assert_eq!(game.go_for(), if 2 * red > 25 { BLUE } else { RED });
}

#[test]
fn losing_side_does_not_win() {
    let mut game = red_bottom_game(RED);
    draw_rows(&mut game);
    let out = game.left_click(-10, -5, true, u64::MAX);
    assert_eq!(out, ClickOutcome { redraw_selected: false, redraw_selection: false, level_won: false });
    assert_eq!(game.level(), 1);
    assert_eq!(game.districts().len(), 3);
}

#[test]
fn done_needs_every_district() {
    let mut game = red_bottom_game(BLUE);
    for col in 1..=3i64 {
        game.select_cell(col, 2);
    }
    assert!(!game.done_wins(true));
    let out = game.left_click(-10, -5, true, u64::MAX);
    assert!(!out.level_won);
    assert_eq!(game.level(), 1);
}

#[test]
fn no_win_without_the_button_or_a_draw() {
    let mut game = red_bottom_game(BLUE);
    draw_rows(&mut game);
    assert!(game.done_wins(true));
    assert!(!game.done_wins(false));
    let out = game.left_click(-10, -5, false, u64::MAX);
    assert!(!out.level_won);
    let out = game.left_click(-10, -5, true, 0);
    assert!(!out.level_won);
    assert_eq!(game.level(), 1);
}

#[test]
fn left_click_also_picks() {
    let mut game = red_bottom_game(BLUE);
    let out = game.left_click(2, 3, false, u64::MAX);
    assert_eq!(out, ClickOutcome { redraw_selected: true, redraw_selection: false, level_won: false });
    assert_eq!(game.selected(), &vec![(2u8, 3u8)]);
}

#[test]
fn full_grid_takes_no_more_cells() {
    let mut game = red_bottom_game(RED);
    draw_rows(&mut game);
    assert_eq!(game.districts().len(), 3);
    for col in 1..=3i64 {
        for row in 1..=3i64 {
            assert_eq!(game.select_cell(col, row), (false, false));
        }
    }
    // no two districts share a cell
    let mut seen: Vec<(u8, u8)> = Vec::new();
    for (cells, _) in game.districts() {
        assert_eq!(cells.len(), 3);
        for c in cells {
            assert!(!seen.contains(c));
            seen.push(*c);
        }
    }
}

#[test]
fn right_click_undoes_a_pick() {
    let mut game = red_bottom_game(BLUE);
    game.select_cell(3, 3);
    assert_eq!(game.select_cell(1, 2), (true, false));
    game.right_click(1, 2);
    assert_eq!(game.selected(), &vec![(3u8, 3u8)]);
    assert!(game.districts().is_empty());
}

#[test]
fn clicks_keep_earlier_districts() {
    let mut game = red_bottom_game(BLUE);
    draw_rows(&mut game);
    game.right_click(1, 3);
    let kept = game.districts().clone();
    game.select_cell(1, 3);
    game.select_cell(2, 3);
    game.select_cell(3, 3);
    assert_eq!(game.districts().len(), 3);
    assert_eq!(game.districts()[..2], kept[..]);
    assert_eq!(game.level(), 1);
    assert_eq!(game.size(), (3, 3));
    assert_eq!(game.go_for(), BLUE);
}

fn five_by_five() -> Vec<Points> {
    let colors: Vec<u8> = (0..25).map(|i| (i % 2) as u8).collect();
    layout_points(5, 5, &colors)
}

#[test]
fn finish_level_starts_the_drawn_level() {
    let mut game = red_bottom_game(BLUE);
    draw_rows(&mut game);
    let next = five_by_five();
    assert!(game.finish_level(true, Some((next.clone(), RED))));
    assert_eq!(game.level(), 2);
    assert_eq!(game.size(), (5, 5));
    assert_eq!(game.go_for(), RED);
    assert_eq!(game.points().len(), 25);
    for (p, q) in game.points().iter().zip(next.iter()) {
        assert_eq!(p.pos, q.pos);
        assert_eq!(p.color, q.color);
    }
    assert!(game.selected().is_empty());
    assert!(game.districts().is_empty());
}

#[test]
fn finish_level_without_a_grid_or_a_win_changes_nothing() {
    let mut game = red_bottom_game(BLUE);
    draw_rows(&mut game);
    assert!(!game.finish_level(true, None));
    assert_eq!(game.level(), 1);
    assert_eq!(game.districts().len(), 3);
    assert!(!game.finish_level(false, Some((five_by_five(), RED))));
    assert_eq!(game.level(), 1);
    let mut losing = red_bottom_game(RED);
    draw_rows(&mut losing);
    assert!(!losing.finish_level(true, Some((five_by_five(), RED))));
    assert_eq!(losing.level(), 1);
    assert_eq!(losing.districts().len(), 3);
}

#[test]
fn begin_level_is_a_fresh_level() {
    let game = Game::begin_level(3, five_by_five(), BLUE);
    assert_eq!(game.level(), 3);
    assert_eq!(game.size(), (5, 5));
    assert_eq!(game.go_for(), BLUE);
    assert!(game.selected().is_empty());
    assert!(game.districts().is_empty());
}

#[test]
fn holding_a_button_acts_once() {
    let mut game = red_bottom_game(BLUE);
    game.left_click(2, 2, false, u64::MAX);
    let out = game.left_click(2, 2, false, u64::MAX);
    assert_eq!(out, ClickOutcome { redraw_selected: false, redraw_selection: false, level_won: false });
    assert_eq!(game.selected(), &vec![(2u8, 2u8)]);
    game.right_click(2, 2);
    let out = game.right_click(2, 2);
    assert_eq!(out, ClickOutcome { redraw_selected: false, redraw_selection: false, level_won: false });
    assert!(game.selected().is_empty());
    // a winning press held down: the next level starts once
    draw_rows(&mut game);
    assert!(game.left_click(-10, -5, true, u64::MAX).level_won);
    let out = game.left_click(-10, -5, true, u64::MAX);
    assert!(!out.level_won);
    assert_eq!(game.level(), 2);
}
