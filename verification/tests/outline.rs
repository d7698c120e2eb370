use gerrymandering::display::{district_tint, goal_text, point_texture};
use gerrymandering::outline::{district_outline, Edge, Side};

#[test]
fn a_single_cell_has_four_sides() {
    let edges = district_outline(&vec![(2u8, 2u8)]);
    assert_eq!(
        edges,
        vec![
            Edge { cell: (2, 2), side: Side::Left },
            Edge { cell: (2, 2), side: Side::Right },
            Edge { cell: (2, 2), side: Side::Bottom },
            Edge { cell: (2, 2), side: Side::Top },
        ]
    );
}

#[test]
fn shared_sides_are_not_drawn() {
    let edges = district_outline(&vec![(1u8, 1u8), (2, 1), (2, 2)]);
    assert_eq!(
        edges,
        vec![
            Edge { cell: (1, 1), side: Side::Left },
            Edge { cell: (1, 1), side: Side::Bottom },
            Edge { cell: (1, 1), side: Side::Top },
            Edge { cell: (2, 1), side: Side::Right },
            Edge { cell: (2, 1), side: Side::Bottom },
            Edge { cell: (2, 2), side: Side::Left },
            Edge { cell: (2, 2), side: Side::Right },
            Edge { cell: (2, 2), side: Side::Top },
        ]
    );
    assert!(district_outline(&vec![]).is_empty());
}

#[test]
fn texts_and_colours() {
    assert_eq!(goal_text(0), "Try and make\n blue win");
    assert_eq!(goal_text(1), "Try and make\n red win");
    assert_eq!(point_texture(0), "blue.png");
    assert_eq!(point_texture(1), "red.png");
    assert_eq!(point_texture(7), "cant happen so lest error it out");
    assert_eq!(district_tint(0), (33, 91, 166, 128));
    assert_eq!(district_tint(1), (166, 36, 47, 128));
}
