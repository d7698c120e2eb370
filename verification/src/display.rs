use vstd::prelude::*;

use crate::board::{BLUE, RED};

verus! {

/// The instruction shown for the goal `go_for`: blue for 0, red otherwise.
pub fn goal_text(go_for: u8) -> (text: &'static str)
    ensures
        go_for == BLUE ==> text@ == "Try and make\n blue win"@,
        go_for != BLUE ==> text@ == "Try and make\n red win"@,
{
    if go_for == BLUE {
        "Try and make\n blue win"
    } else {
        "Try and make\n red win"
    }
}

/// The image drawn for a voter of colour `color`; a colour other than blue
/// or red names an image that does not exist.
pub fn point_texture(color: u8) -> (path: &'static str)
    ensures
        color == BLUE ==> path@ == "blue.png"@,
        color == RED ==> path@ == "red.png"@,
        color != BLUE && color != RED ==> path@ == "cant happen so lest error it out"@,
{
    if color == BLUE {
        "blue.png"
    } else if color == RED {
        "red.png"
    } else {
        "cant happen so lest error it out"
    }
}

/// Red, green, blue and opacity of the tint laid over the cells of a
/// finished district of colour `color`: blue for 0, red otherwise, half
/// transparent.
pub fn district_tint(color: u8) -> (rgba: (u8, u8, u8, u8))
    ensures
        color == BLUE ==> rgba == (33u8, 91u8, 166u8, 128u8),
        color != BLUE ==> rgba == (166u8, 36u8, 47u8, 128u8),
{
    if color == BLUE {
        (33, 91, 166, 128)
    } else {
        (166, 36, 47, 128)
    }
}

} // verus!
