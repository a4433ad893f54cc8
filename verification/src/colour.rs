use vstd::prelude::*;

verus! {

/// The closed eight-colour palette of the puzzle.
#[derive(Clone, Copy, Debug, Eq, PartialEq, Structural, Hash)]
pub enum Colour {
    Red,
    Yellow,
    Green,
    LightBrown,
    Purple,
    Cyan,
    Blue,
    Fuchsia,
}

/// The position of a colour in the fixed palette order.
pub open spec fn colour_index(c: Colour) -> int {
    match c {
        Colour::Red => 0,
        Colour::Yellow => 1,
        Colour::Green => 2,
        Colour::LightBrown => 3,
        Colour::Purple => 4,
        Colour::Cyan => 5,
        Colour::Blue => 6,
        Colour::Fuchsia => 7,
    }
}

/// The palette colour standing at a given index.
pub open spec fn palette_colour(i: int) -> Colour {
    if i == 0 {
        Colour::Red
    } else if i == 1 {
        Colour::Yellow
    } else if i == 2 {
        Colour::Green
    } else if i == 3 {
        Colour::LightBrown
    } else if i == 4 {
        Colour::Purple
    } else if i == 5 {
        Colour::Cyan
    } else if i == 6 {
        Colour::Blue
    } else {
        Colour::Fuchsia
    }
}

/// Number of colours in the full palette.
pub const PALETTE_SIZE: usize = 8;

/// Looks the palette up by index, in palette order.
pub fn colour_from_index(i: usize) -> (c: Colour)
    requires
        i < 8,
    ensures
        c == palette_colour(i as int),
        colour_index(c) == i,
{
    if i == 0 {
        Colour::Red
    } else if i == 1 {
        Colour::Yellow
    } else if i == 2 {
        Colour::Green
    } else if i == 3 {
        Colour::LightBrown
    } else if i == 4 {
        Colour::Purple
    } else if i == 5 {
        Colour::Cyan
    } else if i == 6 {
        Colour::Blue
    } else {
        Colour::Fuchsia
    }
}

} // verus!
