use vstd::prelude::*;

verus! {

/// Width of a playing field, in cells.
#[derive(Copy, Clone, PartialEq, PartialOrd)]
pub struct Width(pub u8);

/// A column coordinate on the playing field.
#[derive(Copy, Clone, PartialEq, PartialOrd)]
pub struct Column<T = u8>(pub T);

/// Height of a playing field, in cells.
#[derive(Copy, Clone, PartialEq, PartialOrd)]
pub struct Height(pub u8);

/// A row coordinate on the playing field.
#[derive(Copy, Clone, PartialEq, PartialOrd)]
pub struct Row<T = u8>(pub T);

/// The two dimensions of a playing field.
#[derive(Copy, Clone, PartialEq)]
pub struct Size(pub Width, pub Height);

/// A coordinate pair on the playing field.
#[derive(Copy, Clone, PartialEq)]
pub struct Position<T = u8>(pub Column<T>, pub Row<T>);

/// A linear cell index.
#[derive(Copy, Clone, PartialEq)]
pub struct Index(pub usize);

/// How many palette colours a game draws from.
#[derive(Copy, Clone, PartialEq, PartialOrd)]
pub struct NumberOfColors(pub u8);

/// How many clicks a game has seen.
#[derive(Copy, Clone, PartialEq, PartialOrd)]
pub struct NumberOfClicks(pub u16);

} // verus!
