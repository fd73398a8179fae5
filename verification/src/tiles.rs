use vstd::prelude::*;

verus! {

/// The value of one grid cell. Wall is the background every grid starts from.
#[derive(Copy, Clone, Debug, PartialEq, Eq, Structural)]
pub enum TileType {
    Wall,
    Floor,
    Door,
}

} // verus!
