use vstd::prelude::*;
use crate::error::Error;
use crate::tiles::TileType;

verus! {

/// A stateless generator that yields a checkerboard: Floor wherever the two
/// coordinates have the same parity, Wall everywhere else.
pub struct ChessMapGenerator {
    pub width: u32,
    pub height: u32,
}

impl ChessMapGenerator {
    pub fn new(width: u32, height: u32) -> (r: ChessMapGenerator)
        ensures
            r.width == width,
            r.height == height,
    {
        ChessMapGenerator { width, height }
    }

    /// The checkerboard needs no preparation: this always succeeds and leaves
    /// the generator as it was.
    pub fn generate(&mut self) -> (r: Result<(), Error>)
        ensures
            r is Ok,
            *final(self) == *old(self),
    {
        Ok(())
    }

    pub fn get_title(&self, x: u32, y: u32) -> (r: TileType)
        ensures
            r == (if x % 2 == y % 2 { TileType::Floor } else { TileType::Wall }),
    {
        if x % 2 == y % 2 {
            TileType::Floor
        } else {
            TileType::Wall
        }
    }
}

} // verus!
