use vstd::prelude::*;
use crate::error::Error;
use crate::tiles::TileType;

verus! {

/// Fixed fill colours of the rendered image, one per tile kind.
pub fn tile_color(title_type: TileType) -> (r: (u8, u8, u8))
    ensures
        title_type == TileType::Floor ==> r == (255u8, 0u8, 0u8),
        title_type == TileType::Wall ==> r == (0u8, 255u8, 0u8),
        title_type == TileType::Door ==> r == (238u8, 130u8, 238u8),
{
    match title_type {
        TileType::Floor => (255, 0, 0),
        TileType::Wall => (0, 255, 0),
        TileType::Door => (238, 130, 238),
    }
}

/// Divides an output image of width x height pixels into square tiles of
/// title_size pixels and reports the tile-grid dimensions. The drawing itself
/// is left to the caller.
pub struct ImageGenerator {
    pub width: u32,
    pub height: u32,
    pub title_size: u32,
    pub grid: bool,
}

impl ImageGenerator {
    pub fn new(width: u32, height: u32, title_size: u32) -> (r: ImageGenerator)
        requires
            title_size >= 1,
        ensures
            r.width == width,
            r.height == height,
            r.title_size == title_size,
            !r.grid,
    {
        ImageGenerator { width, height, title_size, grid: false }
    }

    pub fn set_grid(&mut self, value: bool)
        ensures
            final(self).grid == value,
            final(self).width == old(self).width,
            final(self).height == old(self).height,
            final(self).title_size == old(self).title_size,
    {
        self.grid = value;
    }

    pub fn get_title_width(&self) -> (r: u32)
        requires
            self.title_size >= 1,
        ensures
            r == self.width as int / self.title_size as int,
    {
        self.width / self.title_size
    }

    pub fn get_title_height(&self) -> (r: u32)
        requires
            self.title_size >= 1,
        ensures
            r == self.height as int / self.title_size as int,
    {
        self.height / self.title_size
    }

    /// Both image dimensions must be exact multiples of the tile size; this is
    /// checked before any generation starts.
    pub fn check_dimensions(&self) -> (r: Result<(), Error>)
        requires
            self.title_size >= 1,
        ensures
            r is Ok <==> (self.width as int % self.title_size as int == 0
                && self.height as int % self.title_size as int == 0),
            self.width as int % self.title_size as int != 0
                ==> (r matches Err(e) && e matches Error::Argument(m)
                    && m@ == "width must be a mutiple of title size"@),
            (self.width as int % self.title_size as int == 0
                && self.height as int % self.title_size as int != 0)
                ==> (r matches Err(e) && e matches Error::Argument(m)
                    && m@ == "height must be a mutiple of title size"@),
    {
        if self.width % self.title_size != 0 {
            Err(Error::new_argument("width must be a mutiple of title size".to_owned()))
        } else if self.height % self.title_size != 0 {
            Err(Error::new_argument("height must be a mutiple of title size".to_owned()))
        } else {
            Ok(())
        }
    }
}

} // verus!
