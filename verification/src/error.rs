use vstd::prelude::*;

verus! {

/// The errors this library reports. Argument carries a description of an
/// invalid externally supplied dimension; OutOfBounds is reserved for tile
/// queries outside the grid.
#[derive(Debug)]
pub enum Error {
    Argument(String),
    OutOfBounds,
}

impl Error {
    pub fn new_argument(msg: String) -> (r: Error)
        ensures
            r == Error::Argument(msg),
    {
        Error::Argument(msg)
    }
}

} // verus!
