pub mod bsp;
pub mod chess;
pub mod error;
pub mod geometry;
pub mod image_gen;
pub mod rng;
pub mod tiles;
