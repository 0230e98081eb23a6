//! A maze solver over raster images: pixels in a fixed palette decode
//! into a grid of cells, a depth-first backtracking search finds a route
//! from the unique start cell to the unique end cell, and the route is
//! painted back into the image through a color gradient.

pub mod color;
pub mod maze;
pub mod mazecell;
pub mod raster;
