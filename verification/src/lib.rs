//! Blind matching of star patterns: the polygon that each star forms with its
//! closest neighbours, and the comparison of the polygons of an image with
//! those of a catalogue.
//!
//! Lengths and coordinates are held as the bit patterns of double-precision
//! numbers. The library orders, selects and compares them; the arithmetic
//! that produces them is the caller's, in these steps:
//!
//! 1. The caller gives each star its length to every star of its list.
//! 2. `closest::closest_stars` gives the stars of the polygon of each star,
//!    of which the caller takes the centre.
//! 3. `polygon::find_polygons` gives the polygons, without those whose centre
//!    an earlier polygon has, each with its lengths in ascending order.
//! 4. The caller divides the lengths of each polygon by the longest.
//! 5. For each polygon of the image, each polygon of the catalogue and each
//!    connection but the longest, the caller divides the terms that
//!    `fit::ratio_terms` gives for the two lengths.
//! 6. `fit::find_fit` gives the pairs of similar polygons.
//!
//! `gaia_db` reads the records of the star database from its bytes.

pub mod closest;
pub mod fit;
pub mod gaia_db;
pub mod number;
pub mod polygon;
