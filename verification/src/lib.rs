//! Verified solvers for a collection of small text puzzles.
//!
//! The central piece is `springs`: an arrangement-counting engine for
//! partially known cell sequences constrained by run-length groups.
//! The other modules are independent solvers that share only the text
//! helpers in `text`.

pub mod beams;
pub mod cards;
pub mod cubes;
pub mod expansion;
pub mod gears;
pub mod hash;
pub mod maps;
pub mod mirrors;
pub mod oasis;
pub mod pipes;
pub mod race;
pub mod scratchcards;
pub mod seeds;
pub mod springs;
pub mod text;
pub mod tilt;
pub mod trebuchet;
