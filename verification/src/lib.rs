//! A solver for the capacitated vehicle routing problem built around an
//! adaptive large-neighbourhood search.
//!
//! All lengths are fixed-point numbers: one unit of the instance's coordinate
//! system is [`vrp_instance::UNIT`] length units, so a cost of `34142` reads as
//! `34.142`. Working in integers keeps every cached route cost exactly equal to
//! the cost recomputed from the distance matrix.
pub mod seq_util;
pub mod random;
pub mod ordering;
pub mod stop;
pub mod text;
pub mod distance;
pub mod geometry;
pub mod vrp_instance;
pub mod instance_text;
pub mod route;
pub mod solution;
pub mod format;
pub mod construct;
pub mod savings;
pub mod insertion;
pub mod jump;
pub mod stats;
pub mod adaptive;
pub mod clock;
pub mod solver;
pub mod multineighbor;
pub mod neighbor;
pub mod swap;
pub mod likeness;
pub mod check;
