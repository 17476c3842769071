//! Supervised optimal binning of one predictor against a binary target.
//!
//! The library works on integer data: numerical values arrive as order keys
//! (an order-preserving integer image of each finite value, `None` for a
//! missing one), categories as integer codes, and the information value of a
//! candidate bin as a fixed-point gain. Everything that decides bins and maps
//! values to them is verified here.
use vstd::prelude::*;

pub mod categorical;
pub mod counts;
pub mod error;
pub mod grid;
pub mod grouping;
pub mod input;
pub mod numerical;
pub mod optimizer;
pub mod precategorical;
pub mod prenumerical;
pub mod prepare;
pub mod sorting;
