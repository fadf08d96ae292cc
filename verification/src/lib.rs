//! Verified core of a geostatistics engine: neighbor search, kriging and
//! co-kriging, indicator methods, sequential simulation, transforms of the data,
//! GeoPackage and CSV framing, and the decisions behind the command line.
//!
//! Doubles appear as their IEEE 754 bit patterns. Comparing, ordering and rounding
//! them is integer logic and proved as such; the operations that round (sums,
//! products, roots, exponentials) are handed in by the caller as an
//! [`arith::Arithmetic`], and every contract says which operations are applied to
//! what, in which order.

pub mod algebra;
pub mod arith;
pub mod averages;
pub mod bucket_grid;
pub mod buckets;
pub mod ccdf;
pub mod clusters;
pub mod cokriging;
pub mod collocated;
pub mod commands;
pub mod covariance;
pub mod curvature;
pub mod data;
pub mod declustering;
pub mod double;
pub mod draws;
pub mod drift;
pub mod equations;
pub mod error;
pub mod exact;
pub mod exact_cokriging;
pub mod exact_collocated;
pub mod exact_declustering;
pub mod exact_definite;
pub mod exact_derived;
pub mod exact_kriging;
pub mod exact_moments;
pub mod exact_raster;
pub mod exact_scores;
pub mod extents;
pub mod fits;
pub mod gaussian;
pub mod gpkg;
pub mod grid;
pub mod ik;
pub mod indicator;
pub mod interpolation;
pub mod io_utils;
pub mod kdtree;
pub mod kriging;
pub mod linalg;
pub mod lmc;
pub mod lmc_fit;
pub mod local_moments;
pub mod marginal;
pub mod matrix;
pub mod model;
pub mod nearest;
pub mod neighborhood;
pub mod optim;
pub mod options;
pub mod order;
pub mod parallel;
pub mod predictions;
pub mod raster;
pub mod regression;
pub mod rng;
pub mod search;
pub mod selections;
pub mod sgs;
pub mod sills;
pub mod simple;
pub mod simulation;
pub mod sis;
pub mod stage;
pub mod table;
pub mod tails;
pub mod text;
pub mod tgp;
pub mod tgs;
pub mod trans;
pub mod transform;
pub mod tuning;
pub mod uncorrelated;
pub mod value;
pub mod walk;
pub mod warps;
