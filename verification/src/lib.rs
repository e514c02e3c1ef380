//! Verified core of a vector-search fraud detector.
//!
//! A transaction becomes a query vector ([`features`], [`calendar`]), which is
//! looked up in an inverted-file index ([`index`], [`search`]); the frauds among
//! its nearest neighbours give the verdict ([`service`]). Indexes are laid out
//! by [`builder`], and [`quality`] tallies verdicts against what is known.

pub mod builder;
pub mod calendar;
pub mod distance;
pub mod features;
pub mod index;
pub mod marks;
pub mod quality;
pub mod ranking;
pub mod search;
pub mod service;
pub mod text;
pub mod words;

pub use crate::distance::{
    l2sq_i16, l2sq_i16_avx2, l2sq_i16_scalar, Vec14I, DIM, DIM_PAD, QUANT_SCALE, SENTINEL_I16,
};
pub use crate::features::{
    mcc_risk, vectorize, Customer, FraudRequest, LastTransaction, Merchant, Terminal, Transaction,
};
pub use crate::index::{IndexHeader, IndexView, INDEX_MAGIC, INDEX_VERSION};
pub use crate::search::{ivf_search, ivf_search_2stage};
