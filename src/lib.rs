//! A store of free-text feedback and star ratings for named widgets.
//!
//! Every submission records its text; only the first submission of each
//! account ever records a rating, whichever widget it was for.

pub mod laws;
pub mod model;
pub mod store;

pub use model::StoreModel;
pub use store::{Contract, StarAverage};
