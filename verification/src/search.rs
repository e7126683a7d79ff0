//! Search: from what a user types to what is asked of the index, and from its
//! answers to a response.

pub mod builders;
pub mod engines;
pub mod enrichers;
pub mod errors;
pub mod pipeline;
pub mod response;
pub mod traits;
pub mod types;
