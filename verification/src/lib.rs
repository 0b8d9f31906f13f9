pub mod bignat;
pub mod error;
pub mod fusion;
pub mod identifier;
pub mod laws;
pub mod model;
pub mod order;
pub mod ranking;
pub mod score;
pub mod tally;

pub use bignat::BigNat;
pub use bignat::Comparison;
pub use error::FusionError;
pub use fusion::fuse;
pub use fusion::fuse_weighted;
pub use score::Score;
pub use score::Weight;
