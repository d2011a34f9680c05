//! Dispatch and policy engine of a paste-hosting client: size limits, range
//! selectors, feature negotiation, backend routing and output naming.

pub mod dispatch;
pub mod error;
pub mod feature;
pub mod paste;
pub mod range;
pub mod size;
pub mod text;
pub mod upload;
