//! Error-boundary support for a reactive renderer.
//!
//! When a fallible node of a render tree evaluates to a failure, the failure
//! is captured, keyed by the node's position in the tree, and exposed to an
//! ancestor boundary component that decides how to render it, while
//! successful siblings render normally.
//!
//! The crate provides the keyed error collection ([`Errors`]), the location
//! identity used to key it ([`ErrorKey`]), and the render protocol that keeps
//! the collection in step with the tree's current failure state
//! ([`render::RenderContext`]), including the deferred cleanup that clears an
//! entry when its node is unmounted.

pub mod errors;
pub mod render;

pub use errors::{ErrorKey, ErrorValue, Errors, IntoIter, Iter};
pub use render::{Boundary, RenderContext, Rendered};
