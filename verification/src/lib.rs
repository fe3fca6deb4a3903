//! The decisions behind a fire trail that follows the mouse cursor.
//!
//! A transparent window covers the desktop, the system's cursor is hidden, and particles burn where
//! the cursor is. This library holds what is decided and computed on the way; calls to the system,
//! random numbers and the elementary operations of floating-point arithmetic come from the caller.
pub mod arithmetic;
pub mod binary32;
pub mod blending;
pub mod cursor;
pub mod geometry;
pub mod gradient;
pub mod handle;
pub mod motion;
pub mod pacing;
pub mod particles;
pub mod renderer;
pub mod window;
