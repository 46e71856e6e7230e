//! Coordination logic of a distributed Mandelbrot renderer: the worker
//! registry, the proportional split of a frame into horizontal strips, and the
//! assembly of finished strips into one frame, each with a proved contract.
pub mod assembly;
pub mod codec;
pub mod colour;
pub mod coordinator;
pub mod dispatch;
pub mod messages;
pub mod natural;
pub mod registry;
pub mod shares;
pub mod worker;
