//! Resource accounting and Banker's-style deadlock avoidance for one class of
//! lockable resources (all mutexes, or all semaphores, of one process).

pub mod detector;
pub mod laws;
pub mod model;

pub use detector::DeadLockDetector;
pub use model::DetectorState;
