//! A tracing garbage collector modelled as a verified state machine.
//!
//! The collector tracks allocations and the handles that reference them,
//! infers the root set from in-use warrants, and reclaims every allocation
//! that no root can reach.  Destruction of reclaimed values is deferred to a
//! queue that a caller drains explicitly.

pub mod collector;
pub mod heap;
pub mod lockout;
pub mod marking;
pub mod smart_ptr;
pub mod trigger;

pub use collector::Collector;
pub use collector::DestructionPolicy;
pub use collector::InternalGcRef;
pub use collector::Warrant;
pub use lockout::Lockout;
pub use smart_ptr::Gc;
pub use smart_ptr::GcGuard;
pub use trigger::Trigger;
